//! The parts of Go syntax trees that the analysis reads.

use vstd::prelude::*;

use crate::build_constraints::views;
use crate::labels::texts_of;
use crate::locations::{Location, Span};
use crate::taint::funcs::bodies::ReceiverDecl;
use crate::taint::funcs::definitions::NamedResults;
use crate::taint::funcs::Signature;
use crate::values::TypeInfo;

verus! {

/// An annotation.
#[derive(Debug)]
pub struct Annotation {
    /// What it asks for.
    pub directive: String,
    /// The tags that it names.
    pub tags: Vec<String>,
    /// Where it stands.
    pub location: Location,
}

/// References to the texts of a list.
pub fn text_refs<'a>(v: &'a Vec<String>) -> (r: Vec<&'a str>)
    ensures
        texts_of(r@) == views(v@),
        r@.len() == v@.len(),
{
    let mut r: Vec<&'a str> = Vec::new();
    let n: usize = v.len();
    let mut i: usize = 0;
    while i < n
        invariant
            i <= n,
            n == v@.len(),
            r@.len() == i,
            forall|k: int| 0 <= k < i ==> (#[trigger] r@[k])@ == v@[k]@,
        decreases n - i,
    {
        r.push(v[i].as_str());
        i = i + 1;
    }
    proof {
        assert(texts_of(r@) =~= views(v@));
    }
    r
}

/// A condition over build tags.
#[derive(Debug)]
pub enum BuildConstraintExprNode {
    Tag(String),
    Not(Box<BuildConstraintExprNode>),
    And(Vec<BuildConstraintExprNode>),
    Or(Vec<BuildConstraintExprNode>),
}

/// What a node of a syntax tree is. The comment of each kind says what its
/// names and its children are.
#[derive(Clone, Copy, Debug, PartialEq, Eq, Structural)]
pub enum NodeKind {
    /// A name in an expression, which is its first name. The second one, if
    /// there is one, is the qualifier before it.
    Name,
    /// A number, a text or another value without parts, which is its text.
    Literal,
    /// A value of its type with parts, which are its children.
    Composite,
    /// A part of a composite value: its key, then its value.
    KeyedElement,
    /// A member of its child. Its name is that of the member.
    Selection,
    /// An element of its first child; the second one says which.
    Indexing,
    /// Some elements of its first child. The others are the bounds that are
    /// given, in order.
    Slicing { has_low: bool, has_high: bool, has_max: bool },
    /// A function with a type that it is used with, or an element: the first
    /// child with the second one, whose name may be that of a type.
    Bracketed,
    /// Its child, of which its type is asserted.
    TypeAssertion,
    /// Its child as a value of its type.
    Conversion,
    /// Its child with the types that it is used with.
    Instantiation,
    /// Its child with an operator before it, which may take its address.
    Unary { takes_address: bool },
    /// Its two children with an operator between them, whose name is its text.
    Binary { short_circuits: bool },
    /// An expression that receives from its child.
    Receive,
    /// A call of its first child with the others. The last one may stand for
    /// many arguments.
    Call { variadic: bool },
    /// A call that makes a value of its type; its children are the sizes.
    Make,
    /// A call that makes a pointer to a value of its type.
    New,
    /// A function without a name. Its names are those of the parameters and
    /// results; its child is the body.
    FunctionLiteral,
    /// An empty statement.
    Empty,
    /// A statement that evaluates its child.
    Evaluation,
    /// A statement that sends its second child to the first one.
    Send,
    /// A statement that adds one to its child, or takes one away from it.
    IncDec,
    /// An assignment to the first children; the number of these is given.
    Assignment(usize),
    /// A short declaration of its names, with its expressions.
    ShortDecl,
    /// A statement behind a label, which is its only name.
    Labeled,
    /// Statements in a scope of their own.
    Block,
    /// Declarations of constants or variables.
    BindingDecl,
    /// A declaration of its names, with its expressions.
    BindingSpec,
    /// A declaration of a type.
    TypeDecl,
    /// A declaration of a function, whose name is the first one. The others are
    /// those of the receiver, the parameters and the results; its child, if it
    /// has one, is the body.
    FunctionDecl,
    /// A condition: a statement before it, if it has one; the condition; the
    /// block for when it holds; and what is done otherwise, if anything.
    If { has_init: bool },
    /// A loop: a statement before it, if it has one; the condition or what it
    /// goes through, if there is either; a statement behind each iteration, if
    /// it has one; then its body. Where its header stands is given.
    For { has_init: bool, has_post: bool, header: Location },
    /// What a loop goes through, with a declaration of its names.
    RangeDecl,
    /// What a loop goes through, behind what is assigned to, if anything; the
    /// number of these is given.
    RangeAssignment(usize),
    /// A statement that waits for one of its clauses.
    Select,
    /// A choice: a statement before it, if it has one; what is compared, or a
    /// declaration of a name for it, if there is either; then the clauses. It
    /// may be one between types.
    Switch { has_init: bool, on_types: bool },
    /// A declaration of its name for the clauses of a choice between types.
    SwitchBinding,
    /// A clause: what it waits for or compares with, if anything, then its
    /// block.
    Clause,
    /// A statement that goes on with the next clause.
    Fallthrough,
    /// A statement that goes on with the next iteration. Its name, if it has
    /// one, is the label of the loop.
    Continue,
    /// A statement that leaves a loop or a choice. Its name, if it has one, is
    /// the label of that.
    Break,
    /// A statement that leaves a function, with its expressions.
    Return,
    /// A statement that jumps to a label, which is its only name.
    Goto,
    /// A statement that calls its child at the same time.
    Go,
    /// A statement that puts off its child until the function is left.
    Defer,
}

impl NodeKind {
    /// Whether a node is a part of its first child.
    pub open spec fn is_component(self) -> bool {
        self is Selection || self is Indexing || self is Slicing || self is Bracketed
    }
}

/// What a function is declared with.
#[derive(Debug)]
pub struct FunctionShape {
    /// Its receiver, if it is a method.
    pub receiver: Option<ReceiverDecl>,
    /// The type of the receiver as it is written.
    pub receiver_type: Option<TypeNode>,
    /// Its parameters and how many results it has.
    pub signature: Signature,
    /// The types of the parameters.
    pub param_types: Vec<Option<TypeInfo>>,
    /// The types of the results.
    pub result_types: Vec<Option<TypeInfo>>,
    /// The results that have names.
    pub results: Vec<NamedResults>,
    /// The names of the results, in order.
    pub result_names: Vec<Span>,
    /// The parameter through which it hands values to loops, and how many of
    /// them, if they can go through it.
    pub yields: Option<(Span, usize)>,
}

/// A node of a syntax tree.
#[derive(Debug)]
pub struct Node {
    /// What it is.
    pub kind: NodeKind,
    /// The names in it.
    pub names: Vec<Span>,
    /// The nodes in it.
    pub children: Vec<Node>,
    /// Where it stands.
    pub location: Location,
    /// Its text, if it has one.
    pub text: Option<String>,
    /// The type that is written in it, if there is one.
    pub declared_type: Option<TypeInfo>,
    /// The annotation that belongs to it, if there is one.
    pub annotation: Option<Annotation>,
    /// What the function in it is declared with, if it is one.
    pub function: Option<FunctionShape>,
}

impl Node {
    /// A node without a text, a type or an annotation.
    pub fn plain(kind: NodeKind, names: Vec<Span>, children: Vec<Node>, location: Location) -> (r:
        Self)
        ensures
            r == (Node {
                kind,
                names,
                children,
                location,
                text: None,
                declared_type: None,
                annotation: None,
                function: None,
            }),
    {
        Node {
            kind,
            names,
            children,
            location,
            text: None,
            declared_type: None,
            annotation: None,
            function: None,
        }
    }
}

/// A type as it is written, as far as a receiver can have it.
#[derive(Debug)]
pub enum TypeNode {
    /// A name, which may stand behind a qualifier.
    Name { qualified: bool, id: Span },
    /// A pointer.
    Pointer(Box<TypeNode>),
    /// Anything else.
    Other,
}

/// An import.
#[derive(Debug)]
pub struct ImportSpecNode {
    /// The name under which the package is imported, if it is given.
    pub identifier: Option<Span>,
    /// The path of the package.
    pub path: String,
    /// Where it stands.
    pub location: Location,
}

/// A declaration at the outermost level of a file.
#[derive(Debug)]
pub enum DeclNode {
    /// Constants or variables.
    Binding { ids: Vec<Span>, mutable: bool, declared_type: Option<TypeInfo> },
    /// A type.
    Type { id: Span, target: Option<TypeInfo> },
    /// A function, or a method with the type of its receiver.
    Function { name: Span, receiver: Option<TypeNode> },
}

/// A file, as far as other files see it.
#[derive(Debug)]
pub struct FileOutlineNode {
    /// The name of the package.
    pub package: Span,
    /// The imports.
    pub imports: Vec<ImportSpecNode>,
    /// The declarations.
    pub decls: Vec<DeclNode>,
}

/// A source file.
#[derive(Debug)]
pub struct SourceFileNode {
    /// The condition under which the file is compiled, if it states one.
    pub build_constraint: Option<BuildConstraintExprNode>,
    /// The file, as far as other files see it.
    pub outline: FileOutlineNode,
    /// The declarations with what is in them.
    pub decls: Vec<Node>,
}

} // verus!
