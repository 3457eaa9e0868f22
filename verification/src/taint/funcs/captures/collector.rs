//! The names that a function refers to but does not declare.

use vstd::prelude::*;

use crate::ast::{Node, NodeKind};
use crate::locations::Span;
use crate::ordered::{same_text, Ordered, OrderedSet};

verus! {

/// A set of names.
pub type Names = Set<Seq<char>>;

/// A set of names with the first of some more. The blank name is left out.
pub open spec fn with_names(declared: Names, names: Seq<Span>, n: int) -> Names
    decreases n,
{
    if n <= 0 {
        declared
    } else {
        let before = with_names(declared, names, n - 1);
        if names[n - 1]@.content == "_"@ {
            before
        } else {
            before.insert(names[n - 1]@.content)
        }
    }
}

/// The name at the root of something that is assigned to.
pub open spec fn root_of(node: Node) -> Option<Seq<char>>
    decreases node,
{
    if node.kind is Name && node.names@.len() > 0 {
        Some(node.names@[0]@.content)
    } else if node.kind.is_component() && node.children@.len() > 0 {
        root_of(node.children@[0])
    } else {
        None
    }
}

/// The names captured by assignments to the first nodes.
pub open spec fn captured_roots(nodes: Seq<Node>, declared: Names, n: int) -> Names
    decreases n,
{
    if n <= 0 {
        Set::<Seq<char>>::empty()
    } else {
        let before = captured_roots(nodes, declared, n - 1);
        match root_of(nodes[n - 1]) {
            Some(name) => if name != "_"@ && !declared.contains(name) {
                before.insert(name)
            } else {
                before
            },
            None => before,
        }
    }
}

/// What is known of names.
#[verifier::ext_equal]
pub struct NamesModel {
    /// Those that are declared.
    pub declared: Names,
    /// Those that are captured.
    pub captured: Names,
}

/// Whether what is declared in a node is only known there.
pub open spec fn is_scope(kind: NodeKind) -> bool {
    kind is Block || kind is If || kind is For || kind is Switch || kind is FunctionLiteral
        || kind is FunctionDecl
}

/// Whether a node declares its names behind its children.
pub open spec fn declares(kind: NodeKind) -> bool {
    kind is ShortDecl || kind is BindingSpec || kind is RangeDecl || kind is SwitchBinding
}

/// How many of the children of a node are assigned to.
pub open spec fn assigned_to(kind: NodeKind) -> int {
    match kind {
        NodeKind::Assignment(n) => n as int,
        NodeKind::RangeAssignment(n) => n as int,
        _ => 0,
    }
}

/// The names that are declared as the children of a node are visited.
pub open spec fn declared_inside(node: Node, declared: Names) -> Names {
    if node.kind is FunctionLiteral {
        with_names(declared, node.names@, node.names@.len() as int)
    } else if node.kind is FunctionDecl {
        with_names(declared, node.names@, node.names@.len() as int)
    } else {
        declared
    }
}

/// What is known of names once the first children of a node are visited.
pub open spec fn visited(node: Node, known: NamesModel, n: int) -> NamesModel
    decreases node, n,
{
    if n <= 0 || n > node.children@.len() {
        known
    } else {
        collected(node.children@[n - 1], visited(node, known, n - 1))
    }
}

/// What is known of names once a node is visited.
pub open spec fn collected(node: Node, known: NamesModel) -> NamesModel
    decreases node, node.children@.len() + 1,
{
    let inside = visited(
        node,
        NamesModel { declared: declared_inside(node, known.declared), ..known },
        node.children@.len() as int,
    );
    let count = if assigned_to(node.kind) <= node.children@.len() {
        assigned_to(node.kind)
    } else {
        node.children@.len() as int
    };
    if node.kind is TypeDecl {
        known
    } else if node.kind is Name {
        if node.names@.len() > 0 && !known.declared.contains(node.names@[0]@.content) {
            NamesModel { captured: known.captured.insert(node.names@[0]@.content), ..known }
        } else {
            known
        }
    } else if is_scope(node.kind) {
        NamesModel {
            declared: if node.kind is FunctionDecl && node.names@.len() > 0 {
                with_names(known.declared, node.names@, 1)
            } else {
                known.declared
            },
            captured: inside.captured,
        }
    } else if declares(node.kind) {
        NamesModel {
            declared: with_names(inside.declared, node.names@, node.names@.len() as int),
            captured: inside.captured,
        }
    } else {
        NamesModel {
            captured: inside.captured.union(
                captured_roots(node.children@, inside.declared, count),
            ),
            ..inside
        }
    }
}

fn declare_names(declared: &mut OrderedSet<String>, names: &Vec<Span>, count: usize)
    requires
        count <= names@.len(),
    ensures
        final(declared)@ == with_names(old(declared)@, names@, count as int),
{
    let ghost first = declared@;
    let mut i: usize = 0;
    while i < count
        invariant
            i <= count,
            count <= names@.len(),
            declared@ == with_names(first, names@, i as int),
        decreases count - i,
    {
        if !same_text(names[i].content(), "_") {
            let _ = declared.insert(names[i].content().to_owned());
        }
        i = i + 1;
    }
}

/// The name at the root of something that is assigned to.
pub fn root_operand(node: &Node) -> (r: Option<&Span>)
    ensures
        (match r {
            Some(s) => Some(s@.content),
            None => None,
        }) == root_of(*node),
    decreases node,
{
    match node.kind {
        NodeKind::Name => {
            if node.names.len() > 0 {
                Some(&node.names[0])
            } else {
                None
            }
        },
        NodeKind::Selection | NodeKind::Indexing | NodeKind::Slicing { .. } | NodeKind::Bracketed => {
            if node.children.len() > 0 {
                root_operand(&node.children[0])
            } else {
                None
            }
        },
        _ => None,
    }
}

fn capture_roots(
    captured: &mut OrderedSet<String>,
    declared: &OrderedSet<String>,
    nodes: &Vec<Node>,
    count: usize,
)
    requires
        count <= nodes@.len(),
    ensures
        final(captured)@ == old(captured)@.union(
            captured_roots(nodes@, declared@, count as int),
        ),
{
    let ghost first = captured@;
    let mut i: usize = 0;
    proof {
        assert(captured@ =~= first.union(captured_roots(nodes@, declared@, 0)));
    }
    while i < count
        invariant
            i <= count,
            count <= nodes@.len(),
            captured@ == first.union(captured_roots(nodes@, declared@, i as int)),
        decreases count - i,
    {
        if let Some(root) = root_operand(&nodes[i]) {
            let name = root.content().to_owned();
            if !same_text(name.as_str(), "_") && !declared.contains(&name) {
                let _ = captured.insert(name);
            }
        }
        proof {
            assert(captured@ =~= first.union(captured_roots(nodes@, declared@, i + 1)));
        }
        i = i + 1;
    }
}

fn visit_children(
    node: &Node,
    captured: &mut OrderedSet<String>,
    declared: &mut OrderedSet<String>,
)
    ensures
        (NamesModel { declared: final(declared)@, captured: final(captured)@ }) == visited(
            *node,
            NamesModel { declared: old(declared)@, captured: old(captured)@ },
            node.children@.len() as int,
        ),
    decreases node, 1int,
{
    let ghost known = NamesModel { declared: declared@, captured: captured@ };
    let n: usize = node.children.len();
    let mut i: usize = 0;
    while i < n
        invariant
            i <= n,
            n == node.children@.len(),
            (NamesModel { declared: declared@, captured: captured@ }) == visited(
                *node,
                known,
                i as int,
            ),
        decreases n - i,
    {
        collect_from(&node.children[i], captured, declared);
        i = i + 1;
    }
}

/// Collects the names that a node refers to but does not declare, and those
/// that it declares.
pub fn collect_from(
    node: &Node,
    captured: &mut OrderedSet<String>,
    declared: &mut OrderedSet<String>,
)
    ensures
        (NamesModel { declared: final(declared)@, captured: final(captured)@ }) == collected(
            *node,
            NamesModel { declared: old(declared)@, captured: old(captured)@ },
        ),
    decreases node, 2int,
{
    let ghost known = NamesModel { declared: declared@, captured: captured@ };
    match node.kind {
        NodeKind::TypeDecl => {},
        NodeKind::Name => {
            if node.names.len() > 0 {
                let name = node.names[0].content().to_owned();
                if !declared.contains(&name) {
                    let _ = captured.insert(name);
                }
            }
        },
        NodeKind::Block | NodeKind::If { .. } | NodeKind::For { .. } | NodeKind::Switch { .. } => {
            let mut inside = declared.duplicate();
            visit_children(node, captured, &mut inside);
        },
        NodeKind::FunctionLiteral => {
            let mut inside = declared.duplicate();
            declare_names(&mut inside, &node.names, node.names.len());
            visit_children(node, captured, &mut inside);
        },
        NodeKind::FunctionDecl => {
            let mut inside = declared.duplicate();
            declare_names(&mut inside, &node.names, node.names.len());
            visit_children(node, captured, &mut inside);
            if node.names.len() > 0 {
                declare_names(declared, &node.names, 1);
            }
        },
        NodeKind::ShortDecl
        | NodeKind::BindingSpec
        | NodeKind::RangeDecl
        | NodeKind::SwitchBinding => {
            visit_children(node, captured, declared);
            declare_names(declared, &node.names, node.names.len());
        },
        NodeKind::Assignment(operands) | NodeKind::RangeAssignment(operands) => {
            visit_children(node, captured, declared);
            let count: usize = if operands <= node.children.len() {
                operands
            } else {
                node.children.len()
            };
            capture_roots(captured, declared, &node.children, count);
        },
        _ => {
            visit_children(node, captured, declared);
            proof {
                let inside = visited(*node, known, node.children@.len() as int);
                assert(inside.captured.union(captured_roots(node.children@, inside.declared, 0))
                    =~= inside.captured);
            }
        },
    }
}

/// The names that a function refers to but does not declare: `names` are those
/// of its receiver, parameters and results.
pub fn collect_captured_symbols(names: &Vec<Span>, body: &Node) -> (r: OrderedSet<String>)
    ensures
        r@ == collected(
            *body,
            NamesModel {
                declared: with_names(
                    Set::<Seq<char>>::empty(),
                    names@,
                    names@.len() as int,
                ),
                captured: Set::<Seq<char>>::empty(),
            },
        ).captured,
{
    let mut declared: OrderedSet<String> = OrderedSet::new();
    let mut captured: OrderedSet<String> = OrderedSet::new();
    declare_names(&mut declared, names, names.len());
    collect_from(body, &mut captured, &mut declared);
    captured
}

} // verus!
