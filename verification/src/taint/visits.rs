//! Visits of syntax trees: expressions, statements, functions and files.

use vstd::prelude::*;

use crate::analyzer::Analyzer;
use crate::ast::{Node, NodeKind};
use crate::context::branches::copy_trace;
use crate::context::ContextModel;
use crate::labels::backtraces::{trace_of, Trace};
use crate::locations::Location;
use crate::ordered::same_text;
use crate::policy::blanket_directives::{directives_of, BlanketDirective, DirectiveModel};
use crate::policy::targets::SimpleConstValue;
use crate::symbols::const_of;
use crate::symbols::table::{lemma_resolved_in_range, SymbolTable, TableModel};
use crate::taint::exprs::component::{FieldInfo, Member, MemberModel};
use crate::taint::exprs::names::operand_package;
use crate::taint::exprs::visits::{evaluated, evaluated_log, evaluated_table, visit_evaluated,
    ExprModel, ExprNode, ExprResult, ResultModel};
use crate::taint::funcs::summaries::copy_directives;
use crate::taint::implicit::{Place, PlaceModel};
use crate::values::{copy_type, type_of, FormModel, TypeModel, Value, ValueForm, ValueModel};

pub mod bodies;
pub mod callees;
pub mod composites;
pub mod calls;
pub mod exprs;
pub mod files;
pub mod lefts;
pub mod literals;
pub mod performing;
pub mod resolution;
pub mod runs;
pub mod statements;

verus! {

/// A type that is declared somewhere.
#[derive(Debug)]
pub struct TypeDecl {
    /// How it is written.
    pub name: String,
    /// The path of its package.
    pub package: String,
    /// Its name in that package.
    pub base: String,
    /// Whether its declaration was not seen.
    pub is_external: bool,
    /// Its fields.
    pub fields: Vec<(String, FieldInfo)>,
}

/// What is the same throughout a visit: the policy, and the types.
#[derive(Clone, Copy)]
pub struct Env<'a> {
    /// Who knows the policy.
    pub analyzer: &'a Analyzer,
    /// The types.
    pub types: &'a Vec<TypeDecl>,
}

/// The first type that is written like this.
pub open spec fn type_named(types: Seq<TypeDecl>, name: Seq<char>) -> Option<TypeDecl>
    decreases types.len(),
{
    if types.len() == 0 {
        None
    } else if types[0].name@ == name {
        Some(types[0])
    } else {
        type_named(types.skip(1), name)
    }
}

/// The first field of a name: its type, and what its declaration says that it
/// carries.
pub open spec fn field_named(fields: Seq<(String, FieldInfo)>, name: Seq<char>) -> Option<
    (Option<TypeModel>, Option<Trace>),
>
    decreases fields.len(),
{
    if fields.len() == 0 {
        None
    } else if fields[0].0@ == name {
        Some((type_of(fields[0].1.declared_type), trace_of(fields[0].1.tag_backtrace)))
    } else {
        field_named(fields.skip(1), name)
    }
}

fn find_type<'a>(types: &'a Vec<TypeDecl>, name: &str) -> (r: Option<&'a TypeDecl>)
    ensures
        type_named(types@, name@) == match r {
            Some(d) => Some(*d),
            None => None,
        },
{
    let n: usize = types.len();
    let mut i: usize = 0;
    proof {
        assert(types@.skip(0) =~= types@);
    }
    while i < n
        invariant
            i <= n,
            n == types@.len(),
            type_named(types@, name@) == type_named(types@.skip(i as int), name@),
        decreases n - i,
    {
        proof {
            assert(types@.skip(i as int)[0] == types@[i as int]);
            assert(types@.skip(i as int).skip(1) =~= types@.skip(i + 1));
        }
        if same_text(types[i].name.as_str(), name) {
            return Some(&types[i]);
        }
        i = i + 1;
    }
    None
}

fn find_field(fields: &Vec<(String, FieldInfo)>, name: &str) -> (r: Option<FieldInfo>)
    ensures
        field_named(fields@, name@) == match r {
            Some(f) => Some((type_of(f.declared_type), trace_of(f.tag_backtrace))),
            None => None,
        },
{
    let n: usize = fields.len();
    let mut i: usize = 0;
    proof {
        assert(fields@.skip(0) =~= fields@);
    }
    while i < n
        invariant
            i <= n,
            n == fields@.len(),
            field_named(fields@, name@) == field_named(fields@.skip(i as int), name@),
        decreases n - i,
    {
        proof {
            assert(fields@.skip(i as int)[0] == fields@[i as int]);
            assert(fields@.skip(i as int).skip(1) =~= fields@.skip(i + 1));
        }
        if same_text(fields[i].0.as_str(), name) {
            let f = &fields[i].1;
            return Some(
                FieldInfo {
                    declared_type: copy_type(&f.declared_type),
                    tag_backtrace: copy_trace(&f.tag_backtrace),
                },
            );
        }
        i = i + 1;
    }
    None
}

impl<'a> Env<'a> {
    /// What the policy says of a name.
    pub open spec fn said(
        self,
        path: Seq<char>,
        owner: Option<Seq<char>>,
        name: Seq<char>,
    ) -> Seq<DirectiveModel> {
        directives_of(self.analyzer.directives_for(path, owner, name))
    }

    /// What the policy says of an operand.
    pub open spec fn said_of_operand(
        self,
        t: TableModel,
        name: Seq<char>,
        qualifier: Option<Seq<char>>,
    ) -> Seq<DirectiveModel> {
        match operand_package(t, name, qualifier) {
            Some(path) => self.said(path, None, name),
            None => Seq::<DirectiveModel>::empty(),
        }
    }

    /// What is known of a name behind a value.
    pub open spec fn member_of(
        self,
        t: TableModel,
        base: ValueModel,
        selector: Seq<char>,
    ) -> MemberModel {
        let unknown = MemberModel {
            directives: Seq::<DirectiveModel>::empty(),
            method: None,
            field: None,
            any_method_named: t.has_any_method(selector),
            base_is_external: false,
        };
        match base.form {
            FormModel::Package(p) => MemberModel {
                directives: self.said_of_operand(t, selector, Some(p)),
                ..unknown
            },
            _ => match base.declared_type {
                Some(ty) => match type_named(self.types@, ty.name) {
                    Some(d) => MemberModel {
                        directives: self.said(d.package@, Some(d.base@), selector),
                        method: t.method_of_type(d.package@, d.base@, selector),
                        field: field_named(d.fields@, selector),
                        any_method_named: t.has_any_method(selector),
                        base_is_external: d.is_external,
                    },
                    None => unknown,
                },
                None => unknown,
            },
        }
    }

    /// Whether a type is written like this.
    pub fn knows_type(&self, name: &str) -> (r: bool)
        ensures
            r == type_named(self.types@, name@) is Some,
    {
        find_type(self.types, name).is_some()
    }

    /// What the policy says of a name.
    pub fn directives(&self, path: &str, owner: Option<&str>, name: &str) -> (r: Vec<
        BlanketDirective,
    >)
        ensures
            directives_of(r@) == self.said(
                path@,
                match owner {
                    Some(o) => Some(o@),
                    None => None,
                },
                name@,
            ),
    {
        match self.analyzer.blanket_directives_for(path, owner, name) {
            Some(v) => copy_directives(v),
            None => {
                let r: Vec<BlanketDirective> = Vec::new();
                proof {
                    assert(directives_of(r@) =~= directives_of(Seq::<BlanketDirective>::empty()));
                }
                r
            },
        }
    }

    /// What the policy says of an operand.
    pub fn directives_for_operand(
        &self,
        table: &SymbolTable,
        name: &str,
        qualifier: Option<&str>,
    ) -> (r: Vec<BlanketDirective>)
        requires
            table@.wf(),
        ensures
            directives_of(r@) == self.said_of_operand(
                table@,
                name@,
                match qualifier {
                    Some(q) => Some(q@),
                    None => None,
                },
            ),
    {
        match table.package_path_for_operand(name, qualifier) {
            Some(path) => self.directives(path.as_str(), None, name),
            None => {
                let r: Vec<BlanketDirective> = Vec::new();
                proof {
                    assert(directives_of(r@) =~= Seq::<DirectiveModel>::empty());
                }
                r
            },
        }
    }

    /// What is known of a name behind a value.
    pub fn member(&self, table: &SymbolTable, base: &Value, selector: &str) -> (r: Member)
        requires
            table@.wf(),
        ensures
            r@ == self.member_of(table@, base@, selector@),
            r.method matches Some(m) ==> m < table@.symbols.len(),
    {
        let none: Vec<BlanketDirective> = Vec::new();
        proof {
            assert(directives_of(none@) =~= Seq::<DirectiveModel>::empty());
        }
        let any_method_named = table.any_method_named(selector);
        if let ValueForm::Package(p) = &base.form {
            let directives = self.directives_for_operand(table, selector, Some(p.as_str()));
            return Member {
                directives,
                method: None,
                field: None,
                any_method_named,
                base_is_external: false,
            };
        }
        if let Some(ty) = &base.declared_type {
            if let Some(d) = find_type(self.types, ty.name.as_str()) {
                let directives = self.directives(
                    d.package.as_str(),
                    Some(d.base.as_str()),
                    selector,
                );
                return Member {
                    directives,
                    method: table.get_method(&d.package, &d.base, selector),
                    field: find_field(&d.fields, selector),
                    any_method_named,
                    base_is_external: d.is_external,
                };
            }
        }
        Member {
            directives: none,
            method: None,
            field: None,
            any_method_named,
            base_is_external: false,
        }
    }
}

impl PlaceModel {
    /// The place once a limit is met.
    pub open spec fn stopped(self) -> PlaceModel {
        PlaceModel { halted: true, ..self }
    }

    /// The place once an expression is evaluated whose operands have been.
    #[verifier::opaque]
    pub open spec fn after(self, node: ExprModel, location: Location) -> PlaceModel {
        PlaceModel {
            ctx: ContextModel {
                log: evaluated_log(self.ctx, self.table, node, location),
                ..self.ctx
            },
            table: evaluated_table(self.ctx, self.table, node, location),
            ..self
        }
    }

    /// What an expression comes to whose operands have been evaluated.
    #[verifier::opaque]
    pub open spec fn value_of(self, node: ExprModel, location: Location) -> ResultModel {
        evaluated(self.ctx, self.table, node, location)
    }
}

impl Place {
    /// Evaluates an expression whose operands have been evaluated.
    pub fn evaluate(&mut self, node: ExprNode, location: Location) -> (r: ExprResult)
        requires
            old(self).wf(),
            node matches ExprNode::Selection { member, .. } ==> (member.method matches Some(m) ==> m
                < old(self)@.table.symbols.len()),
        ensures
            final(self).wf(),
            final(self)@ == old(self)@.after(node@, location),
            r@ == old(self)@.value_of(node@, location),
    {
        proof {
            reveal(PlaceModel::after);
            reveal(PlaceModel::value_of);
        }
        let ghost before = self@;
        let r = visit_evaluated(&mut self.ctx, &mut self.table, node, location);
        proof {
            lemma_file_kept(before.ctx, before.table, node@, location);
            assert(self@ =~= before.after(node@, location));
        }
        r
    }
}

proof fn lemma_file_kept(ctx: ContextModel, t: TableModel, node: ExprModel, location: Location)
    ensures
        evaluated_log(ctx, t, node, location).file == ctx.log.file,
{
}

/// What is known of the value of an expression before it is evaluated.
pub open spec fn known_in(t: TableModel, node: Node) -> Option<Seq<char>> {
    if node.kind is Literal {
        match node.text {
            Some(s) => Some(s@),
            None => None,
        }
    } else if node.kind is Name && node.names@.len() == 1 {
        match t.resolved(Some(t.current), node.names@[0]@.content) {
            Some(s) => t.symbols[s as int].known_const,
            None => None,
        }
    } else {
        None
    }
}

/// What is known of the value of an expression whatever the names in it are.
pub open spec fn literally(node: Node) -> Option<Seq<char>> {
    if node.kind is Literal {
        match node.text {
            Some(s) => Some(s@),
            None => None,
        }
    } else {
        None
    }
}

/// What is known of the value of an expression whatever the names in it are.
pub fn read_literal(node: &Node) -> (r: Option<SimpleConstValue>)
    ensures
        const_of(r) == literally(*node),
{
    match node.kind {
        NodeKind::Literal => match &node.text {
            Some(s) => Some(SimpleConstValue { text: s.clone() }),
            None => None,
        },
        _ => None,
    }
}

/// What is known of the value of an expression before it is evaluated.
pub fn try_resolve_simple_const(table: &SymbolTable, node: &Node) -> (r: Option<SimpleConstValue>)
    requires
        table@.wf(),
    ensures
        const_of(r) == known_in(table@, *node),
{
    match node.kind {
        NodeKind::Literal => read_literal(node),
        NodeKind::Name => if node.names.len() == 1 {
            match table.get_symbol(node.names[0].content()) {
                Some(s) => {
                    proof {
                        lemma_resolved_in_range(
                            table@,
                            Some(table@.current),
                            node.names@[0]@.content,
                        );
                    }
                    match &table.symbol(s).known_const {
                        Some(c) => Some(SimpleConstValue { text: c.text.clone() }),
                        None => None,
                    }
                },
                None => None,
            }
        } else {
            None
        },
        _ => None,
    }
}

} // verus!
