//! Files and their declarations.

use vstd::prelude::*;

use crate::ast::{ImportSpecNode, Node, NodeKind, SourceFileNode};
use crate::decls::{check_import_spec, import_checked};
use crate::functions::{FunctionModel, FunctionRef};
use crate::locations::{PinnedModel, Span, SpanModel};
use crate::ordered::{same_text, Ordered};
use crate::taint::explicit::spans_of;
use crate::taint::funcs::definitions::{enter_init_function, init_entered, init_left,
    leave_init_function};
use crate::taint::implicit::{Place, PlaceModel};
use crate::taint::visits::performing::{perform, performed};
use crate::taint::visits::runs::{apply_deferred_calls, body_run, calls_made, function_visited,
    visit_block, visit_function};
use crate::taint::visits::Env;
use crate::taint::walks::TaskModel;

verus! {

/// Whether a declaration is one of an `init` function, which is not declared but
/// done when the package is.
pub open spec fn is_init(node: Node) -> bool {
    node.kind is FunctionDecl && node.names@.len() > 0 && node.children@.len() > 0
        && node.names@[0]@.content == "init"@ && (node.function matches Some(f)
        ==> f.receiver_type is None)
}

impl PlaceModel {
    /// A name in the current file.
    pub open spec fn named(self, name: SpanModel) -> PinnedModel<SpanModel> {
        PinnedModel { file: self.ctx.log.file->0, inner: name }
    }
}

/// The place once the body of an `init` function is visited, and the calls are
/// made that it puts off.
pub open spec fn init_visited(env: Env<'_>, p: PlaceModel, node: Node, limit: nat) -> PlaceModel {
    if p.ctx.branches.depth >= 255 {
        p.stopped()
    } else {
        let func = FunctionModel::Named(p.named(node.names@[0]@));
        let inside = PlaceModel { ctx: init_entered(p.ctx, func), ..p };
        let (q, m) = body_run(
            env,
            inside,
            TaskModel::Statement { node: node.children@[0], label: None },
            Seq::<SpanModel>::empty(),
            limit,
        );
        let r = calls_made(q, m.pending, limit);
        if r.ctx.branches.depth == 0 {
            r.stopped()
        } else {
            PlaceModel { ctx: init_left(r.ctx), ..r }
        }
    }
}

/// The place once a declaration is visited. Types are known by then.
#[verifier::opaque]
pub open spec fn decl_visited(env: Env<'_>, p: PlaceModel, node: Node, limit: nat) -> PlaceModel {
    if is_init(node) {
        init_visited(env, p, node, limit)
    } else if node.kind is FunctionDecl {
        match node.function {
            Some(shape) => if node.names@.len() > 0 {
                let name = p.named(node.names@[0]@);
                function_visited(
                    env,
                    p,
                    FunctionModel::Named(name),
                    Some(name),
                    node,
                    shape,
                    p.at(node.location),
                    limit,
                )
            } else {
                p.stopped()
            },
            None => p.stopped(),
        }
    } else if node.kind is BindingDecl {
        performed(env, p, node, Seq::<SpanModel>::empty(), limit).0
    } else {
        p
    }
}

/// The place once the first declarations are visited.
pub open spec fn decls_visited(
    env: Env<'_>,
    p: PlaceModel,
    decls: Seq<Node>,
    n: int,
    limit: nat,
) -> PlaceModel
    decreases n,
{
    if n <= 0 {
        p
    } else {
        decl_visited(env, decls_visited(env, p, decls, n - 1, limit), decls[n - 1], limit)
    }
}

/// The place once an import is seen again.
pub open spec fn import_seen(p: PlaceModel, import: ImportSpecNode) -> PlaceModel {
    let infer = !(p.ctx.log.stage is RecordDeclarations);
    let qualifier = match import.identifier {
        Some(q) => Some(q@.content),
        None => None,
    };
    PlaceModel {
        ctx: import_checked(p.ctx, p.table, import, infer),
        table: match p.table.import_name(qualifier, import.path@, infer) {
            Some(name) => p.table.importing(name, import.path@),
            None => p.table,
        },
        ..p
    }
}

/// The place once the first imports are seen again.
pub open spec fn imports_seen(p: PlaceModel, imports: Seq<ImportSpecNode>, n: int) -> PlaceModel
    decreases n,
{
    if n <= 0 {
        p
    } else {
        import_seen(imports_seen(p, imports, n - 1), imports[n - 1])
    }
}

/// The place once a file is visited. One that gives its package another name
/// than the first one did is left out.
pub open spec fn file_visited(
    env: Env<'_>,
    p: PlaceModel,
    file: SourceFileNode,
    path: Seq<char>,
    limit: nat,
) -> PlaceModel {
    let name = p.named(file.outline.package@);
    if p.table.known(path) is None || p.table.scopes.len() >= usize::MAX {
        p.stopped()
    } else {
        let entered = PlaceModel { table: p.table.in_entered_package(name, path), ..p };
        if p.table.entry(name, path).package_name.inner.content != name.inner.content {
            entered
        } else {
            let imports = file.outline.imports@;
            let q = decls_visited(
                env,
                imports_seen(entered, imports, imports.len() as int),
                file.decls@,
                file.decls@.len() as int,
                limit,
            );
            PlaceModel { table: q.table.with_progress(path), ..q }
        }
    }
}

fn is_init_decl(node: &Node) -> (r: bool)
    ensures
        r == is_init(*node),
{
    let declares = match node.kind {
        NodeKind::FunctionDecl => true,
        _ => false,
    };
    if !declares || node.names.len() == 0 || node.children.len() == 0 {
        return false;
    }
    let free = match &node.function {
        Some(f) => f.receiver_type.is_none(),
        None => true,
    };
    free && same_text(node.names[0].content(), "init")
}

/// Visits the body of an `init` function.
pub fn visit_init_function(env: &Env<'_>, place: &mut Place, node: &Node, limit: usize)
    requires
        old(place).wf(),
        node.names@.len() > 0,
        node.children@.len() > 0,
    ensures
        final(place).wf(),
        final(place)@ == init_visited(*env, old(place)@, *node, limit as nat),
{
    if place.ctx.branches.branch_scope_depth() >= 255 {
        let _none = place.give_up();
        return;
    }
    let ghost p = place@;
    let func = FunctionRef::Named(place.ctx.log.pin(node.names[0].duplicate()));
    let ghost f = func@;
    enter_init_function(&mut place.ctx, func);
    proof {
        assert(place@ =~= PlaceModel { ctx: init_entered(p.ctx, f), ..p });
    }
    let names: Vec<Span> = Vec::new();
    proof {
        assert(spans_of(names@) =~= Seq::<SpanModel>::empty());
    }
    let pending = visit_block(env, place, &node.children[0], &names, limit);
    apply_deferred_calls(place, pending, limit);
    if place.ctx.branches.branch_scope_depth() == 0 {
        let _none = place.give_up();
        return;
    }
    let ghost r = place@;
    leave_init_function(&mut place.ctx);
    proof {
        assert(place@ =~= PlaceModel { ctx: init_left(r.ctx), ..r });
    }
}

/// Visits a declaration.
pub fn visit_decl(env: &Env<'_>, place: &mut Place, node: &Node, limit: usize)
    requires
        old(place).wf(),
    ensures
        final(place).wf(),
        final(place)@ == decl_visited(*env, old(place)@, *node, limit as nat),
{
    proof {
        reveal(decl_visited);
    }
    if is_init_decl(node) {
        visit_init_function(env, place, node, limit);
        return;
    }
    match node.kind {
        NodeKind::FunctionDecl => {
            match &node.function {
                Some(shape) => {
                    if node.names.len() > 0 {
                        let name = place.ctx.log.pin(node.names[0].duplicate());
                        let func = FunctionRef::Named(name.duplicate());
                        let at = place.ctx.log.pin(node.location);
                        visit_function(env, place, &func, Some(name), node, shape, &at, limit);
                    } else {
                        let _none = place.give_up();
                    }
                },
                None => {
                    let _none = place.give_up();
                },
            }
        },
        NodeKind::BindingDecl => {
            let names: Vec<Span> = Vec::new();
            proof {
                assert(spans_of(names@) =~= Seq::<SpanModel>::empty());
            }
            let _call = perform(env, place, node, &names, limit);
        },
        _ => {},
    }
}

fn see_imports(place: &mut Place, imports: &Vec<ImportSpecNode>)
    requires
        old(place).wf(),
    ensures
        final(place).wf(),
        final(place)@ == imports_seen(old(place)@, imports@, imports@.len() as int),
{
    let ghost start = place@;
    let n: usize = imports.len();
    let mut i: usize = 0;
    while i < n
        invariant
            i <= n,
            n == imports@.len(),
            place.wf(),
            place@ == imports_seen(start, imports@, i as int),
        decreases n - i,
    {
        let ghost before = place@;
        check_import_spec(&mut place.ctx, &mut place.table, &imports[i]);
        proof {
            assert(place@ =~= import_seen(before, imports@[i as int]));
        }
        i = i + 1;
    }
}

/// Visits a file of a package whose declarations have been recorded.
pub fn visit_source_file(
    env: &Env<'_>,
    place: &mut Place,
    file: &SourceFileNode,
    package_path: &String,
    limit: usize,
)
    requires
        old(place).wf(),
    ensures
        final(place).wf(),
        final(place)@ == file_visited(*env, old(place)@, *file, package_path@, limit as nat),
{
    if !place.table.is_package_known(package_path) || !place.table.can_grow() {
        let _none = place.give_up();
        return;
    }
    let ghost p = place@;
    let name = place.ctx.log.pin(file.outline.package.duplicate());
    let ghost nm = name@;
    let first = place.table.enter_package(name, package_path.as_str());
    let ghost entered = place@;
    proof {
        assert(entered =~= PlaceModel {
            table: p.table.in_entered_package(nm, package_path@),
            ..p
        });
    }
    if !same_text(first.content(), file.outline.package.content()) {
        return;
    }
    see_imports(place, &file.outline.imports);
    let n: usize = file.decls.len();
    let ghost seen = place@;
    let mut i: usize = 0;
    while i < n
        invariant
            i <= n,
            n == file.decls@.len(),
            place.wf(),
            place@ == decls_visited(*env, seen, file.decls@, i as int, limit as nat),
        decreases n - i,
    {
        visit_decl(env, place, &file.decls[i], limit);
        i = i + 1;
    }
    let ghost q = place@;
    place.table.save_package_progress(package_path.as_str());
    proof {
        assert(place@ =~= PlaceModel { table: q.table.with_progress(package_path@), ..q });
    }
}

} // verus!
