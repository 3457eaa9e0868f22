//! What files declare at their outermost level.

use vstd::prelude::*;

use crate::ast::{DeclNode, FileOutlineNode, ImportSpecNode, TypeNode};
use crate::context::declarations::{declare_new_method_symbol, declare_new_symbol, declared};
use crate::context::{AnalysisContext, ContextModel};
use crate::errors::{AnalysisErrorKind, ErrorModel};
use crate::functions::{FunctionModel, FunctionRef};
use crate::locations::{PinnedModel, Span, SpanModel};
use crate::ordered::{same_text, Ordered};
use crate::symbols::table::{SymbolTable, TableModel};
use crate::symbols::{Symbol, SymbolModel};
use crate::taint::explicit::{declare_zero_values, spans_of, zero_declared};
use crate::taint::funcs::{FunctionSummary, SummaryModel};
use crate::values::{copy_type, type_of, types_of, FormModel, KeyModel, TypeInfo, TypeModel, Value,
    ValueForm, ValueModel};

verus! {

/// The name of the type to which a method belongs: that of the receiver, behind
/// all pointers.
pub open spec fn base_type_name(t: TypeNode) -> Option<Seq<char>>
    decreases t,
{
    match t {
        TypeNode::Name { qualified, id } => if qualified {
            None
        } else {
            Some(id@.content)
        },
        TypeNode::Pointer(base) => base_type_name(*base),
        TypeNode::Other => None,
    }
}

/// The name of the type to which a method belongs.
pub fn receiver_base_type_name(t: &TypeNode) -> (r: Option<&str>)
    ensures
        (match r {
            Some(name) => Some(name@),
            None => None,
        }) == base_type_name(*t),
    decreases t,
{
    match t {
        TypeNode::Name { qualified, id } => {
            if *qualified {
                None
            } else {
                Some(id.content())
            }
        },
        TypeNode::Pointer(base) => receiver_base_type_name(base),
        TypeNode::Other => None,
    }
}

/// The name of the type to which a function belongs, if it is a method.
pub open spec fn owner_of(receiver: Option<TypeNode>) -> Option<Seq<char>> {
    match receiver {
        Some(t) => base_type_name(t),
        None => None,
    }
}

/// The table with one more symbol.
pub open spec fn with_symbol(t: TableModel, symbol: SymbolModel) -> TableModel {
    TableModel { symbols: t.symbols.push(symbol), ..t }
}

/// The state and the table once a symbol is declared: as a method of a type of
/// the current package, or else in the current scope.
pub open spec fn symbol_declared(
    ctx: ContextModel,
    t: TableModel,
    symbol: SymbolModel,
    owner: Option<Seq<char>>,
) -> (ContextModel, TableModel) {
    let added = with_symbol(t, symbol);
    let id = t.symbols.len() as usize;
    let name = symbol.declared_name;
    match owner {
        Some(o) => {
            let e = added.known(added.package->0)->0;
            let existing = if e.has(o, name.inner.content) {
                Some(added.symbols[e.at(o, name.inner.content) as int].declared_name)
            } else {
                None
            };
            (
                ContextModel { log: declared(ctx.log, name, existing), ..ctx },
                added.declaring_method(o, name.inner.content, id),
            )
        },
        None => (
            ContextModel {
                log: declared(ctx.log, name, added.local_declaration(name.inner.content)),
                ..ctx
            },
            added.declaring(name.inner.content, id),
        ),
    }
}

/// Whether a package is entered whose methods can be declared.
pub open spec fn is_in_package(t: TableModel) -> bool {
    t.package is Some && t.known(t.package->0) is Some
}

/// Declares a function in the current scope, or a method of a type of the
/// current package.
pub fn declare_function_or_method(
    ctx: &mut AnalysisContext,
    table: &mut SymbolTable,
    receiver: Option<&TypeNode>,
    symbol: Symbol,
)
    requires
        old(ctx).wf(),
        old(table)@.wf(),
        is_in_package(old(table)@),
    ensures
        final(ctx).wf(),
        final(table)@.wf(),
        (final(ctx)@, final(table)@) == symbol_declared(
            old(ctx)@,
            old(table)@,
            symbol@,
            match receiver {
                Some(t) => base_type_name(*t),
                None => None,
            },
        ),
        is_in_package(final(table)@),
{
    let ghost start = ctx@;
    let ghost t = table@;
    let ghost m = symbol@;
    let id: usize = table.add_symbol(symbol);
    let owner = match receiver {
        Some(t) => receiver_base_type_name(t),
        None => None,
    };
    match owner {
        Some(o) => {
            declare_new_method_symbol(&mut ctx.log, table, o, id);
            proof {
                assert(ctx@ =~= symbol_declared(start, t, m, Some(o@)).0);
            }
        },
        None => {
            declare_new_symbol(&mut ctx.log, table, id);
            proof {
                assert(ctx@ =~= symbol_declared(start, t, m, None).0);
            }
        },
    }
}

/// The table once an import is seen, as far as its name can be told. One under
/// the blank name has no effect.
pub open spec fn imported(t: TableModel, spec: ImportSpecNode) -> TableModel {
    let qualifier = match spec.identifier {
        Some(q) => Some(q@.content),
        None => None,
    };
    if qualifier == Some("_"@) {
        t
    } else {
        match t.import_name(qualifier, spec.path@, true) {
            Some(name) => t.importing(name, spec.path@),
            None => t,
        }
    }
}

/// The table once the first imports are seen.
pub open spec fn all_imported(t: TableModel, specs: Seq<ImportSpecNode>, n: int) -> TableModel
    decreases n,
{
    if n <= 0 {
        t
    } else {
        imported(all_imported(t, specs, n - 1), specs[n - 1])
    }
}

/// Sees an import. What is wrong with it is only reported later.
pub fn visit_import_spec(table: &mut SymbolTable, spec: &ImportSpecNode)
    requires
        old(table)@.wf(),
    ensures
        final(table)@.wf(),
        final(table)@ == imported(old(table)@, *spec),
{
    let qualifier = match &spec.identifier {
        Some(q) => {
            if same_text(q.content(), "_") {
                return;
            }
            Some(q.content().to_owned())
        },
        None => None,
    };
    let _conflicted = table.register_import_spec(qualifier, spec.path.as_str(), true);
}

/// The log once the import of a file is checked: its name can be told, and no
/// other import has it.
pub open spec fn import_checked(
    ctx: ContextModel,
    t: TableModel,
    spec: ImportSpecNode,
    infer: bool,
) -> ContextModel {
    let qualifier = match spec.identifier {
        Some(q) => Some(q@.content),
        None => None,
    };
    ContextModel {
        log: match t.import_name(qualifier, spec.path@, infer) {
            None => ctx.log.with_error(
                ErrorModel::UnresolvableUnqualifiedImport { location: spec.location },
            ),
            Some(name) => if name != "."@ && t.named_imports.dom().contains(name) {
                ctx.log.with_error(
                    ErrorModel::DuplicateImportQualifier { location: spec.location },
                )
            } else {
                ctx.log
            },
        },
        ..ctx
    }
}

/// Sees an import again, and reports what is wrong with it.
pub fn check_import_spec(
    ctx: &mut AnalysisContext,
    table: &mut SymbolTable,
    spec: &ImportSpecNode,
)
    requires
        old(ctx).wf(),
        old(table)@.wf(),
    ensures
        final(ctx).wf(),
        final(table)@.wf(),
        ({
            let qualifier = match spec.identifier {
                Some(q) => Some(q@.content),
                None => None,
            };
            let infer = !(old(ctx)@.log.stage is RecordDeclarations);
            &&& final(ctx)@ == import_checked(old(ctx)@, old(table)@, *spec, infer)
            &&& final(table)@ == match old(table)@.import_name(qualifier, spec.path@, infer) {
                Some(name) => old(table)@.importing(name, spec.path@),
                None => old(table)@,
            }
        }),
{
    let ghost start = ctx@;
    let ghost t = table@;
    let infer = !ctx.log.stage().is_first();
    let qualifier = match &spec.identifier {
        Some(q) => Some(q.content().to_owned()),
        None => None,
    };
    match table.register_import_spec(qualifier, spec.path.as_str(), infer) {
        None => {
            ctx.log.report_error(
                AnalysisErrorKind::UnresolvableUnqualifiedImport { location: spec.location },
            );
        },
        Some(true) => {
            ctx.log.report_error(
                AnalysisErrorKind::DuplicateImportQualifier { location: spec.location },
            );
        },
        Some(false) => {},
    }
    proof {
        assert(ctx@ =~= import_checked(start, t, *spec, infer));
    }
}

/// What a type is as a function: calls of it convert values to the type.
pub open spec fn type_constructor(
    name: PinnedModel<SpanModel>,
    target: Option<TypeModel>,
) -> SummaryModel {
    SummaryModel {
        func: FunctionModel::Named(name),
        own: None,
        signature: None,
        has_receiver: false,
        is_type_constructor: true,
        directives: Seq::<crate::policy::blanket_directives::DirectiveModel>::empty(),
        deferred_checks: Seq::<crate::context::deferred_checks::CheckModel>::empty(),
        outcome: None,
        call_count: 0,
        declared_result_types: seq![target],
        captures: Seq::<crate::taint::funcs::captures::CaptureModel>::empty(),
        yielding: None,
    }
}

/// The state and the table once a type is declared.
pub open spec fn type_declared(
    ctx: ContextModel,
    t: TableModel,
    id: SpanModel,
    target: Option<TypeModel>,
) -> (ContextModel, TableModel) {
    let name = PinnedModel { file: ctx.log.file->0, inner: id };
    let symbol = SymbolModel {
        declared_name: name,
        mutable: false,
        value: ValueModel {
            key: KeyModel::Whole,
            form: FormModel::Function(t.functions.len() as usize),
            own: None,
            location: PinnedModel { file: name.file, inner: id.location },
            declared_type: None,
            parts: Seq::<ValueModel>::empty(),
        },
        known_const: None,
    };
    symbol_declared(
        ctx,
        TableModel { functions: t.functions.push(type_constructor(name, target)), ..t },
        symbol,
        None,
    )
}

/// Declares a type: its name stands for a function that converts values.
pub fn visit_type_decl_spec(
    ctx: &mut AnalysisContext,
    table: &mut SymbolTable,
    id: &Span,
    target: &Option<TypeInfo>,
)
    requires
        old(ctx).wf(),
        old(table)@.wf(),
        old(ctx)@.log.file is Some,
        is_in_package(old(table)@),
    ensures
        final(ctx).wf(),
        final(table)@.wf(),
        (final(ctx)@, final(table)@) == type_declared(
            old(ctx)@,
            old(table)@,
            id@,
            type_of(*target),
        ),
        is_in_package(final(table)@),
{
    let ghost start = ctx@;
    let ghost t = table@;
    let name = ctx.log.pin(id.duplicate());
    let location = name.pinned_location();
    let mut summary = FunctionSummary::new_unknown(
        FunctionRef::Named(name.duplicate()),
        None,
        false,
    );
    summary.is_type_constructor = true;
    let mut results: Vec<Option<TypeInfo>> = Vec::new();
    results.push(copy_type(target));
    summary.declared_result_types = results;
    proof {
        assert(types_of(summary.declared_result_types@) =~= seq![type_of(*target)]);
        assert(summary@ =~= type_constructor(name@, type_of(*target)));
    }
    let function: usize = table.add_function(summary);
    let value = Value::new(ValueForm::Function(function), None, location, None, Vec::new());
    proof {
        assert(value@.parts =~= Seq::<ValueModel>::empty());
    }
    declare_function_or_method(
        ctx,
        table,
        None,
        Symbol { declared_name: name, mutable: false, value, known_const: None },
    );
}

/// The state and the table once a function is declared, of which nothing but
/// the name is known yet. Functions that run before a program starts have no
/// name.
pub open spec fn function_declared(
    ctx: ContextModel,
    t: TableModel,
    name: SpanModel,
    receiver: Option<TypeNode>,
) -> (ContextModel, TableModel) {
    if name.content == "init"@ && receiver is None {
        (ctx, t)
    } else {
        let declaration = PinnedModel { file: ctx.log.file->0, inner: name };
        symbol_declared(
            ctx,
            t,
            SymbolModel {
                declared_name: declaration,
                mutable: false,
                value: ValueModel::simple(
                    None,
                    PinnedModel { file: declaration.file, inner: name.location },
                ),
                known_const: None,
            },
            owner_of(receiver),
        )
    }
}

/// Declares a function, of which nothing but the name is known yet.
pub fn visit_function_decl(
    ctx: &mut AnalysisContext,
    table: &mut SymbolTable,
    name: &Span,
    receiver: &Option<TypeNode>,
)
    requires
        old(ctx).wf(),
        old(table)@.wf(),
        old(ctx)@.log.file is Some,
        is_in_package(old(table)@),
    ensures
        final(ctx).wf(),
        final(table)@.wf(),
        (final(ctx)@, final(table)@) == function_declared(
            old(ctx)@,
            old(table)@,
            name@,
            *receiver,
        ),
        is_in_package(final(table)@),
{
    if same_text(name.content(), "init") && receiver.is_none() {
        return;
    }
    let declaration = ctx.log.pin(name.duplicate());
    let value = Value::new_bottom(declaration.pinned_location(), None);
    let symbol = Symbol { declared_name: declaration, mutable: false, value, known_const: None };
    declare_function_or_method(ctx, table, receiver.as_ref(), symbol);
}

/// The state and the table once a declaration is recorded.
pub open spec fn decl_recorded(ctx: ContextModel, t: TableModel, decl: DeclNode) -> (
    ContextModel,
    TableModel,
) {
    match decl {
        DeclNode::Binding { ids, mutable, declared_type } => zero_declared(
            ctx,
            t,
            spans_of(ids@),
            mutable,
            type_of(declared_type),
            None,
            ids@.len() as int,
        ),
        DeclNode::Type { id, target } => type_declared(ctx, t, id@, type_of(target)),
        DeclNode::Function { name, receiver } => function_declared(ctx, t, name@, receiver),
    }
}

/// The state and the table once the first declarations are recorded.
pub open spec fn decls_recorded(
    ctx: ContextModel,
    t: TableModel,
    decls: Seq<DeclNode>,
    n: int,
) -> (ContextModel, TableModel)
    decreases n,
{
    if n <= 0 {
        (ctx, t)
    } else {
        let (before, table) = decls_recorded(ctx, t, decls, n - 1);
        decl_recorded(before, table, decls[n - 1])
    }
}

proof fn lemma_zeros_stay_here(
    ctx: ContextModel,
    t: TableModel,
    ids: Seq<SpanModel>,
    mutable: bool,
    declared_type: Option<TypeModel>,
    n: int,
)
    requires
        is_in_package(t),
        ctx.log.file is Some,
        t.current < t.scopes.len(),
    ensures
        ({
            let (c, u) = zero_declared(ctx, t, ids, mutable, declared_type, None, n);
            is_in_package(u) && c.log.file == ctx.log.file && u.packages == t.packages
                && u.scopes.len() == t.scopes.len() && u.current == t.current
        }),
    decreases n,
{
    if n > 0 {
        lemma_zeros_stay_here(ctx, t, ids, mutable, declared_type, n - 1);
    }
}

/// Where the analysis is does not depend on what is declared.
pub open spec fn stays_here(ctx: ContextModel, t: TableModel, c: ContextModel, u: TableModel) -> bool {
    &&& is_in_package(u)
    &&& c.log.file == ctx.log.file
    &&& u.scopes.len() == t.scopes.len()
    &&& forall|p: Seq<char>|
        (#[trigger] u.packages.dom().contains(p)) == t.packages.dom().contains(p) && (
        u.packages.dom().contains(p) ==> (u.packages[p] is Some == t.packages[p] is Some))
}

proof fn lemma_decl_stays_here(ctx: ContextModel, t: TableModel, decl: DeclNode)
    requires
        is_in_package(t),
        ctx.log.file is Some,
        t.current < t.scopes.len(),
    ensures
        stays_here(ctx, t, decl_recorded(ctx, t, decl).0, decl_recorded(ctx, t, decl).1),
{
    match decl {
        DeclNode::Binding { ids, mutable, declared_type } => {
            lemma_zeros_stay_here(
                ctx,
                t,
                spans_of(ids@),
                mutable,
                type_of(declared_type),
                ids@.len() as int,
            );
        },
        DeclNode::Type { .. } => {},
        DeclNode::Function { .. } => {},
    }
}

/// Records a declaration.
pub fn visit_decl(ctx: &mut AnalysisContext, table: &mut SymbolTable, decl: &DeclNode)
    requires
        old(ctx).wf(),
        old(table)@.wf(),
        old(ctx)@.log.file is Some,
        is_in_package(old(table)@),
    ensures
        final(ctx).wf(),
        final(table)@.wf(),
        (final(ctx)@, final(table)@) == decl_recorded(old(ctx)@, old(table)@, *decl),
        stays_here(old(ctx)@, old(table)@, final(ctx)@, final(table)@),
{
    proof {
        lemma_decl_stays_here(ctx@, table@, *decl);
    }
    match decl {
        DeclNode::Binding { ids, mutable, declared_type } => {
            declare_zero_values(ctx, table, ids, *mutable, declared_type, &None);
        },
        DeclNode::Type { id, target } => {
            visit_type_decl_spec(ctx, table, id, target);
        },
        DeclNode::Function { name, receiver } => {
            visit_function_decl(ctx, table, name, receiver);
        },
    }
}

/// The state and the table once the declarations of a file are recorded. A file
/// that gives its package another name than the first one did is left out.
pub open spec fn file_recorded(
    ctx: ContextModel,
    t: TableModel,
    file: FileOutlineNode,
    path: Seq<char>,
) -> (ContextModel, TableModel) {
    let name = PinnedModel { file: ctx.log.file->0, inner: file.package@ };
    let first = t.entry(name, path).package_name;
    let entered = t.in_entered_package(name, path);
    if first.inner.content != file.package@.content {
        (
            ContextModel {
                log: ctx.log.with_error(
                    ErrorModel::DistinctPackageName { previous: first, found: file.package@ },
                ),
                ..ctx
            },
            entered,
        )
    } else {
        decls_recorded(
            ctx,
            all_imported(entered, file.imports@, file.imports@.len() as int),
            file.decls@,
            file.decls@.len() as int,
        )
    }
}

/// Records what a file of a package declares.
pub fn visit_source_file(
    ctx: &mut AnalysisContext,
    table: &mut SymbolTable,
    file: &FileOutlineNode,
    package_path: &str,
)
    requires
        old(ctx).wf(),
        old(table)@.wf(),
        old(ctx)@.log.file is Some,
        old(table)@.packages.dom().contains(package_path@) ==> old(
            table,
        )@.packages[package_path@] is Some,
        old(table)@.scopes.len() < usize::MAX,
    ensures
        final(ctx).wf(),
        final(table)@.wf(),
        (final(ctx)@, final(table)@) == file_recorded(
            old(ctx)@,
            old(table)@,
            *file,
            package_path@,
        ),
        final(ctx)@.log.file == old(ctx)@.log.file,
        final(table)@.scopes.len() <= old(table)@.scopes.len() + 1,
        forall|p: Seq<char>|
            #![trigger final(table)@.packages.dom().contains(p)]
            final(table)@.packages.dom().contains(p) && final(table)@.packages[p] is None
                ==> old(table)@.packages.dom().contains(p) && old(table)@.packages[p] is None,
{
    let ghost start = ctx@;
    let ghost t = table@;
    let name = ctx.log.pin(file.package.duplicate());
    let first = table.enter_package(name, package_path);
    let ghost entered = table@;
    if !same_text(first.content(), file.package.content()) {
        ctx.log.report_error(
            AnalysisErrorKind::DistinctPackageName {
                previous: first,
                found: file.package.duplicate(),
            },
        );
        proof {
            assert(ctx@ =~= file_recorded(start, t, *file, package_path@).0);
        }
        return;
    }
    let n: usize = file.imports.len();
    let mut i: usize = 0;
    while i < n
        invariant
            i <= n,
            n == file.imports@.len(),
            table@.wf(),
            table@ == all_imported(entered, file.imports@, i as int),
            table@.packages == entered.packages,
            table@.package == entered.package,
            table@.scopes == entered.scopes,
        decreases n - i,
    {
        visit_import_spec(table, &file.imports[i]);
        i = i + 1;
    }
    let ghost imported = table@;
    let m: usize = file.decls.len();
    let mut k: usize = 0;
    while k < m
        invariant
            k <= m,
            m == file.decls@.len(),
            ctx.wf(),
            table@.wf(),
            ctx@.log.file == start.log.file,
            start.log.file is Some,
            stays_here(start, imported, ctx@, table@),
            (ctx@, table@) == decls_recorded(start, imported, file.decls@, k as int),
        decreases m - k,
    {
        visit_decl(ctx, table, &file.decls[k]);
        k = k + 1;
    }
    proof {
        assert forall|p: Seq<char>|
            #![trigger table@.packages.dom().contains(p)]
            table@.packages.dom().contains(p) && table@.packages[p] is None implies
                t.packages.dom().contains(p) && t.packages[p] is None by {
            assert(entered.packages.dom().contains(p));
        }
    }
}

} // verus!
