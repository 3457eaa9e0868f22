//! The passes over the files of a build permutation.

use vstd::prelude::*;

use crate::analyzer::convergence::{pass_completed, Convergence, NextPass};
use crate::analyzer::outcomes::missing_policy_reported;
use crate::analyzer::Analyzer;
use crate::context::reports::{AnalysisStage, LogModel};
use crate::context::{AnalysisContext, ContextModel};
use crate::errors::{findings, AnalysisError};
use crate::ordered::{OrderedMap, OrderedSet};
use crate::snapshots::SymbolTableSnapshot;
use crate::ast::SourceFileNode;
use crate::context::declarations::SplitRegions;
use crate::context::loops::{LoopModel, LoopStack};
use crate::decls::{file_recorded, visit_source_file};
use crate::locations::{Location, PinnedModel};
use crate::symbols::table::{SymbolTable, TableModel};
use crate::taint::implicit::{Place, PlaceModel};
use crate::taint::visits::files::file_visited;
use crate::taint::visits::Env;

verus! {

/// The analysis of a build permutation.
#[derive(Debug)]
pub struct Run {
    /// The state of the analysis.
    pub ctx: AnalysisContext,
    /// The symbols.
    pub table: SymbolTable,
    /// How far it has come.
    pub progress: Convergence,
}

/// The stage of a pass.
pub open spec fn stage_of(next: NextPass) -> Option<AnalysisStage> {
    match next {
        NextPass::RecordDeclarations => Some(AnalysisStage::RecordDeclarations),
        NextPass::StabilizeLabels(_) => Some(AnalysisStage::StabilizeLabels),
        NextPass::EnforceSecurityPolicies => Some(AnalysisStage::EnforceSecurityPolicies),
        NextPass::Finished => None,
    }
}

/// Whether snapshots show each package of a table whose source is available.
pub open spec fn shows(t: TableModel, seen: OrderedMap<String, SymbolTableSnapshot>) -> bool {
    &&& forall|p: Seq<char>| #[trigger] seen@.dom().contains(p) <==> t.known(p) is Some
    &&& forall|p: Seq<char>| #[trigger]
        seen@.dom().contains(p) ==> seen@[p]@ == t.items_in(p, t.known(p)->0)
}

/// The place in which the visit of a file begins.
pub open spec fn fresh_place(ctx: ContextModel, table: TableModel) -> PlaceModel {
    PlaceModel {
        ctx,
        table,
        regions: Seq::<PinnedModel<Location>>::empty(),
        loops: Seq::<LoopModel>::empty(),
        active: Seq::<usize>::empty(),
        halted: false,
    }
}

/// The state and the table once a file is visited in a pass, and whether a limit
/// was met: the first pass records its declarations, the others visit what is in
/// them.
pub open spec fn file_passed(
    env: Env<'_>,
    ctx: ContextModel,
    t: TableModel,
    file: SourceFileNode,
    path: Seq<char>,
    package: Seq<char>,
    limit: nat,
) -> (ContextModel, TableModel, bool) {
    let here = ContextModel { log: LogModel { file: Some(path), ..ctx.log }, ..ctx };
    if ctx.log.stage is RecordDeclarations {
        if t.packages.dom().contains(package) && t.packages[package] is None || t.scopes.len()
            >= usize::MAX {
            (here, t, true)
        } else {
            let (c, u) = file_recorded(here, t, file.outline, package);
            (c, u, false)
        }
    } else {
        let q = file_visited(env, fresh_place(here, t), file, package, limit);
        (q.ctx, q.table, q.halted)
    }
}

impl Run {
    /// Visits a file in the current pass. Returns whether a limit was met at
    /// which its visit could not go on.
    pub fn visit_file(
        &mut self,
        env: &Env<'_>,
        file: &SourceFileNode,
        path: &str,
        package: &String,
        limit: usize,
    ) -> (r: bool)
        requires
            old(self).wf(),
        ensures
            final(self).wf(),
            final(self).progress == old(self).progress,
            (final(self).ctx@, final(self).table@, r) == file_passed(
                *env,
                old(self).ctx@,
                old(self).table@,
                *file,
                path@,
                package@,
                limit as nat,
            ),
    {
        let ghost before = self.ctx@;
        self.ctx.log.set_current_file(path);
        let ghost here = ContextModel {
            log: LogModel { file: Some(path@), ..before.log },
            ..before
        };
        proof {
            assert(self.ctx@ =~= here);
        }
        if self.ctx.log.stage().is_first() {
            if self.table.is_package_sealed(package) || !self.table.can_grow() {
                return true;
            }
            visit_source_file(&mut self.ctx, &mut self.table, &file.outline, package.as_str());
            return false;
        }
        let mut ctx = AnalysisContext::new();
        std::mem::swap(&mut ctx, &mut self.ctx);
        let mut table = SymbolTable::new();
        std::mem::swap(&mut table, &mut self.table);
        let ghost t = table@;
        let mut place = Place {
            ctx,
            table,
            regions: SplitRegions::new(),
            loops: LoopStack::new(),
            active: Vec::new(),
            halted: false,
        };
        proof {
            assert(place@ =~= fresh_place(here, t));
        }
        crate::taint::visits::files::visit_source_file(env, &mut place, file, package, limit);
        let halted = place.halted;
        self.ctx = place.ctx;
        self.table = place.table;
        halted
    }

    /// Whether an analysis is one that can come up.
    pub open spec fn wf(&self) -> bool {
        self.ctx.wf() && self.table@.wf()
    }

    /// An analysis that has not begun.
    pub fn new() -> (r: Self)
        ensures
            r.wf(),
            r.progress.upcoming() is RecordDeclarations,
            r.ctx@.log.errors.len() == 0,
    {
        Run { ctx: AnalysisContext::new(), table: SymbolTable::new(), progress: Convergence::new() }
    }

    /// Begins the next pass, if there is one: the scopes of all packages are
    /// gone through from the start again.
    pub fn begin_pass(&mut self) -> (r: bool)
        requires
            old(self).wf(),
        ensures
            final(self).wf(),
            final(self).progress == old(self).progress,
            match stage_of(old(self).progress.upcoming()) {
                Some(stage) => {
                    &&& r
                    &&& final(self).table@ == old(self).table@.without_progress()
                    &&& final(self).ctx@ == (ContextModel {
                        log: LogModel { stage, ..old(self).ctx@.log },
                        ..old(self).ctx@
                    })
                },
                None => {
                    &&& !r
                    &&& final(self).table@ == old(self).table@
                    &&& final(self).ctx@ == old(self).ctx@
                },
            },
    {
        let stage = match self.progress.next_pass() {
            NextPass::RecordDeclarations => AnalysisStage::RecordDeclarations,
            NextPass::StabilizeLabels(_) => AnalysisStage::StabilizeLabels,
            NextPass::EnforceSecurityPolicies => AnalysisStage::EnforceSecurityPolicies,
            NextPass::Finished => {
                return false;
            },
        };
        let ghost before = self.ctx@;
        self.ctx.log.set_stage(stage);
        self.table.clear_all_package_progress();
        proof {
            assert(self.ctx@ =~= ContextModel {
                log: LogModel { stage, ..before.log },
                ..before
            });
        }
        true
    }

    /// Ends a pass. `graph` says which packages each package imports.
    pub fn end_pass(&mut self, graph: &OrderedMap<String, OrderedSet<String>>)
        requires
            old(self).wf(),
        ensures
            final(self).wf(),
            final(self).ctx@ == old(self).ctx@,
            final(self).table@ == old(self).table@,
            exists|seen: OrderedMap<String, SymbolTableSnapshot>|
                #[trigger] shows(old(self).table@, seen) && pass_completed(
                    old(self).progress,
                    final(self).progress,
                    seen@,
                    graph@,
                ),
    {
        let seen = self.table.snapshot_per_package();
        let ghost before = self.progress;
        proof {
            assert(shows(self.table@, seen));
        }
        self.progress.complete_pass(seen, graph);
        proof {
            assert(pass_completed(before, self.progress, seen@, graph@));
        }
    }

    /// What is wrong, once all passes are made.
    pub fn finish(self, analyzer: &Analyzer, saw_enforcement_checks: bool) -> (r: Vec<AnalysisError>)
        ensures
            findings(r@) == missing_policy_reported(
                self.ctx@,
                analyzer.has_sinks() || saw_enforcement_checks,
            ).log.errors,
    {
        let mut ctx = self.ctx;
        analyzer.report_missing_policy(&mut ctx, saw_enforcement_checks);
        ctx.log.take_errors()
    }
}

} // verus!
