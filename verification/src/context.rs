//! The state of an analysis.

use vstd::prelude::*;

use crate::context::branches::{BranchModel, BranchState};
use crate::context::deferred_checks::{checks_of, checks_wf, record_check, recorded, CheckModel,
    DeferredEnforcementCheck};
use crate::context::reports::{ErrorLog, LogModel};
use crate::functions::{FunctionModel, FunctionRef};

pub mod branches;
pub mod declarations;
pub mod deferred_checks;
pub mod loops;
pub mod per_iteration;
pub mod reports;

verus! {

/// A function under declaration.
#[derive(Debug)]
pub struct FunctionFrame {
    /// Which function.
    pub func: FunctionRef,
    /// The checks to be made when it is called.
    pub checks: Vec<DeferredEnforcementCheck>,
}

/// What a [`FunctionFrame`] stands for.
#[verifier::ext_equal]
pub struct FrameModel {
    pub func: FunctionModel,
    pub checks: Seq<CheckModel>,
}

impl View for FunctionFrame {
    type V = FrameModel;

    open spec fn view(&self) -> FrameModel {
        FrameModel { func: self.func@, checks: checks_of(self.checks@) }
    }
}

/// What a stack of functions under declaration stands for.
pub open spec fn frames_of(s: Seq<FunctionFrame>) -> Seq<FrameModel> {
    s.map_values(|f: FunctionFrame| f@)
}

/// The state of an analysis.
#[derive(Debug)]
pub struct AnalysisContext {
    /// The errors, and what decides whether there are more.
    pub log: ErrorLog,
    /// The branches around.
    pub branches: BranchState,
    /// The functions under declaration, the innermost one last.
    pub funcs: Vec<FunctionFrame>,
}

/// What an [`AnalysisContext`] stands for.
#[verifier::ext_equal]
pub struct ContextModel {
    pub log: LogModel,
    pub branches: BranchModel,
    pub funcs: Seq<FrameModel>,
}

impl View for AnalysisContext {
    type V = ContextModel;

    open spec fn view(&self) -> ContextModel {
        ContextModel { log: self.log@, branches: self.branches@, funcs: frames_of(self.funcs@) }
    }
}

impl ContextModel {
    /// Whether a check can be put off: only until a function is called, which
    /// the entry point of a program never is.
    pub open spec fn can_defer(self) -> bool {
        self.funcs.len() > 0 && !self.funcs.last().func.is_main()
    }

    /// The state after a check is put off.
    pub open spec fn deferring(self, check: CheckModel) -> ContextModel {
        let top = self.funcs.last();
        ContextModel {
            funcs: self.funcs.update(
                self.funcs.len() - 1,
                FrameModel { checks: recorded(top.checks, check), ..top },
            ),
            ..self
        }
    }
}

impl AnalysisContext {
    /// Whether the checks of the functions under declaration are ones that the
    /// analysis can produce.
    pub open spec fn wf(&self) -> bool {
        forall|i: int| 0 <= i < self.funcs@.len() ==> checks_wf((#[trigger] self.funcs@[i]).checks@)
    }

    /// The state at the start.
    pub fn new() -> (r: Self)
        ensures
            r.wf(),
            r@.log.stage is RecordDeclarations,
            r@.log.file is None,
            r@.log.suppression == 0,
            r@.log.errors.len() == 0,
            r@.branches.stack.len() == 0,
            r@.branches.deferred.len() == 0,
            r@.branches.composite is None,
            r@.branches.depth == 0,
            r@.funcs.len() == 0,
    {
        AnalysisContext { log: ErrorLog::new(), branches: BranchState::new(), funcs: Vec::new() }
    }

    /// Enters the declaration of a function.
    pub fn push_function(&mut self, func: FunctionRef)
        requires
            old(self).wf(),
        ensures
            final(self).wf(),
            final(self)@ == (ContextModel {
                funcs: old(self)@.funcs.push(
                    FrameModel { func: func@, checks: Seq::<CheckModel>::empty() },
                ),
                ..old(self)@
            }),
    {
        let ghost before = frames_of(self.funcs@);
        let frame = FunctionFrame { func, checks: Vec::new() };
        let ghost m = frame@;
        self.funcs.push(frame);
        proof {
            assert(frames_of(self.funcs@) =~= before.push(m));
            assert(m.checks =~= Seq::<CheckModel>::empty());
        }
    }

    /// Comes out of the declaration of a function.
    pub fn pop_function(&mut self) -> (r: Option<FunctionFrame>)
        requires
            old(self).wf(),
        ensures
            final(self).wf(),
            r is Some <==> old(self)@.funcs.len() > 0,
            r matches Some(f) ==> f@ == old(self)@.funcs.last() && checks_wf(f.checks@)
                && final(self)@ == (ContextModel {
                funcs: old(self)@.funcs.drop_last(),
                ..old(self)@
            }),
            r is None ==> final(self)@ == old(self)@,
    {
        let ghost before = frames_of(self.funcs@);
        let r = self.funcs.pop();
        proof {
            if before.len() > 0 {
                assert(frames_of(self.funcs@) =~= before.drop_last());
            } else {
                assert(frames_of(self.funcs@) =~= before);
            }
        }
        r
    }

    /// Puts off a check until the function under declaration is called.
    pub fn defer_enforcement_check(&mut self, check: DeferredEnforcementCheck)
        requires
            old(self).wf(),
            check.wf(),
            old(self)@.can_defer(),
        ensures
            final(self).wf(),
            final(self)@ == old(self)@.deferring(check@),
    {
        let ghost before = frames_of(self.funcs@);
        let n: usize = self.funcs.len();
        let mut top = self.funcs.remove(n - 1);
        record_check(&mut top.checks, check);
        let ghost m = top@;
        self.funcs.insert(n - 1, top);
        proof {
            assert(frames_of(self.funcs@) =~= before.update(n - 1, m));
        }
    }
}

} // verus!
