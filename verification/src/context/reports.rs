//! Reporting errors, as far as they are wanted.

use vstd::prelude::*;

use crate::errors::{findings, AnalysisError, AnalysisErrorKind, ErrorModel, FindingModel};
use crate::labels::tags::text_of;
use crate::locations::{location_precedence, Pinned, PinnedModel, Span, SpanModel};
use crate::ordered::{same, Order, Ordered};

verus! {

/// A step of the analysis.
#[derive(Clone, Copy, Debug, PartialEq, Eq, Structural)]
pub enum AnalysisStage {
    /// All files are scanned for declarations.
    RecordDeclarations,
    /// Symbols are visited until their labels are stable.
    StabilizeLabels,
    /// Violations are looked for, on the grounds of stable labels.
    EnforceSecurityPolicies,
}

impl AnalysisStage {
    /// Whether errors are reported in this stage.
    pub open spec fn reports(self) -> bool {
        self is RecordDeclarations || self is EnforceSecurityPolicies
    }

    /// Whether errors are reported in this stage.
    pub fn admits_errors(&self) -> (r: bool)
        ensures
            r == self.reports(),
    {
        match self {
            AnalysisStage::RecordDeclarations | AnalysisStage::EnforceSecurityPolicies => true,
            AnalysisStage::StabilizeLabels => false,
        }
    }

    /// Whether this is the first stage.
    pub fn is_first(&self) -> (r: bool)
        ensures
            r == (self is RecordDeclarations),
    {
        match self {
            AnalysisStage::RecordDeclarations => true,
            _ => false,
        }
    }

    /// Whether labels do not change any more in this stage.
    pub fn has_stable_labels(&self) -> (r: bool)
        ensures
            r == (self is EnforceSecurityPolicies),
    {
        match self {
            AnalysisStage::EnforceSecurityPolicies => true,
            _ => false,
        }
    }
}

/// The errors reported so far, and what decides whether more are.
#[derive(Debug)]
pub struct ErrorLog {
    stage: AnalysisStage,
    current_file: Option<String>,
    error_suppression_depth: u8,
    errors: Vec<AnalysisError>,
}

/// What an [`ErrorLog`] stands for.
#[verifier::ext_equal]
pub struct LogModel {
    pub stage: AnalysisStage,
    pub file: Option<Seq<char>>,
    pub suppression: nat,
    pub errors: Seq<FindingModel>,
}

impl View for ErrorLog {
    type V = LogModel;

    closed spec fn view(&self) -> LogModel {
        LogModel {
            stage: self.stage,
            file: text_of(self.current_file),
            suppression: self.error_suppression_depth as nat,
            errors: findings(self.errors@),
        }
    }
}

impl LogModel {
    /// Whether an error that comes up is reported.
    pub open spec fn listens(self) -> bool {
        self.stage.reports() && self.suppression == 0
    }

    /// The log after an error came up in a file.
    pub open spec fn with_error_at(self, file: Seq<char>, kind: ErrorModel) -> LogModel {
        if self.listens() {
            LogModel { errors: self.errors.push(FindingModel { file, kind }), ..self }
        } else {
            self
        }
    }

    /// The log after an error came up in the current file.
    pub open spec fn with_error(self, kind: ErrorModel) -> LogModel {
        match self.file {
            Some(file) => self.with_error_at(file, kind),
            None => self,
        }
    }

    /// The log after the errors of a list came up in the current file.
    pub open spec fn with_errors(self, kinds: Seq<ErrorModel>) -> LogModel
        decreases kinds.len(),
    {
        if kinds.len() == 0 {
            self
        } else {
            self.with_errors(kinds.drop_last()).with_error(kinds.last())
        }
    }
}

impl ErrorLog {
    /// An empty log, in the first stage.
    pub fn new() -> (r: Self)
        ensures
            r@ == (LogModel {
                stage: AnalysisStage::RecordDeclarations,
                file: None,
                suppression: 0,
                errors: Seq::<FindingModel>::empty(),
            }),
    {
        let r = ErrorLog {
            stage: AnalysisStage::RecordDeclarations,
            current_file: None,
            error_suppression_depth: 0,
            errors: Vec::new(),
        };
        proof {
            assert(findings(r.errors@) =~= Seq::<FindingModel>::empty());
        }
        r
    }

    /// The current stage.
    pub fn stage(&self) -> (r: AnalysisStage)
        ensures
            r == self@.stage,
    {
        self.stage
    }

    /// Enters a stage.
    pub fn set_stage(&mut self, stage: AnalysisStage)
        ensures
            final(self)@ == (LogModel { stage, ..old(self)@ }),
    {
        self.stage = stage;
    }

    /// The file under analysis.
    pub fn current_file(&self) -> (r: Option<&str>)
        ensures
            r is Some <==> self@.file is Some,
            r matches Some(f) ==> self@.file == Some(f@),
    {
        match &self.current_file {
            Some(f) => Some(f.as_str()),
            None => None,
        }
    }

    /// Turns to a file.
    pub fn set_current_file(&mut self, virtual_path: &str)
        ensures
            final(self)@ == (LogModel { file: Some(virtual_path@), ..old(self)@ }),
    {
        self.current_file = Some(virtual_path.to_owned());
    }

    /// How many times reporting has been stopped.
    pub fn error_suppression_depth(&self) -> (r: u8)
        ensures
            r == self@.suppression,
    {
        self.error_suppression_depth
    }

    /// Stops reporting until the matching [`ErrorLog::pop_error_suppression`].
    pub fn push_error_suppression(&mut self)
        requires
            old(self)@.suppression < 255,
        ensures
            final(self)@ == (LogModel {
                suppression: (old(self)@.suppression + 1) as nat,
                ..old(self)@
            }),
    {
        self.error_suppression_depth = self.error_suppression_depth + 1;
    }

    /// Undoes one [`ErrorLog::push_error_suppression`].
    pub fn pop_error_suppression(&mut self)
        requires
            old(self)@.suppression > 0,
        ensures
            final(self)@ == (LogModel {
                suppression: (old(self)@.suppression - 1) as nat,
                ..old(self)@
            }),
    {
        self.error_suppression_depth = self.error_suppression_depth - 1;
    }

    /// Reports an error in a file.
    pub fn report_error_at(&mut self, file: &str, kind: AnalysisErrorKind)
        ensures
            final(self)@ == old(self)@.with_error_at(file@, kind@),
    {
        if self.stage.admits_errors() && self.error_suppression_depth == 0 {
            let ghost before = findings(self.errors@);
            let ghost finding = FindingModel { file: file@, kind: kind@ };
            self.errors.push(AnalysisError { file: file.to_owned(), kind });
            proof {
                assert(findings(self.errors@) =~= before.push(finding));
            }
        }
    }

    /// Reports an error in the current file.
    pub fn report_error(&mut self, kind: AnalysisErrorKind)
        ensures
            final(self)@ == old(self)@.with_error(kind@),
    {
        let file = match &self.current_file {
            Some(f) => f.clone(),
            None => {
                return;
            },
        };
        self.report_error_at(file.as_str(), kind);
    }

    /// Binds something to the current file.
    pub fn pin<T: View>(&self, inner: T) -> (r: Pinned<T>)
        requires
            self@.file is Some,
        ensures
            r@ == (PinnedModel { file: self@.file->0, inner: inner@ }),
    {
        match &self.current_file {
            Some(f) => Pinned::new(f.as_str(), inner),
            None => {
                proof {
                    assert(false);
                }
                vstd::pervasive::unreached()
            },
        }
    }

    /// The errors reported so far, which leave the log.
    pub fn take_errors(&mut self) -> (r: Vec<AnalysisError>)
        ensures
            findings(r@) == old(self)@.errors,
            final(self)@ == (LogModel { errors: Seq::<FindingModel>::empty(), ..old(self)@ }),
    {
        let mut r: Vec<AnalysisError> = Vec::new();
        std::mem::swap(&mut r, &mut self.errors);
        proof {
            assert(findings(self.errors@) =~= Seq::<FindingModel>::empty());
        }
        r
    }

    /// Reports that a symbol is declared where another one of the same name
    /// already is, unless that is the same declaration seen again, or stands
    /// behind it, so that it is the one to blame.
    pub fn report_if_real_redeclaration(
        &mut self,
        name: &Pinned<Span>,
        existing: Option<&Pinned<Span>>,
    )
        ensures
            final(self)@ == match existing {
                Some(previous) => if is_real_redeclaration(previous@, name@) {
                    old(self)@.with_error(
                        ErrorModel::IllegalRedeclaration {
                            previous: previous@,
                            found: name@.inner,
                        },
                    )
                } else {
                    old(self)@
                },
                None => old(self)@,
            },
    {
        let previous = match existing {
            Some(p) => p,
            None => {
                return;
            },
        };
        if same(previous, name) {
            return;
        }
        let before = previous.pinned_location();
        let now = name.pinned_location();
        if let Some(Order::Greater) = before.precedence(&now) {
            return;
        }
        self.report_error(
            AnalysisErrorKind::IllegalRedeclaration {
                previous: previous.duplicate(),
                found: name.inner().clone(),
            },
        );
    }
}

/// Whether a declaration illegally repeats a previous one: they are not the
/// same, and the previous one does not stand behind it.
pub open spec fn is_real_redeclaration(
    previous: PinnedModel<SpanModel>,
    name: PinnedModel<SpanModel>,
) -> bool {
    previous != name && location_precedence(
        PinnedModel { file: previous.file, inner: previous.inner.location },
        PinnedModel { file: name.file, inner: name.inner.location },
    ) != Some(Order::Greater)
}

/// While reporting is suppressed, or labels are still in flux, no error gets
/// into the log; and what was reported stays.
pub proof fn law_suppression(log: LogModel, file: Seq<char>, kind: ErrorModel)
    ensures
        log.suppression > 0 || log.stage is StabilizeLabels ==> log.with_error_at(file, kind) == log
            && log.with_error(kind) == log,
        log.errors.is_prefix_of(log.with_error_at(file, kind).errors),
        log.errors.is_prefix_of(log.with_error(kind).errors),
{
}

} // verus!
