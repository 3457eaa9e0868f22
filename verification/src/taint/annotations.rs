//! Annotations in the source.

use vstd::prelude::*;

use crate::ast::{text_refs, Annotation};
use crate::build_constraints::views;
use crate::context::reports::ErrorLog;
use crate::errors::{AnalysisErrorKind, ErrorModel};
use crate::labels::Label;
use crate::ordered::same_text;
use crate::policy::written_policy;

verus! {

/// What an annotation asks for.
#[derive(Clone, Copy, Debug, PartialEq, Eq, Structural)]
pub enum AnnotationDirective {
    /// Attaches a label.
    Label,
    /// Takes away a label.
    Revoke,
    /// Declares a sink that lists what it allows.
    AllowSink,
    /// Declares a sink that lists what it denies.
    DenySink,
    /// Asserts a label.
    Assert,
}

/// What an annotation can be attached to.
#[derive(Clone, Copy, Debug, PartialEq, Eq, Structural)]
pub enum AnnotationSite {
    /// An expression.
    Expr,
    /// A declaration.
    Decl,
    /// An assignment.
    Assignment,
    /// A send statement.
    Send,
    /// A call.
    Call,
    /// A function.
    Function,
}

/// What the name of a directive stands for.
pub open spec fn directive_named(raw: Seq<char>) -> Option<AnnotationDirective> {
    if raw == "label"@ {
        Some(AnnotationDirective::Label)
    } else if raw == "revoke"@ {
        Some(AnnotationDirective::Revoke)
    } else if raw == "allow"@ {
        Some(AnnotationDirective::AllowSink)
    } else if raw == "deny"@ {
        Some(AnnotationDirective::DenySink)
    } else if raw == "assert"@ {
        Some(AnnotationDirective::Assert)
    } else {
        None
    }
}

/// Whether a directive has a meaning at a site.
pub open spec fn supports(site: AnnotationSite, directive: AnnotationDirective) -> bool {
    match directive {
        AnnotationDirective::Label | AnnotationDirective::Revoke => site is Decl
            || site is Assignment || site is Send || site is Function,
        AnnotationDirective::AllowSink | AnnotationDirective::DenySink => !(site is Expr),
        AnnotationDirective::Assert => !(site is Function),
    }
}

/// What the name of a directive stands for at a site.
pub open spec fn supported_directive(site: AnnotationSite, raw: Seq<char>) -> Option<
    AnnotationDirective,
> {
    match directive_named(raw) {
        Some(d) => if supports(site, d) {
            Some(d)
        } else {
            None
        },
        None => None,
    }
}

impl AnnotationDirective {
    /// Reads the name of a directive.
    pub fn parse(raw: &str) -> (r: Option<Self>)
        ensures
            r == directive_named(raw@),
    {
        if same_text(raw, "label") {
            Some(AnnotationDirective::Label)
        } else if same_text(raw, "revoke") {
            Some(AnnotationDirective::Revoke)
        } else if same_text(raw, "allow") {
            Some(AnnotationDirective::AllowSink)
        } else if same_text(raw, "deny") {
            Some(AnnotationDirective::DenySink)
        } else if same_text(raw, "assert") {
            Some(AnnotationDirective::Assert)
        } else {
            None
        }
    }
}

impl AnnotationSite {
    /// Whether a directive has a meaning at this site.
    pub fn admits(&self, directive: AnnotationDirective) -> (r: bool)
        ensures
            r == supports(*self, directive),
    {
        match directive {
            AnnotationDirective::Label | AnnotationDirective::Revoke => match self {
                AnnotationSite::Decl
                | AnnotationSite::Assignment
                | AnnotationSite::Send
                | AnnotationSite::Function => true,
                AnnotationSite::Expr | AnnotationSite::Call => false,
            },
            AnnotationDirective::AllowSink | AnnotationDirective::DenySink => match self {
                AnnotationSite::Expr => false,
                _ => true,
            },
            AnnotationDirective::Assert => match self {
                AnnotationSite::Function => false,
                _ => true,
            },
        }
    }
}

/// Reads the directive of an annotation, and reports one that has no meaning
/// where it stands.
pub fn parse_supported_directive(
    log: &mut ErrorLog,
    annotation: &Annotation,
    site: AnnotationSite,
) -> (r: Option<AnnotationDirective>)
    ensures
        r == supported_directive(site, annotation.directive@),
        final(log)@ == if r is Some {
            old(log)@
        } else {
            old(log)@.with_error(
                ErrorModel::UnknownAnnotationDirective {
                    directive: annotation.directive@,
                    location: annotation.location,
                },
            )
        },
{
    if let Some(directive) = AnnotationDirective::parse(annotation.directive.as_str()) {
        if site.admits(directive) {
            return Some(directive);
        }
    }
    log.report_error(
        AnalysisErrorKind::UnknownAnnotationDirective {
            directive: annotation.directive.clone(),
            location: annotation.location,
        },
    );
    None
}

/// The label that an annotation revokes. One that names no tags is reported.
pub fn resolve_revocation_label(log: &mut ErrorLog, annotation: &Annotation) -> (r: Option<Label>)
    ensures
        r is None <==> annotation.tags@.len() == 0,
        r matches Some(label) ==> label.wf() && label@ == written_policy(views(annotation.tags@)),
        final(log)@ == if r is Some {
            old(log)@
        } else {
            old(log)@.with_error(
                ErrorModel::InvalidRevocationSemantics { location: annotation.location },
            )
        },
{
    if annotation.tags.len() == 0 {
        log.report_error(
            AnalysisErrorKind::InvalidRevocationSemantics { location: annotation.location },
        );
        return None;
    }
    let mut label = Label::from_tags(text_refs(&annotation.tags));
    label.accept_wildcards();
    Some(label)
}

} // verus!
