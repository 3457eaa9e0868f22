//! What the analysis reports.

use vstd::prelude::*;

use crate::labels::backtraces::{trace_of, LabelBacktrace, Trace};
use crate::labels::tags::TagModel;
use crate::labels::Label;
use crate::locations::{Location, Pinned, PinnedModel, Span, SpanModel};
use crate::ordered::{same, same_text};
use crate::policy::{SinkDescriptor, SinkModel};

verus! {

/// A general category of errors.
#[derive(Clone, Copy, Debug, PartialEq, Eq, Structural)]
pub enum AnalysisErrorCategory {
    /// The analyzer is not configured correctly.
    Misconfiguration,
    /// A feature that this version of the analyzer does not know.
    UnrecognizedFeature,
    /// Something that likely points to a misuse of the analyzer.
    Suspicious,
    /// A malformed Go construct.
    InvalidGo,
    /// A Go construct that is recognized but not supported.
    UnsupportedGo,
    /// A possible vulnerability in the program.
    SecurityPolicyViolation,
}

/// What is wrong.
#[derive(Debug)]
#[allow(inconsistent_fields)]
pub enum AnalysisErrorKind {
    /// A source file could not be parsed.
    Parsing { message: String, location: Location },
    /// Two files have the same virtual path.
    DuplicateVirtualFilePath,
    /// There is no file to analyze.
    NoRegisteredFiles,
    /// Nothing is ever checked.
    NoSecurityPolicy,
    /// More sets of files can be compiled together than are to be analyzed.
    TooManyBuildPermutations { limit: usize, found: usize },
    /// An annotation is not one that can stand in its place.
    UnknownAnnotationDirective { directive: String, location: Location },
    /// A revocation without any tag.
    InvalidRevocationSemantics { location: Location },
    /// A deny sink without any tag.
    InvalidDenySinkSemantics { location: Location },
    /// A value reaches a sink that does not accept its label.
    InsecureFlow { sink: SinkDescriptor, backtrace: LabelBacktrace },
    /// A label is not the one that an assertion states.
    FalseAssertion { expected: Label, found: Option<LabelBacktrace>, location: Location },
    /// Files of one package give it different names.
    DistinctPackageName { previous: Pinned<Span>, found: Span },
    /// The qualifier of an import cannot be inferred.
    UnresolvableUnqualifiedImport { location: Location },
    /// Two imports of one file have the same qualifier.
    DuplicateImportQualifier { location: Location },
    /// A symbol is declared twice in one scope.
    IllegalRedeclaration { previous: Pinned<Span>, found: Span },
    /// A symbol is not declared.
    UnknownSymbol { found: Span },
    /// A qualifier is not that of any import.
    UnknownQualifier { found: Span },
    /// A return statement outside of any function.
    UnexpectedReturn { location: Location },
    /// A return statement gives the wrong number of values.
    MismatchingReturnCardinality { expected: usize, found: usize, location: Location },
    /// A statement after one that ends its block.
    Unreachable { location: Location },
    /// Something that is not a function is called.
    IllegalCallExpression { location: Location },
    /// A call passes the wrong number of arguments; `expected` is the number of parameters that the signature declares.
    IncorrectCallCardinality { expected: usize, found: usize, location: Location },
    /// A predeclared function is passed an argument of a shape that it cannot take.
    UnexpectedBuiltInArgShape { location: Location },
    /// A declaration has not as many values as names.
    UnevenBindingDeclSpec { location: Location, left: usize, right: usize },
    /// An assignment has not as many values as operands.
    UnevenAssignment { location: Location, left: usize, right: usize },
    /// A compound assignment has several operands.
    MultiComplexAssignment { location: Location, num: usize },
    /// Something that cannot be assigned to.
    InvalidLeftValue { location: Location },
    /// A constant is assigned to.
    ImmutableLeftValue { symbol: Span },
    /// Something from which nothing can be selected.
    InvalidSelectionBase { location: Location },
    /// Something that cannot be indexed.
    InvalidIndexingBase { location: Location },
    /// Something that cannot be sliced.
    InvalidSlicingBase { location: Location },
    /// Something from which nothing can be received.
    InvalidReceiveOperand { location: Location },
    /// A go statement without a call.
    GoNotCall { location: Location },
    /// A defer statement without a call.
    DeferNotCall { location: Location },
    /// A case of a select statement is neither a send nor a receive.
    IllegalSelectCase { location: Location },
    /// A fallthrough statement out of place.
    UnexpectedFallthrough { location: Location },
    /// A field of a struct is given twice.
    DuplicateStructFieldName { duplicate: Span },
    /// An expression without a value where one is needed.
    UnexpectedVoidExpression { location: Location },
    /// An expression with several values where one is needed.
    UnexpectedMultiValueExpression { location: Location },
    /// A deferred call in an `init` function.
    DeferInInitNotDeferred { location: Location },
    /// Different functions are assigned to one variable.
    UnsoundFunctionMergingAssignment { location: Location },
}

/// What an [`AnalysisErrorKind`] stands for.
#[verifier::ext_equal]
#[allow(inconsistent_fields)]
pub enum ErrorModel {
    Parsing { message: Seq<char>, location: Location },
    DuplicateVirtualFilePath,
    NoRegisteredFiles,
    NoSecurityPolicy,
    TooManyBuildPermutations { limit: usize, found: usize },
    UnknownAnnotationDirective { directive: Seq<char>, location: Location },
    InvalidRevocationSemantics { location: Location },
    InvalidDenySinkSemantics { location: Location },
    InsecureFlow { sink: SinkModel, backtrace: Trace },
    FalseAssertion { expected: Set<TagModel>, found: Option<Trace>, location: Location },
    DistinctPackageName { previous: PinnedModel<SpanModel>, found: SpanModel },
    UnresolvableUnqualifiedImport { location: Location },
    DuplicateImportQualifier { location: Location },
    IllegalRedeclaration { previous: PinnedModel<SpanModel>, found: SpanModel },
    UnknownSymbol { found: SpanModel },
    UnknownQualifier { found: SpanModel },
    UnexpectedReturn { location: Location },
    MismatchingReturnCardinality { expected: usize, found: usize, location: Location },
    Unreachable { location: Location },
    IllegalCallExpression { location: Location },
    IncorrectCallCardinality { expected: usize, found: usize, location: Location },
    UnexpectedBuiltInArgShape { location: Location },
    UnevenBindingDeclSpec { location: Location, left: usize, right: usize },
    UnevenAssignment { location: Location, left: usize, right: usize },
    MultiComplexAssignment { location: Location, num: usize },
    InvalidLeftValue { location: Location },
    ImmutableLeftValue { symbol: SpanModel },
    InvalidSelectionBase { location: Location },
    InvalidIndexingBase { location: Location },
    InvalidSlicingBase { location: Location },
    InvalidReceiveOperand { location: Location },
    GoNotCall { location: Location },
    DeferNotCall { location: Location },
    IllegalSelectCase { location: Location },
    UnexpectedFallthrough { location: Location },
    DuplicateStructFieldName { duplicate: SpanModel },
    UnexpectedVoidExpression { location: Location },
    UnexpectedMultiValueExpression { location: Location },
    DeferInInitNotDeferred { location: Location },
    UnsoundFunctionMergingAssignment { location: Location },
}

impl View for AnalysisErrorKind {
    type V = ErrorModel;

    open spec fn view(&self) -> ErrorModel {
        match self {
            AnalysisErrorKind::Parsing { message, location } => ErrorModel::Parsing { message: message@, location: *location },
            AnalysisErrorKind::DuplicateVirtualFilePath => ErrorModel::DuplicateVirtualFilePath,
            AnalysisErrorKind::NoRegisteredFiles => ErrorModel::NoRegisteredFiles,
            AnalysisErrorKind::NoSecurityPolicy => ErrorModel::NoSecurityPolicy,
            AnalysisErrorKind::TooManyBuildPermutations { limit, found } => ErrorModel::TooManyBuildPermutations { limit: *limit, found: *found },
            AnalysisErrorKind::UnknownAnnotationDirective { directive, location } => ErrorModel::UnknownAnnotationDirective { directive: directive@, location: *location },
            AnalysisErrorKind::InvalidRevocationSemantics { location } => ErrorModel::InvalidRevocationSemantics { location: *location },
            AnalysisErrorKind::InvalidDenySinkSemantics { location } => ErrorModel::InvalidDenySinkSemantics { location: *location },
            AnalysisErrorKind::InsecureFlow { sink, backtrace } => ErrorModel::InsecureFlow { sink: sink@, backtrace: backtrace@ },
            AnalysisErrorKind::FalseAssertion { expected, found, location } => ErrorModel::FalseAssertion { expected: expected@, found: trace_of(*found), location: *location },
            AnalysisErrorKind::DistinctPackageName { previous, found } => ErrorModel::DistinctPackageName { previous: previous@, found: found@ },
            AnalysisErrorKind::UnresolvableUnqualifiedImport { location } => ErrorModel::UnresolvableUnqualifiedImport { location: *location },
            AnalysisErrorKind::DuplicateImportQualifier { location } => ErrorModel::DuplicateImportQualifier { location: *location },
            AnalysisErrorKind::IllegalRedeclaration { previous, found } => ErrorModel::IllegalRedeclaration { previous: previous@, found: found@ },
            AnalysisErrorKind::UnknownSymbol { found } => ErrorModel::UnknownSymbol { found: found@ },
            AnalysisErrorKind::UnknownQualifier { found } => ErrorModel::UnknownQualifier { found: found@ },
            AnalysisErrorKind::UnexpectedReturn { location } => ErrorModel::UnexpectedReturn { location: *location },
            AnalysisErrorKind::MismatchingReturnCardinality { expected, found, location } => ErrorModel::MismatchingReturnCardinality { expected: *expected, found: *found, location: *location },
            AnalysisErrorKind::Unreachable { location } => ErrorModel::Unreachable { location: *location },
            AnalysisErrorKind::IllegalCallExpression { location } => ErrorModel::IllegalCallExpression { location: *location },
            AnalysisErrorKind::IncorrectCallCardinality { expected, found, location } => ErrorModel::IncorrectCallCardinality { expected: *expected, found: *found, location: *location },
            AnalysisErrorKind::UnexpectedBuiltInArgShape { location } => ErrorModel::UnexpectedBuiltInArgShape { location: *location },
            AnalysisErrorKind::UnevenBindingDeclSpec { location, left, right } => ErrorModel::UnevenBindingDeclSpec { location: *location, left: *left, right: *right },
            AnalysisErrorKind::UnevenAssignment { location, left, right } => ErrorModel::UnevenAssignment { location: *location, left: *left, right: *right },
            AnalysisErrorKind::MultiComplexAssignment { location, num } => ErrorModel::MultiComplexAssignment { location: *location, num: *num },
            AnalysisErrorKind::InvalidLeftValue { location } => ErrorModel::InvalidLeftValue { location: *location },
            AnalysisErrorKind::ImmutableLeftValue { symbol } => ErrorModel::ImmutableLeftValue { symbol: symbol@ },
            AnalysisErrorKind::InvalidSelectionBase { location } => ErrorModel::InvalidSelectionBase { location: *location },
            AnalysisErrorKind::InvalidIndexingBase { location } => ErrorModel::InvalidIndexingBase { location: *location },
            AnalysisErrorKind::InvalidSlicingBase { location } => ErrorModel::InvalidSlicingBase { location: *location },
            AnalysisErrorKind::InvalidReceiveOperand { location } => ErrorModel::InvalidReceiveOperand { location: *location },
            AnalysisErrorKind::GoNotCall { location } => ErrorModel::GoNotCall { location: *location },
            AnalysisErrorKind::DeferNotCall { location } => ErrorModel::DeferNotCall { location: *location },
            AnalysisErrorKind::IllegalSelectCase { location } => ErrorModel::IllegalSelectCase { location: *location },
            AnalysisErrorKind::UnexpectedFallthrough { location } => ErrorModel::UnexpectedFallthrough { location: *location },
            AnalysisErrorKind::DuplicateStructFieldName { duplicate } => ErrorModel::DuplicateStructFieldName { duplicate: duplicate@ },
            AnalysisErrorKind::UnexpectedVoidExpression { location } => ErrorModel::UnexpectedVoidExpression { location: *location },
            AnalysisErrorKind::UnexpectedMultiValueExpression { location } => ErrorModel::UnexpectedMultiValueExpression { location: *location },
            AnalysisErrorKind::DeferInInitNotDeferred { location } => ErrorModel::DeferInInitNotDeferred { location: *location },
            AnalysisErrorKind::UnsoundFunctionMergingAssignment { location } => ErrorModel::UnsoundFunctionMergingAssignment { location: *location },
        }
    }
}

impl ErrorModel {
    /// The category to which an error belongs.
    pub open spec fn category(self) -> AnalysisErrorCategory {
        match self {
            ErrorModel::DuplicateVirtualFilePath
            | ErrorModel::TooManyBuildPermutations { .. } => AnalysisErrorCategory::Misconfiguration,
            ErrorModel::UnknownAnnotationDirective { .. } => AnalysisErrorCategory::UnrecognizedFeature,
            ErrorModel::NoRegisteredFiles
            | ErrorModel::NoSecurityPolicy
            | ErrorModel::InvalidRevocationSemantics { .. }
            | ErrorModel::InvalidDenySinkSemantics { .. } => AnalysisErrorCategory::Suspicious,
            ErrorModel::DeferInInitNotDeferred { .. }
            | ErrorModel::UnsoundFunctionMergingAssignment { .. } => AnalysisErrorCategory::UnsupportedGo,
            ErrorModel::InsecureFlow { .. }
            | ErrorModel::FalseAssertion { .. } => AnalysisErrorCategory::SecurityPolicyViolation,
            _ => AnalysisErrorCategory::InvalidGo,
        }
    }
}

impl AnalysisErrorKind {
    /// The category to which the error belongs.
    pub fn category(&self) -> (r: AnalysisErrorCategory)
        ensures
            r == self@.category(),
    {
        match self {
            AnalysisErrorKind::Parsing { .. }
            | AnalysisErrorKind::DistinctPackageName { .. }
            | AnalysisErrorKind::UnresolvableUnqualifiedImport { .. }
            | AnalysisErrorKind::DuplicateImportQualifier { .. }
            | AnalysisErrorKind::IllegalRedeclaration { .. }
            | AnalysisErrorKind::UnknownSymbol { .. }
            | AnalysisErrorKind::UnknownQualifier { .. }
            | AnalysisErrorKind::UnexpectedReturn { .. }
            | AnalysisErrorKind::MismatchingReturnCardinality { .. }
            | AnalysisErrorKind::Unreachable { .. }
            | AnalysisErrorKind::IllegalCallExpression { .. }
            | AnalysisErrorKind::IncorrectCallCardinality { .. }
            | AnalysisErrorKind::UnexpectedBuiltInArgShape { .. }
            | AnalysisErrorKind::UnevenBindingDeclSpec { .. }
            | AnalysisErrorKind::UnevenAssignment { .. }
            | AnalysisErrorKind::MultiComplexAssignment { .. }
            | AnalysisErrorKind::InvalidLeftValue { .. }
            | AnalysisErrorKind::ImmutableLeftValue { .. }
            | AnalysisErrorKind::InvalidSelectionBase { .. }
            | AnalysisErrorKind::InvalidIndexingBase { .. }
            | AnalysisErrorKind::InvalidSlicingBase { .. }
            | AnalysisErrorKind::InvalidReceiveOperand { .. }
            | AnalysisErrorKind::GoNotCall { .. }
            | AnalysisErrorKind::DeferNotCall { .. }
            | AnalysisErrorKind::IllegalSelectCase { .. }
            | AnalysisErrorKind::UnexpectedFallthrough { .. }
            | AnalysisErrorKind::DuplicateStructFieldName { .. }
            | AnalysisErrorKind::UnexpectedVoidExpression { .. }
            | AnalysisErrorKind::UnexpectedMultiValueExpression { .. } => {
                AnalysisErrorCategory::InvalidGo
            },
            AnalysisErrorKind::DeferInInitNotDeferred { .. }
            | AnalysisErrorKind::UnsoundFunctionMergingAssignment { .. } => {
                AnalysisErrorCategory::UnsupportedGo
            },
            AnalysisErrorKind::DuplicateVirtualFilePath
            | AnalysisErrorKind::TooManyBuildPermutations { .. } => {
                AnalysisErrorCategory::Misconfiguration
            },
            AnalysisErrorKind::UnknownAnnotationDirective { .. } => {
                AnalysisErrorCategory::UnrecognizedFeature
            },
            AnalysisErrorKind::NoRegisteredFiles
            | AnalysisErrorKind::NoSecurityPolicy
            | AnalysisErrorKind::InvalidRevocationSemantics { .. }
            | AnalysisErrorKind::InvalidDenySinkSemantics { .. } => {
                AnalysisErrorCategory::Suspicious
            },
            AnalysisErrorKind::InsecureFlow { .. }
            | AnalysisErrorKind::FalseAssertion { .. } => {
                AnalysisErrorCategory::SecurityPolicyViolation
            },
        }
    }

    /// Whether two errors say the same.
    pub fn same_as(&self, other: &Self) -> (r: bool)
        ensures
            r == (self@ == other@),
    {
        match (self, other) {
            (
                AnalysisErrorKind::Parsing { message: a0, location: a1 },
                AnalysisErrorKind::Parsing { message: b0, location: b1 },
            ) => same_text(a0.as_str(), b0.as_str()) && *a1 == *b1,
            (AnalysisErrorKind::DuplicateVirtualFilePath, AnalysisErrorKind::DuplicateVirtualFilePath) => true,
            (AnalysisErrorKind::NoRegisteredFiles, AnalysisErrorKind::NoRegisteredFiles) => true,
            (AnalysisErrorKind::NoSecurityPolicy, AnalysisErrorKind::NoSecurityPolicy) => true,
            (
                AnalysisErrorKind::TooManyBuildPermutations { limit: a0, found: a1 },
                AnalysisErrorKind::TooManyBuildPermutations { limit: b0, found: b1 },
            ) => *a0 == *b0 && *a1 == *b1,
            (
                AnalysisErrorKind::UnknownAnnotationDirective { directive: a0, location: a1 },
                AnalysisErrorKind::UnknownAnnotationDirective { directive: b0, location: b1 },
            ) => same_text(a0.as_str(), b0.as_str()) && *a1 == *b1,
            (
                AnalysisErrorKind::InvalidRevocationSemantics { location: a0 },
                AnalysisErrorKind::InvalidRevocationSemantics { location: b0 },
            ) => *a0 == *b0,
            (
                AnalysisErrorKind::InvalidDenySinkSemantics { location: a0 },
                AnalysisErrorKind::InvalidDenySinkSemantics { location: b0 },
            ) => *a0 == *b0,
            (
                AnalysisErrorKind::InsecureFlow { sink: a0, backtrace: a1 },
                AnalysisErrorKind::InsecureFlow { sink: b0, backtrace: b1 },
            ) => a0.same_as(b0) && a1.same_as(b1),
            (
                AnalysisErrorKind::FalseAssertion { expected: a0, found: a1, location: a2 },
                AnalysisErrorKind::FalseAssertion { expected: b0, found: b1, location: b2 },
            ) => a0.same_as(b0) && same_optional_trace(a1, b1) && *a2 == *b2,
            (
                AnalysisErrorKind::DistinctPackageName { previous: a0, found: a1 },
                AnalysisErrorKind::DistinctPackageName { previous: b0, found: b1 },
            ) => same(a0, b0) && same(a1, b1),
            (
                AnalysisErrorKind::UnresolvableUnqualifiedImport { location: a0 },
                AnalysisErrorKind::UnresolvableUnqualifiedImport { location: b0 },
            ) => *a0 == *b0,
            (
                AnalysisErrorKind::DuplicateImportQualifier { location: a0 },
                AnalysisErrorKind::DuplicateImportQualifier { location: b0 },
            ) => *a0 == *b0,
            (
                AnalysisErrorKind::IllegalRedeclaration { previous: a0, found: a1 },
                AnalysisErrorKind::IllegalRedeclaration { previous: b0, found: b1 },
            ) => same(a0, b0) && same(a1, b1),
            (
                AnalysisErrorKind::UnknownSymbol { found: a0 },
                AnalysisErrorKind::UnknownSymbol { found: b0 },
            ) => same(a0, b0),
            (
                AnalysisErrorKind::UnknownQualifier { found: a0 },
                AnalysisErrorKind::UnknownQualifier { found: b0 },
            ) => same(a0, b0),
            (
                AnalysisErrorKind::UnexpectedReturn { location: a0 },
                AnalysisErrorKind::UnexpectedReturn { location: b0 },
            ) => *a0 == *b0,
            (
                AnalysisErrorKind::MismatchingReturnCardinality { expected: a0, found: a1, location: a2 },
                AnalysisErrorKind::MismatchingReturnCardinality { expected: b0, found: b1, location: b2 },
            ) => *a0 == *b0 && *a1 == *b1 && *a2 == *b2,
            (
                AnalysisErrorKind::Unreachable { location: a0 },
                AnalysisErrorKind::Unreachable { location: b0 },
            ) => *a0 == *b0,
            (
                AnalysisErrorKind::IllegalCallExpression { location: a0 },
                AnalysisErrorKind::IllegalCallExpression { location: b0 },
            ) => *a0 == *b0,
            (
                AnalysisErrorKind::IncorrectCallCardinality { expected: a0, found: a1, location: a2 },
                AnalysisErrorKind::IncorrectCallCardinality { expected: b0, found: b1, location: b2 },
            ) => *a0 == *b0 && *a1 == *b1 && *a2 == *b2,
            (
                AnalysisErrorKind::UnexpectedBuiltInArgShape { location: a0 },
                AnalysisErrorKind::UnexpectedBuiltInArgShape { location: b0 },
            ) => *a0 == *b0,
            (
                AnalysisErrorKind::UnevenBindingDeclSpec { location: a0, left: a1, right: a2 },
                AnalysisErrorKind::UnevenBindingDeclSpec { location: b0, left: b1, right: b2 },
            ) => *a0 == *b0 && *a1 == *b1 && *a2 == *b2,
            (
                AnalysisErrorKind::UnevenAssignment { location: a0, left: a1, right: a2 },
                AnalysisErrorKind::UnevenAssignment { location: b0, left: b1, right: b2 },
            ) => *a0 == *b0 && *a1 == *b1 && *a2 == *b2,
            (
                AnalysisErrorKind::MultiComplexAssignment { location: a0, num: a1 },
                AnalysisErrorKind::MultiComplexAssignment { location: b0, num: b1 },
            ) => *a0 == *b0 && *a1 == *b1,
            (
                AnalysisErrorKind::InvalidLeftValue { location: a0 },
                AnalysisErrorKind::InvalidLeftValue { location: b0 },
            ) => *a0 == *b0,
            (
                AnalysisErrorKind::ImmutableLeftValue { symbol: a0 },
                AnalysisErrorKind::ImmutableLeftValue { symbol: b0 },
            ) => same(a0, b0),
            (
                AnalysisErrorKind::InvalidSelectionBase { location: a0 },
                AnalysisErrorKind::InvalidSelectionBase { location: b0 },
            ) => *a0 == *b0,
            (
                AnalysisErrorKind::InvalidIndexingBase { location: a0 },
                AnalysisErrorKind::InvalidIndexingBase { location: b0 },
            ) => *a0 == *b0,
            (
                AnalysisErrorKind::InvalidSlicingBase { location: a0 },
                AnalysisErrorKind::InvalidSlicingBase { location: b0 },
            ) => *a0 == *b0,
            (
                AnalysisErrorKind::InvalidReceiveOperand { location: a0 },
                AnalysisErrorKind::InvalidReceiveOperand { location: b0 },
            ) => *a0 == *b0,
            (
                AnalysisErrorKind::GoNotCall { location: a0 },
                AnalysisErrorKind::GoNotCall { location: b0 },
            ) => *a0 == *b0,
            (
                AnalysisErrorKind::DeferNotCall { location: a0 },
                AnalysisErrorKind::DeferNotCall { location: b0 },
            ) => *a0 == *b0,
            (
                AnalysisErrorKind::IllegalSelectCase { location: a0 },
                AnalysisErrorKind::IllegalSelectCase { location: b0 },
            ) => *a0 == *b0,
            (
                AnalysisErrorKind::UnexpectedFallthrough { location: a0 },
                AnalysisErrorKind::UnexpectedFallthrough { location: b0 },
            ) => *a0 == *b0,
            (
                AnalysisErrorKind::DuplicateStructFieldName { duplicate: a0 },
                AnalysisErrorKind::DuplicateStructFieldName { duplicate: b0 },
            ) => same(a0, b0),
            (
                AnalysisErrorKind::UnexpectedVoidExpression { location: a0 },
                AnalysisErrorKind::UnexpectedVoidExpression { location: b0 },
            ) => *a0 == *b0,
            (
                AnalysisErrorKind::UnexpectedMultiValueExpression { location: a0 },
                AnalysisErrorKind::UnexpectedMultiValueExpression { location: b0 },
            ) => *a0 == *b0,
            (
                AnalysisErrorKind::DeferInInitNotDeferred { location: a0 },
                AnalysisErrorKind::DeferInInitNotDeferred { location: b0 },
            ) => *a0 == *b0,
            (
                AnalysisErrorKind::UnsoundFunctionMergingAssignment { location: a0 },
                AnalysisErrorKind::UnsoundFunctionMergingAssignment { location: b0 },
            ) => *a0 == *b0,
            _ => false,
        }
    }
}

/// Whether two optional backtraces are the same.
pub fn same_optional_trace(a: &Option<LabelBacktrace>, b: &Option<LabelBacktrace>) -> (r: bool)
    ensures
        r == (trace_of(*a) == trace_of(*b)),
{
    match (a, b) {
        (Some(x), Some(y)) => x.same_as(y),
        (None, None) => true,
        _ => false,
    }
}

/// Something that is wrong in a file.
#[derive(Debug)]
pub struct AnalysisError {
    pub file: String,
    pub kind: AnalysisErrorKind,
}

/// What an [`AnalysisError`] stands for.
#[verifier::ext_equal]
pub struct FindingModel {
    pub file: Seq<char>,
    pub kind: ErrorModel,
}

impl View for AnalysisError {
    type V = FindingModel;

    open spec fn view(&self) -> FindingModel {
        FindingModel { file: self.file@, kind: self.kind@ }
    }
}

impl AnalysisError {
    /// Whether two errors say the same of the same file.
    pub fn same_as(&self, other: &Self) -> (r: bool)
        ensures
            r == (self@ == other@),
    {
        same_text(self.file.as_str(), other.file.as_str()) && self.kind.same_as(&other.kind)
    }
}

/// What a list of errors stands for.
pub open spec fn findings(errors: Seq<AnalysisError>) -> Seq<FindingModel> {
    errors.map_values(|e: AnalysisError| e@)
}

} // verus!
