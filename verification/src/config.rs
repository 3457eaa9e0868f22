//! What an analysis can be told.

use vstd::prelude::*;

use crate::build_constraints::DEFAULT_MAX_BUILD_PERMUTATIONS;
use crate::insertion::{entries, new_map};

verus! {

/// What an analysis can be told.
#[derive(Debug)]
pub struct AnalysisConfig {
    /// Whether to say more on the way.
    pub verbose: bool,
    /// Whether the base policy applies too.
    pub inherit_base_policy: bool,
    /// The targets for which the base policy does not apply.
    pub excluded_base_blanket_directives: Vec<String>,
    /// The labels that targets yield.
    pub sources: indexmap::IndexMap<String, Vec<String>>,
    /// The labels that are taken away from targets.
    pub revocations: indexmap::IndexMap<String, Vec<String>>,
    /// The labels up to which targets accept values.
    pub allow_sinks: indexmap::IndexMap<String, Vec<String>>,
    /// The labels with which targets accept no values.
    pub deny_sinks: indexmap::IndexMap<String, Vec<String>>,
    /// Whether test files are analyzed too.
    pub include_tests: bool,
    /// How many distinct build permutations are analyzed at most.
    pub max_build_permutations: usize,
    /// Whether unreachable code is reported.
    pub report_unreachable: bool,
}

impl Default for AnalysisConfig {
    fn default() -> (r: Self)
        ensures
            !r.verbose,
            r.inherit_base_policy,
            r.excluded_base_blanket_directives@.len() == 0,
            entries(r.sources).len() == 0,
            entries(r.revocations).len() == 0,
            entries(r.allow_sinks).len() == 0,
            entries(r.deny_sinks).len() == 0,
            !r.include_tests,
            r.max_build_permutations == DEFAULT_MAX_BUILD_PERMUTATIONS,
            !r.report_unreachable,
    {
        AnalysisConfig {
            verbose: false,
            inherit_base_policy: true,
            excluded_base_blanket_directives: Vec::new(),
            sources: new_map(),
            revocations: new_map(),
            allow_sinks: new_map(),
            deny_sinks: new_map(),
            include_tests: false,
            max_build_permutations: DEFAULT_MAX_BUILD_PERMUTATIONS,
            report_unreachable: false,
        }
    }
}

} // verus!
