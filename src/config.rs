//! Configuration options of a `ComponentGraph`.

use vstd::prelude::*;

verus! {

/// Configuration options of a `ComponentGraph`; every option is off by
/// default.
#[derive(Clone, Copy, Debug)]
pub struct ComponentGraphConfig {
    /// Components that are not reachable from the root are reported as a
    /// warning instead of an error.
    pub allow_unconnected_components: bool,
    /// Inverters of unspecified type are accepted, and treated as battery
    /// inverters.
    pub allow_unspecified_inverters: bool,
    /// Failures of the per-category neighbour checks are reported as
    /// warnings instead of errors.
    pub allow_component_validation_failures: bool,
}

impl Default for ComponentGraphConfig {
    fn default() -> (r: Self)
        ensures
            !r.allow_unconnected_components,
            !r.allow_unspecified_inverters,
            !r.allow_component_validation_failures,
    {
        ComponentGraphConfig {
            allow_unconnected_components: false,
            allow_unspecified_inverters: false,
            allow_component_validation_failures: false,
        }
    }
}

} // verus!
