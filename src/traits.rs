//! The two capabilities through which the caller's component and connection
//! records are read.

use crate::category::ComponentCategory;
use vstd::prelude::*;

verus! {

/// A component of the microgrid, as the caller represents it.
///
/// The graph reads each of these once, when it is built, and works on what
/// it read from then on.
pub trait Node {
    /// The component id, unique across the components of one graph.
    fn component_id(&self) -> u64;

    /// The category of the component.
    fn category(&self) -> ComponentCategory;

    /// Whether readings of the component can be trusted in formulas.
    fn is_supported(&self) -> bool;
}

/// A connection between two components, as the caller represents it.
pub trait Edge {
    /// The id of the component that the connection starts from.
    fn source(&self) -> u64;

    /// The id of the component that the connection leads to.
    fn destination(&self) -> u64;
}

} // verus!
