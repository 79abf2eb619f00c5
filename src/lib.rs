//! A validated directed acyclic graph of the electrical components of a
//! microgrid, and the formulas for aggregated metrics that follow from its
//! topology.
//!
//! Components and connections are handed in through the [`Node`] and [`Edge`]
//! traits. [`ComponentGraph::try_new`] checks the topology (a single grid
//! root, no cycles, every component reachable, sensible neighbour categories)
//! and the resulting graph offers retrieval, meter-role classification and
//! formula generation.

mod category;
mod config;
mod error;
mod expr;
mod formulas;
mod fallback;
mod graph;
mod idset;
mod text;
mod topology;
mod traits;
mod traversal;
mod meter_roles;
mod retrieval;
mod validation;

pub use category::{BatteryType, ComponentCategory, EvChargerType, InverterType};
pub use config::ComponentGraphConfig;
pub use error::{Error, ErrorKind};
pub use expr::{Expr, MAX_SCALE};
pub use formulas::FormulaBuilder;
pub use graph::{ComponentGraph, NodeInfo};
pub use meter_roles::MeterRole;
pub use traits::{Edge, Node};
pub use traversal::NodeFilter;
