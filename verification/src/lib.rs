//! Ingestion of neuron-morphology skeleton files: parsing the line-based
//! seven-field format, breadth-first topological reordering with cycle
//! tolerance, dense identifier remapping, degenerate-geometry repair, and
//! construction of an index-linked compartment tree.
//!
//! Positions are modeled in hundredths of the file's coordinate unit (the
//! normalized file carries two decimal places), radii in whole units, so
//! that every quantity the logic touches is a plain integer.

pub mod channels;
pub mod compartments;
pub mod node;
pub mod normalize;
pub mod numbers;
pub mod parser;
pub mod swc_reader;
pub mod topology;
pub mod writer;

use vstd::prelude::*;

verus! {

} // verus!
