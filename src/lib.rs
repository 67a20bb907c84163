//! Density-based clustering (DBSCAN) over a pluggable region-query engine.
//!
//! Points are named by their index in the input. Distances enter the library
//! as keys: the bits of a non-negative floating-point distance, read as a
//! `u64`, whose integer order is the order of the distances. A radius is a key
//! of the same kind, so "within `eps`" is a comparison of keys.
//!
//! - `algo`: the `RegionQuery` contract and the clustering driver.
//! - `fake_query`: the reference engine, from a matrix of distance keys.
//! - `table`: an engine over regions computed elsewhere (a spatial index).
//! - `query`: the dimensions that the spatial index handles.
//! - `types`: point labels and engine errors.

use vstd::prelude::*;

pub mod algo;
pub mod fake_query;
pub mod query;
pub mod table;
pub mod types;

verus! {

} // verus!
