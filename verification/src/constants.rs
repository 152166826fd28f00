//! Dimensions and field positions of the dataset records.
use vstd::prelude::*;

verus! {

/// Number of dimensions of every vector, of a node or of a query.
pub const VECTOR_DIMENSIONS: usize = 100;

/// Number of identifiers in a result row.
pub const K_NEAREST: usize = 100;

/// Identifier that fills the slots of a result row that no candidate takes.
pub const DEFAULT_PAD_ID: u32 = 0;

/// The sampled share of the nodes, as a fraction: one in a thousand.
pub const SAMPLE_NUMERATOR: u32 = 1;

pub const SAMPLE_DENOMINATOR: u32 = 1000;

/// Positions of the fields of a node record, in 32-bit words.
pub const NODE_C_ATTR_INDEX: usize = 0;

pub const NODE_T_ATTR_INDEX: usize = 1;

pub const NODE_VECTOR_START_INDEX: usize = 2;

pub const NODE_TOTAL_DIMENSIONS: usize = NODE_VECTOR_START_INDEX + VECTOR_DIMENSIONS;

/// Positions of the fields of a query record, in 32-bit words.
pub const QUERY_TYPE_INDEX: usize = 0;

pub const QUERY_V_CAT_INDEX: usize = 1;

pub const QUERY_T_LOWER_INDEX: usize = 2;

pub const QUERY_T_UPPER_INDEX: usize = 3;

pub const QUERY_VECTOR_START_INDEX: usize = 4;

pub const QUERY_TOTAL_DIMENSIONS: usize = QUERY_VECTOR_START_INDEX + VECTOR_DIMENSIONS;

} // verus!
