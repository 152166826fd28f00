//! Records of the datasets, held column by column.
//!
//! A single-precision field is kept as its bit pattern, a `u32`.
use vstd::prelude::*;
use crate::bits::{truncate_i32, truncate_to_i32, UNSET_BITS};
use crate::constants::VECTOR_DIMENSIONS;

verus! {

/// Why a dataset could not be decoded, encoded or searched.
#[derive(Debug, Clone, Copy, PartialEq, Eq, Structural)]
pub enum DatasetError {
    /// The header declares no record at all.
    ZeroCount,
    /// The type code of a query is none of 0, 1, 2, 3; `raw` is its bit pattern.
    InvalidQueryType { raw: u32 },
    /// A row to encode has another length than the first row.
    MismatchedVectorLength,
    /// The input ends before the header or the declared records do.
    Truncated,
    /// A position lies beyond a collection.
    IndexOutOfRange { index: usize },
}

impl DatasetError {
    /// Whether the error reports malformed input, as opposed to input that is
    /// too short or a position that is out of range.
    pub open spec fn malformed(self) -> bool {
        self is ZeroCount || self is InvalidQueryType || self is MismatchedVectorLength
    }

    pub fn is_malformed(&self) -> (r: bool)
        ensures
            r == self.malformed(),
    {
        match self {
            DatasetError::ZeroCount => true,
            DatasetError::InvalidQueryType { .. } => true,
            DatasetError::MismatchedVectorLength => true,
            _ => false,
        }
    }
}

/// The kinds of query that can be made against the dataset.
#[derive(Debug, Clone, Copy, PartialEq, Eq, Structural)]
pub enum QueryType {
    VectorOnly,
    CategoricalConstraint,
    TimestampConstraint,
    BothConstraints,
}

impl QueryType {
    /// The query type that a type code stands for: the code is truncated
    /// toward zero, and 0, 1, 2, 3 name the four types in order.
    pub open spec fn decode(val: u32) -> Option<QueryType> {
        let code = truncate_i32(val);
        if code == 0 {
            Some(QueryType::VectorOnly)
        } else if code == 1 {
            Some(QueryType::CategoricalConstraint)
        } else if code == 2 {
            Some(QueryType::TimestampConstraint)
        } else if code == 3 {
            Some(QueryType::BothConstraints)
        } else {
            None
        }
    }

    /// Decodes the bit pattern of a type code. A code that names no type is
    /// handed back in the error.
    pub fn from_f32(val: u32) -> (r: Result<Self, DatasetError>)
        ensures
            r == match Self::decode(val) {
                Some(q) => Ok::<QueryType, DatasetError>(q),
                None => Err(DatasetError::InvalidQueryType { raw: val }),
            },
    {
        let code: i32 = truncate_to_i32(val);
        match code {
            0 => Ok(QueryType::VectorOnly),
            1 => Ok(QueryType::CategoricalConstraint),
            2 => Ok(QueryType::TimestampConstraint),
            3 => Ok(QueryType::BothConstraints),
            _ => Err(DatasetError::InvalidQueryType { raw: val }),
        }
    }
}

/// A filter field that may be unset: the pattern of -1.0 stands for "unset".
/// The test is on the exact value, so a field that really holds -1.0 reads as
/// unset too.
#[derive(Debug, Clone, Copy, PartialEq, Eq, Structural)]
pub struct OptionalFilterValue(pub u32);

impl OptionalFilterValue {
    /// Whether the field holds the value -1.0. Only one pattern does.
    pub open spec fn is_unset(self) -> bool {
        self.0 == UNSET_BITS
    }

    pub open spec fn spec_value(self) -> Option<u32> {
        if self.is_unset() {
            None
        } else {
            Some(self.0)
        }
    }

    pub open spec fn spec_categorical_value(self) -> Option<i32> {
        if self.is_unset() {
            None
        } else {
            Some(truncate_i32(self.0) as i32)
        }
    }

    pub fn new(val: u32) -> (r: Self)
        ensures
            r.0 == val,
    {
        OptionalFilterValue(val)
    }

    /// The bit pattern of the field if it is set.
    pub fn value(&self) -> (r: Option<u32>)
        ensures
            r == self.spec_value(),
    {
        if self.0 == UNSET_BITS {
            None
        } else {
            Some(self.0)
        }
    }

    /// The field as a category, truncated toward zero, if it is set.
    pub fn categorical_value(&self) -> (r: Option<i32>)
        ensures
            r == self.spec_categorical_value(),
    {
        if self.0 == UNSET_BITS {
            None
        } else {
            Some(truncate_to_i32(self.0))
        }
    }
}

/// The nodes, one entry of each column per node.
#[derive(Debug)]
pub struct NodesDataset {
    pub num_vectors: u32,
    /// Categorical attribute of each node.
    pub c_attrs: Vec<u32>,
    /// Timestamp attribute of each node.
    pub t_attrs: Vec<u32>,
    /// Vector of each node.
    pub vectors: Vec<Vec<u32>>,
}

impl NodesDataset {
    /// Every column has one entry per node.
    pub open spec fn consistent(&self) -> bool {
        &&& self.c_attrs@.len() == self.num_vectors
        &&& self.t_attrs@.len() == self.num_vectors
        &&& self.vectors@.len() == self.num_vectors
    }

    /// The columns agree and every vector has the fixed dimension.
    pub open spec fn wf(&self) -> bool {
        &&& self.consistent()
        &&& forall|i: int|
            0 <= i < self.vectors@.len() ==> (#[trigger] self.vectors@[i])@.len()
                == VECTOR_DIMENSIONS
    }
}

/// The queries, one entry of each column per query.
#[derive(Debug)]
pub struct QueriesDataset {
    pub num_queries: u32,
    pub query_types: Vec<QueryType>,
    /// Category asked for, where set.
    pub v_categoricals: Vec<OptionalFilterValue>,
    /// Lower end of the timestamp range, where set.
    pub t_lower_bounds: Vec<OptionalFilterValue>,
    /// Upper end of the timestamp range, where set.
    pub t_upper_bounds: Vec<OptionalFilterValue>,
    pub query_vectors: Vec<Vec<u32>>,
}

impl QueriesDataset {
    pub open spec fn consistent(&self) -> bool {
        &&& self.query_types@.len() == self.num_queries
        &&& self.v_categoricals@.len() == self.num_queries
        &&& self.t_lower_bounds@.len() == self.num_queries
        &&& self.t_upper_bounds@.len() == self.num_queries
        &&& self.query_vectors@.len() == self.num_queries
    }

    pub open spec fn wf(&self) -> bool {
        &&& self.consistent()
        &&& forall|i: int|
            0 <= i < self.query_vectors@.len() ==> (#[trigger] self.query_vectors@[i])@.len()
                == VECTOR_DIMENSIONS
    }

    /// The query at a position, as `get` hands it out.
    pub open spec fn parsed(&self, i: int) -> ParsedQuery<'_> {
        ParsedQuery {
            query_type: self.query_types@[i],
            v_categorical: self.v_categoricals@[i].spec_categorical_value(),
            t_lower_bound: self.t_lower_bounds@[i].spec_value(),
            t_upper_bound: self.t_upper_bounds@[i].spec_value(),
            query_vector: &self.query_vectors@[i],
        }
    }
}

/// One query with its fields decoded.
#[derive(Debug)]
pub struct ParsedQuery<'a> {
    pub query_type: QueryType,
    pub v_categorical: Option<i32>,
    pub t_lower_bound: Option<u32>,
    pub t_upper_bound: Option<u32>,
    pub query_vector: &'a Vec<u32>,
}

/// One node with its attributes.
#[derive(Debug)]
pub struct ParsedNode<'a> {
    pub c_attr: u32,
    pub t_attr: u32,
    pub vector: &'a Vec<u32>,
}

} // verus!
