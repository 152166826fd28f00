//! The binary layouts of the node file, the query file and the result file.
//!
//! Every field is a 32-bit little-endian word. A node file and a query file
//! start with the number of records; a node record has 102 words (category,
//! timestamp, vector), a query record 104 (type code, category, lower and upper
//! end of the timestamp range, vector). A result file has no header: each row
//! is 100 identifiers.
use vstd::prelude::*;
use crate::constants::{
    K_NEAREST, NODE_C_ATTR_INDEX, NODE_TOTAL_DIMENSIONS, NODE_T_ATTR_INDEX,
    NODE_VECTOR_START_INDEX, QUERY_TOTAL_DIMENSIONS, QUERY_TYPE_INDEX, QUERY_T_LOWER_INDEX,
    QUERY_T_UPPER_INDEX, QUERY_VECTOR_START_INDEX, QUERY_V_CAT_INDEX, VECTOR_DIMENSIONS,
};
use crate::types::{
    DatasetError, NodesDataset, OptionalFilterValue, ParsedNode, ParsedQuery, QueriesDataset,
    QueryType,
};

verus! {

/// The `k`-th 32-bit word of the bytes, least significant byte first.
pub open spec fn word_at(bytes: Seq<u8>, k: int) -> u32 {
    (bytes[4 * k] as int + 0x100 * (bytes[4 * k + 1] as int) + 0x1_0000 * (bytes[4 * k + 2] as int)
        + 0x100_0000 * (bytes[4 * k + 3] as int)) as u32
}

/// The four bytes of a word, least significant first.
pub open spec fn word_bytes(x: u32) -> Seq<u8> {
    seq![
        (x as int % 0x100) as u8,
        (x as int / 0x100 % 0x100) as u8,
        (x as int / 0x1_0000 % 0x100) as u8,
        (x as int / 0x100_0000) as u8,
    ]
}

/// What is wrong with the header of a file whose records have `width` words,
/// if anything: it is cut short, it declares no record, or fewer bytes follow
/// it than the declared records take.
pub open spec fn framing_error(bytes: Seq<u8>, width: int) -> Option<DatasetError> {
    if bytes.len() < 4 {
        Some(DatasetError::Truncated)
    } else if word_at(bytes, 0) == 0 {
        Some(DatasetError::ZeroCount)
    } else if bytes.len() - 4 < word_at(bytes, 0) * width * 4 {
        Some(DatasetError::Truncated)
    } else {
        None
    }
}

/// Word `j` of record `i` in a file whose records have `width` words.
pub open spec fn field(bytes: Seq<u8>, width: int, i: int, j: int) -> u32 {
    word_at(bytes, 1 + i * width + j)
}

/// The dataset holds what the records of a node file of `dim`-dimensional
/// vectors say, record by record and word by word.
pub open spec fn nodes_match(ds: NodesDataset, bytes: Seq<u8>, dim: int) -> bool {
    &&& ds.num_vectors == word_at(bytes, 0)
    &&& ds.consistent()
    &&& forall|i: int|
        0 <= i < ds.num_vectors ==> {
            &&& ds.c_attrs@[i] == #[trigger] field(bytes, 2 + dim, i, 0)
            &&& ds.t_attrs@[i] == field(bytes, 2 + dim, i, 1)
            &&& ds.vectors@[i]@.len() == dim
        }
    &&& forall|i: int, j: int|
        0 <= i < ds.num_vectors && 0 <= j < dim ==> ds.vectors@[i]@[j] == #[trigger] field(
            bytes,
            2 + dim,
            i,
            2 + j,
        )
}

/// The dataset holds what the records of a query file say.
pub open spec fn queries_match(ds: QueriesDataset, bytes: Seq<u8>) -> bool {
    &&& ds.num_queries == word_at(bytes, 0)
    &&& ds.wf()
    &&& forall|i: int|
        0 <= i < ds.num_queries ==> {
            &&& Some(ds.query_types@[i]) == QueryType::decode(#[trigger] field(bytes, 104, i, 0))
            &&& ds.v_categoricals@[i].0 == field(bytes, 104, i, 1)
            &&& ds.t_lower_bounds@[i].0 == field(bytes, 104, i, 2)
            &&& ds.t_upper_bounds@[i].0 == field(bytes, 104, i, 3)
        }
    &&& forall|i: int, j: int|
        0 <= i < ds.num_queries && 0 <= j < 100 ==> ds.query_vectors@[i]@[j] == #[trigger] field(
            bytes,
            104,
            i,
            4 + j,
        )
}

/// Record `i` is the first one whose type code names no query type.
pub open spec fn first_invalid_type(bytes: Seq<u8>, i: int) -> bool {
    &&& 0 <= i < word_at(bytes, 0)
    &&& QueryType::decode(field(bytes, 104, i, 0)) is None
    &&& forall|k: int| 0 <= k < i ==> QueryType::decode(#[trigger] field(bytes, 104, k, 0)) is Some
}

/// The bytes are the rows one after the other, each identifier as one word.
pub open spec fn results_match(results: Seq<Vec<u32>>, bytes: Seq<u8>) -> bool {
    &&& bytes.len() == results.len() * K_NEAREST * 4
    &&& forall|i: int, j: int|
        0 <= i < results.len() && 0 <= j < K_NEAREST ==> results[i]@[j] == #[trigger] word_at(
            bytes,
            i * K_NEAREST + j,
        )
}

/// Reads the `k`-th word.
pub fn read_word(bytes: &[u8], k: usize) -> (r: u32)
    requires
        4 * k + 4 <= bytes@.len(),
    ensures
        r == word_at(bytes@, k as int),
{
    let len: usize = bytes.len();
    assert(4 * k + 4 <= len);
    let b0: u32 = bytes[4 * k] as u32;
    let b1: u32 = bytes[4 * k + 1] as u32;
    let b2: u32 = bytes[4 * k + 2] as u32;
    let b3: u32 = bytes[4 * k + 3] as u32;
    b0 + 0x100 * b1 + 0x1_0000 * b2 + 0x100_0000 * b3
}

/// Reads `count` words from the `start`-th on.
pub fn read_words(bytes: &[u8], start: usize, count: usize) -> (r: Vec<u32>)
    requires
        4 * (start + count) <= bytes@.len(),
    ensures
        r@.len() == count,
        forall|j: int| 0 <= j < count ==> r@[j] == word_at(bytes@, start + j),
{
    let len: usize = bytes.len();
    let mut out: Vec<u32> = Vec::with_capacity(count);
    let mut j: usize = 0;
    while j < count
        invariant
            j <= count,
            4 * (start + count) <= bytes@.len(),
            len == bytes@.len(),
            out@.len() == j,
            forall|k: int| 0 <= k < j ==> out@[k] == word_at(bytes@, start + k),
        decreases count - j,
    {
        out.push(read_word(bytes, start + j));
        j += 1;
    }
    out
}

/// Appends a word, least significant byte first. A buffer that holds whole
/// words keeps them, and the new word follows them.
pub fn push_word(out: &mut Vec<u8>, x: u32)
    ensures
        final(out)@ == old(out)@ + word_bytes(x),
        final(out)@.len() == old(out)@.len() + 4,
        old(out)@.len() % 4 == 0 ==> word_at(final(out)@, old(out)@.len() as int / 4) == x,
        forall|k: int|
            0 <= k && 4 * k + 4 <= old(out)@.len() ==> word_at(final(out)@, k) == word_at(
                old(out)@,
                k,
            ),
{
    out.push((x % 0x100) as u8);
    out.push((x / 0x100 % 0x100) as u8);
    out.push((x / 0x1_0000 % 0x100) as u8);
    out.push((x / 0x100_0000) as u8);
    proof {
        assert(final(out)@ =~= old(out)@ + word_bytes(x));
    }
}

/// Reads the header of a file whose records have `width` words and checks
/// that the declared records are all there.
pub fn read_count(bytes: &[u8], width: usize) -> (r: Result<u32, DatasetError>)
    ensures
        r == match framing_error(bytes@, width as int) {
            Some(e) => Err::<u32, DatasetError>(e),
            None => Ok(word_at(bytes@, 0)),
        },
{
    if bytes.len() < 4 {
        return Err(DatasetError::Truncated);
    }
    let count: u32 = read_word(bytes, 0);
    if count == 0 {
        return Err(DatasetError::ZeroCount);
    }
    assert(0 <= count * width <= 0xffff_ffff * 0xffff_ffff_ffff_ffff) by (nonlinear_arith)
        requires
            0 <= count <= 0xffff_ffff,
            0 <= width <= 0xffff_ffff_ffff_ffff,
    ;
    let needed: u128 = count as u128 * width as u128 * 4;
    if ((bytes.len() - 4) as u128) < needed {
        return Err(DatasetError::Truncated);
    }
    Ok(count)
}

impl NodesDataset {
    /// The node at a position, or `None` beyond the last node.
    pub fn get(&self, index: usize) -> (r: Option<ParsedNode<'_>>)
        requires
            self.consistent(),
        ensures
            index >= self.num_vectors ==> r is None,
            index < self.num_vectors ==> r is Some && r->0.c_attr == self.c_attrs@[index as int]
                && r->0.t_attr == self.t_attrs@[index as int] && *r->0.vector
                == self.vectors@[index as int],
    {
        if index >= self.num_vectors as usize {
            return None;
        }
        Some(
            ParsedNode {
                c_attr: self.c_attrs[index],
                t_attr: self.t_attrs[index],
                vector: &self.vectors[index],
            },
        )
    }

    /// Decodes a node file. It fails on a header that is cut short or declares
    /// no record, and on records that are not all there; otherwise the dataset
    /// holds every declared record. Bytes after the last record are ignored.
    pub fn read(bytes: &[u8]) -> (r: Result<NodesDataset, DatasetError>)
        ensures
            match r {
                Ok(ds) => framing_error(bytes@, 102) is None && ds.wf() && nodes_match(
                    ds,
                    bytes@,
                    100,
                ),
                Err(e) => framing_error(bytes@, 102) == Some(e),
            },
    {
        let num_vectors: u32 = match read_count(bytes, NODE_TOTAL_DIMENSIONS) {
            Ok(c) => c,
            Err(e) => {
                return Err(e);
            },
        };
        let len: usize = bytes.len();
        let n: usize = num_vectors as usize;
        let mut c_attrs: Vec<u32> = Vec::new();
        let mut t_attrs: Vec<u32> = Vec::new();
        let mut vectors: Vec<Vec<u32>> = Vec::new();
        let mut i: usize = 0;
        while i < n
            invariant
                i <= n,
                n == num_vectors,
                4 + n * 408 <= bytes@.len(),
                len == bytes@.len(),
                c_attrs@.len() == i,
                t_attrs@.len() == i,
                vectors@.len() == i,
                forall|k: int|
                    0 <= k < i ==> {
                        &&& c_attrs@[k] == #[trigger] field(bytes@, 102, k, 0)
                        &&& t_attrs@[k] == field(bytes@, 102, k, 1)
                    },
                forall|k: int| 0 <= k < i ==> (#[trigger] vectors@[k])@.len() == 100,
                forall|k: int, j: int|
                    0 <= k < i && 0 <= j < 100 ==> vectors@[k]@[j] == #[trigger] field(
                        bytes@,
                        102,
                        k,
                        2 + j,
                    ),
            decreases n - i,
        {
            assert(NODE_TOTAL_DIMENSIONS == 102 && 4 + (i + 1) * 408 <= len);
            let base: usize = 1 + i * NODE_TOTAL_DIMENSIONS;
            c_attrs.push(read_word(bytes, base + NODE_C_ATTR_INDEX));
            t_attrs.push(read_word(bytes, base + NODE_T_ATTR_INDEX));
            let vector = read_words(bytes, base + NODE_VECTOR_START_INDEX, VECTOR_DIMENSIONS);
            vectors.push(vector);
            i += 1;
        }
        Ok(NodesDataset { num_vectors, c_attrs, t_attrs, vectors })
    }
}

impl QueriesDataset {
    /// The query at a position, with its filter fields decoded, or `None`
    /// beyond the last query.
    pub fn get(&self, index: usize) -> (r: Option<ParsedQuery<'_>>)
        requires
            self.consistent(),
        ensures
            index >= self.num_queries ==> r is None,
            index < self.num_queries ==> r == Some(self.parsed(index as int)),
    {
        if index >= self.num_queries as usize {
            return None;
        }
        Some(
            ParsedQuery {
                query_type: self.query_types[index],
                v_categorical: self.v_categoricals[index].categorical_value(),
                t_lower_bound: self.t_lower_bounds[index].value(),
                t_upper_bound: self.t_upper_bounds[index].value(),
                query_vector: &self.query_vectors[index],
            },
        )
    }

    /// Decodes a query file. It fails as a node file does, and on the first
    /// record whose type code names no query type, with that code's pattern.
    pub fn read(bytes: &[u8]) -> (r: Result<QueriesDataset, DatasetError>)
        ensures
            match r {
                Ok(ds) => framing_error(bytes@, 104) is None && queries_match(ds, bytes@),
                Err(e) => framing_error(bytes@, 104) == Some(e) || (framing_error(bytes@, 104)
                    is None && exists|i: int|
                    first_invalid_type(bytes@, i) && e == (DatasetError::InvalidQueryType {
                        raw: field(bytes@, 104, i, 0),
                    })),
            },
    {
        let num_queries: u32 = match read_count(bytes, QUERY_TOTAL_DIMENSIONS) {
            Ok(c) => c,
            Err(e) => {
                return Err(e);
            },
        };
        let len: usize = bytes.len();
        let n: usize = num_queries as usize;
        let mut query_types: Vec<QueryType> = Vec::new();
        let mut v_categoricals: Vec<OptionalFilterValue> = Vec::new();
        let mut t_lower_bounds: Vec<OptionalFilterValue> = Vec::new();
        let mut t_upper_bounds: Vec<OptionalFilterValue> = Vec::new();
        let mut query_vectors: Vec<Vec<u32>> = Vec::new();
        let mut i: usize = 0;
        while i < n
            invariant
                i <= n,
                n == num_queries,
                num_queries == word_at(bytes@, 0),
                framing_error(bytes@, 104) is None,
                4 + n * 416 <= bytes@.len(),
                len == bytes@.len(),
                query_types@.len() == i,
                v_categoricals@.len() == i,
                t_lower_bounds@.len() == i,
                t_upper_bounds@.len() == i,
                query_vectors@.len() == i,
                forall|k: int|
                    0 <= k < i ==> {
                        &&& Some(query_types@[k]) == QueryType::decode(
                            #[trigger] field(bytes@, 104, k, 0),
                        )
                        &&& v_categoricals@[k].0 == field(bytes@, 104, k, 1)
                        &&& t_lower_bounds@[k].0 == field(bytes@, 104, k, 2)
                        &&& t_upper_bounds@[k].0 == field(bytes@, 104, k, 3)
                    },
                forall|k: int| 0 <= k < i ==> (#[trigger] query_vectors@[k])@.len() == 100,
                forall|k: int, j: int|
                    0 <= k < i && 0 <= j < 100 ==> query_vectors@[k]@[j] == #[trigger] field(
                        bytes@,
                        104,
                        k,
                        4 + j,
                    ),
            decreases n - i,
        {
            assert(QUERY_TOTAL_DIMENSIONS == 104 && 4 + (i + 1) * 416 <= len);
            let base: usize = 1 + i * QUERY_TOTAL_DIMENSIONS;
            let code: u32 = read_word(bytes, base + QUERY_TYPE_INDEX);
            match QueryType::from_f32(code) {
                Ok(query_type) => query_types.push(query_type),
                Err(e) => {
                    proof {
                        assert(code == field(bytes@, 104, i as int, 0));
                        assert(first_invalid_type(bytes@, i as int));
                    }
                    return Err(e);
                },
            }
            v_categoricals.push(OptionalFilterValue::new(read_word(bytes, base + QUERY_V_CAT_INDEX)));
            t_lower_bounds.push(
                OptionalFilterValue::new(read_word(bytes, base + QUERY_T_LOWER_INDEX)),
            );
            t_upper_bounds.push(
                OptionalFilterValue::new(read_word(bytes, base + QUERY_T_UPPER_INDEX)),
            );
            let vector = read_words(bytes, base + QUERY_VECTOR_START_INDEX, VECTOR_DIMENSIONS);
            query_vectors.push(vector);
            i += 1;
        }
        Ok(
            QueriesDataset {
                num_queries,
                query_types,
                v_categoricals,
                t_lower_bounds,
                t_upper_bounds,
                query_vectors,
            },
        )
    }
}

/// Appends the words one after the other.
pub fn push_words(out: &mut Vec<u8>, words: &Vec<u32>)
    requires
        old(out)@.len() % 4 == 0,
    ensures
        final(out)@.len() == old(out)@.len() + 4 * words@.len(),
        forall|k: int|
            0 <= k && 4 * k + 4 <= old(out)@.len() ==> word_at(final(out)@, k) == word_at(
                old(out)@,
                k,
            ),
        forall|j: int|
            0 <= j < words@.len() ==> word_at(final(out)@, old(out)@.len() as int / 4 + j)
                == #[trigger] words@[j],
{
    let ghost start = out@.len() as int / 4;
    let mut j: usize = 0;
    while j < words.len()
        invariant
            j <= words@.len(),
            old(out)@.len() == 4 * start,
            out@.len() == 4 * start + 4 * j,
            forall|k: int|
                0 <= k && 4 * k + 4 <= old(out)@.len() ==> word_at(out@, k) == word_at(
                    old(out)@,
                    k,
                ),
            forall|k: int| 0 <= k < j ==> word_at(out@, start + k) == #[trigger] words@[k],
        decreases words@.len() - j,
    {
        push_word(out, words[j]);
        j += 1;
    }
}

/// Encodes result rows: every row as its 100 identifiers, no header.
pub fn write(results: &Vec<Vec<u32>>) -> (bytes: Vec<u8>)
    requires
        forall|i: int| 0 <= i < results@.len() ==> (#[trigger] results@[i])@.len() == K_NEAREST,
    ensures
        results_match(results@, bytes@),
{
    let mut out: Vec<u8> = Vec::new();
    let mut i: usize = 0;
    while i < results.len()
        invariant
            i <= results@.len(),
            forall|k: int| 0 <= k < results@.len() ==> (#[trigger] results@[k])@.len() == 100,
            out@.len() == 400 * i,
            forall|k: int, j: int|
                0 <= k < i && 0 <= j < 100 ==> results@[k]@[j] == #[trigger] word_at(
                    out@,
                    k * 100 + j,
                ),
        decreases results@.len() - i,
    {
        let ghost before = out@;
        push_words(&mut out, &results[i]);
        proof {
            assert forall|k: int, j: int| 0 <= k < i + 1 && 0 <= j < 100 implies results@[k]@[j]
                == #[trigger] word_at(out@, k * 100 + j) by {
                if k < i {
                    assert(word_at(out@, k * 100 + j) == word_at(before, k * 100 + j));
                } else {
                    assert(before.len() as int / 4 + j == k * 100 + j);
                    assert(results@[k]@[j] == word_at(out@, before.len() as int / 4 + j));
                }
            }
        }
        i += 1;
    }
    out
}

/// Word `j` of the record that encodes node `i`: category, timestamp, then
/// the vector.
pub open spec fn node_word(ds: NodesDataset, i: int, j: int) -> u32 {
    if j == 0 {
        ds.c_attrs@[i]
    } else if j == 1 {
        ds.t_attrs@[i]
    } else {
        ds.vectors@[i]@[j - 2]
    }
}

impl NodesDataset {
    /// The length of the first vector, which a node file is laid out by.
    pub open spec fn dimension(&self) -> int {
        if self.vectors@.len() == 0 {
            0
        } else {
            self.vectors@[0]@.len() as int
        }
    }

    /// Every vector has the length of the first.
    pub open spec fn uniform(&self) -> bool {
        forall|i: int|
            0 <= i < self.vectors@.len() ==> (#[trigger] self.vectors@[i])@.len()
                == self.dimension()
    }

    /// The bytes are the node file of this dataset: the count, then one
    /// record per node, and nothing more.
    pub open spec fn encoded_as(&self, bytes: Seq<u8>) -> bool {
        &&& bytes.len() == 4 + self.num_vectors * (2 + self.dimension()) * 4
        &&& nodes_match(*self, bytes, self.dimension())
    }

    /// Encodes the dataset as a node file. It fails if a vector has another
    /// length than the first. A dataset without nodes gives the header alone.
    pub fn write(&self) -> (r: Result<Vec<u8>, DatasetError>)
        requires
            self.consistent(),
        ensures
            match r {
                Ok(bytes) => self.uniform() && self.encoded_as(bytes@),
                Err(e) => !self.uniform() && e == DatasetError::MismatchedVectorLength,
            },
    {
        let n: usize = self.vectors.len();
        let dim: usize = if n == 0 {
            0
        } else {
            self.vectors[0].len()
        };
        let mut i: usize = 0;
        while i < n
            invariant
                i <= n,
                n == self.vectors@.len(),
                dim == self.dimension(),
                forall|k: int| 0 <= k < i ==> (#[trigger] self.vectors@[k])@.len() == dim,
            decreases n - i,
        {
            if self.vectors[i].len() != dim {
                return Err(DatasetError::MismatchedVectorLength);
            }
            i += 1;
        }
        let ghost w: int = 2 + dim;
        let mut out: Vec<u8> = Vec::new();
        push_word(&mut out, self.num_vectors);
        i = 0;
        while i < n
            invariant
                i <= n,
                n == self.vectors@.len(),
                self.consistent(),
                self.uniform(),
                dim == self.dimension(),
                w == 2 + dim,
                out@.len() == 4 * (1 + i * w),
                word_at(out@, 0) == self.num_vectors,
                forall|k: int, j: int|
                    0 <= k < i && 0 <= j < w ==> #[trigger] field(out@, w, k, j) == node_word(
                        *self,
                        k,
                        j,
                    ),
            decreases n - i,
        {
            let ghost before = out@;
            let ghost at: int = 1 + i * w;
            push_word(&mut out, self.c_attrs[i]);
            push_word(&mut out, self.t_attrs[i]);
            let ghost middle = out@;
            push_words(&mut out, &self.vectors[i]);
            proof {
                assert((i + 1) * w == i * w + w) by (nonlinear_arith);
                assert(middle.len() as int / 4 == at + 2);
                assert forall|k: int, j: int| 0 <= k < i + 1 && 0 <= j < w implies #[trigger] field(
                    out@,
                    w,
                    k,
                    j,
                ) == node_word(*self, k, j) by {
                    if k < i {
                        assert(k * w + w <= i * w) by (nonlinear_arith)
                            requires
                                k < i,
                                w >= 0,
                        ;
                        assert(field(out@, w, k, j) == field(before, w, k, j));
                    } else if j >= 2 {
                        assert(self.vectors@[k]@[j - 2] == word_at(out@, at + 2 + (j - 2)));
                    }
                }
            }
            i += 1;
        }
        proof {
            assert forall|k: int| 0 <= k < self.num_vectors implies {
                &&& self.c_attrs@[k] == #[trigger] field(out@, w, k, 0)
                &&& self.t_attrs@[k] == field(out@, w, k, 1)
                &&& self.vectors@[k]@.len() == dim
            } by {
                assert(field(out@, w, k, 0) == node_word(*self, k, 0));
                assert(field(out@, w, k, 1) == node_word(*self, k, 1));
            }
            assert forall|k: int, j: int| 0 <= k < self.num_vectors && 0 <= j < dim implies 
                self.vectors@[k]@[j] == #[trigger] field(out@, w, k, 2 + j) by {
                assert(field(out@, w, k, 2 + j) == node_word(*self, k, 2 + j));
            }
        }
        Ok(out)
    }
}

/// Two datasets hold the same nodes.
pub open spec fn same_nodes(a: NodesDataset, b: NodesDataset) -> bool {
    &&& a.num_vectors == b.num_vectors
    &&& a.c_attrs@ == b.c_attrs@
    &&& a.t_attrs@ == b.t_attrs@
    &&& a.vectors@.len() == b.vectors@.len()
    &&& forall|i: int| 0 <= i < a.vectors@.len() ==> a.vectors@[i]@ == b.vectors@[i]@
}

/// Writing and reading back loses nothing: the node file of a well-formed
/// dataset with at least one node passes the header checks, and whatever
/// dataset is decoded from it has the same count and, word for word, the same
/// attributes and vectors.
pub proof fn lemma_nodes_round_trip(ds: NodesDataset, bytes: Seq<u8>, back: NodesDataset)
    requires
        ds.wf(),
        ds.num_vectors > 0,
        ds.encoded_as(bytes),
    ensures
        framing_error(bytes, 102) is None,
        nodes_match(back, bytes, 100) ==> same_nodes(ds, back),
{
    assert(ds.vectors@[0]@.len() == 100);
    assert(ds.dimension() == 100);
    if nodes_match(back, bytes, 100) {
        assert(ds.c_attrs@ =~= back.c_attrs@) by {
            assert forall|i: int| 0 <= i < ds.num_vectors implies ds.c_attrs@[i]
                == back.c_attrs@[i] by {
                assert(ds.c_attrs@[i] == field(bytes, 102, i, 0));
            }
        }
        assert(ds.t_attrs@ =~= back.t_attrs@) by {
            assert forall|i: int| 0 <= i < ds.num_vectors implies ds.t_attrs@[i]
                == back.t_attrs@[i] by {
                assert(ds.c_attrs@[i] == field(bytes, 102, i, 0));
            }
        }
        assert forall|i: int| 0 <= i < ds.vectors@.len() implies ds.vectors@[i]@
            == back.vectors@[i]@ by {
            assert(ds.c_attrs@[i] == field(bytes, 102, i, 0));
            assert forall|j: int| 0 <= j < 100 implies ds.vectors@[i]@[j]
                == back.vectors@[i]@[j] by {
                assert(ds.vectors@[i]@[j] == field(bytes, 102, i, 2 + j));
            }
            assert(ds.vectors@[i]@ =~= back.vectors@[i]@);
        }
    }
}

/// The words of a file determine its bytes: two byte strings of the same
/// whole number of words that agree on every word are equal.
pub proof fn lemma_words_determine_bytes(a: Seq<u8>, b: Seq<u8>)
    requires
        a.len() == b.len(),
        a.len() % 4 == 0,
        forall|k: int| 0 <= 4 * k < a.len() ==> word_at(a, k) == word_at(b, k),
    ensures
        a == b,
{
    assert forall|i: int| 0 <= i < a.len() implies a[i] == b[i] by {
        let k = i / 4;
        assert(word_at(a, k) == word_at(b, k));
    }
    assert(a =~= b);
}

} // verus!
