//! The baseline search: a fixed leading share of the nodes is scanned for
//! each query, the nodes that pass the query's filter are ranked by their
//! distance to the query vector, and the nearest fill the result row.
//!
//! Distances are handed in as bit patterns, one row per query with one entry
//! per sampled node. A squared distance is never negative, so its pattern
//! orders as its value does.
use vstd::prelude::*;
use crate::bits::{key_of, order_key};
use crate::constants::{DEFAULT_PAD_ID, K_NEAREST, SAMPLE_DENOMINATOR, SAMPLE_NUMERATOR};
use crate::filter::{passes, passes_filter};
use crate::types::{DatasetError, NodesDataset, ParsedQuery, QueriesDataset};

verus! {

/// `total * numerator / denominator`, rounded to the nearest whole number,
/// halves upward, then kept between 1 and `total`.
pub open spec fn sample_count(total: int, numerator: int, denominator: int) -> int {
    let rounded = (2 * total * numerator + denominator) / (2 * denominator);
    let raised = if rounded < 1 {
        1
    } else {
        rounded
    };
    if raised > total {
        total
    } else {
        raised
    }
}

/// How many leading nodes are scanned for each query.
pub fn sample_size(total: u32, numerator: u32, denominator: u32) -> (r: u32)
    requires
        denominator > 0,
    ensures
        r == sample_count(total as int, numerator as int, denominator as int),
        r <= total,
{
    assert(0 <= total * numerator <= 0xffff_ffff * 0xffff_ffff) by (nonlinear_arith)
        requires
            0 <= total <= 0xffff_ffff,
            0 <= numerator <= 0xffff_ffff,
    ;
    let product: u128 = total as u128 * numerator as u128;
    let rounded: u128 = (2 * product + denominator as u128) / (2 * denominator as u128);
    assert(2 * total * numerator == 2 * (total * numerator)) by (nonlinear_arith);
    let raised: u128 = if rounded < 1 {
        1
    } else {
        rounded
    };
    if raised > total as u128 {
        total
    } else {
        raised as u32
    }
}

/// Whether node `i` passes the query's filter.
pub open spec fn node_passes(nodes: NodesDataset, query: ParsedQuery, i: int) -> bool {
    passes(query, nodes.c_attrs@[i], nodes.t_attrs@[i])
}

/// The candidates among the first `n` nodes, in node order: for each node that
/// passes the filter, its distance and its position, which is its identifier.
pub open spec fn candidates(
    nodes: NodesDataset,
    query: ParsedQuery,
    distances: Seq<u32>,
    n: nat,
) -> Seq<(u32, u32)>
    decreases n,
{
    if n == 0 {
        Seq::empty()
    } else {
        let before = candidates(nodes, query, distances, (n - 1) as nat);
        if node_passes(nodes, query, n - 1) {
            before.push((distances[n - 1], (n - 1) as u32))
        } else {
            before
        }
    }
}

/// `ranking` holds the same pairs as `pairs`, each as often, in ascending
/// order of distance. The order among equal distances is left open.
pub open spec fn ranked(ranking: Seq<(u32, u32)>, pairs: Seq<(u32, u32)>) -> bool {
    &&& ranking.to_multiset() == pairs.to_multiset()
    &&& forall|i: int, j: int|
        0 <= i < j < ranking.len() ==> order_key(ranking[i].0) <= order_key(ranking[j].0)
}

/// `row` has the fixed length; it starts with the identifiers of the ranking
/// in order, as far as either reaches, and is zero from there on.
pub open spec fn row_of(ranking: Seq<(u32, u32)>, row: Seq<u32>) -> bool {
    &&& row.len() == K_NEAREST
    &&& forall|k: int|
        0 <= k < K_NEAREST ==> #[trigger] row[k] == if k < ranking.len() {
            ranking[k].1
        } else {
            DEFAULT_PAD_ID
        }
}

/// `row` answers the query: it is the row of some ranking of the candidates
/// among the first `sample` nodes.
pub open spec fn answers(
    nodes: NodesDataset,
    query: ParsedQuery,
    distances: Seq<u32>,
    sample: nat,
    row: Seq<u32>,
) -> bool {
    exists|ranking: Seq<(u32, u32)>|
        ranked(ranking, candidates(nodes, query, distances, sample)) && row_of(ranking, row)
}

/// Sorts the pairs by distance with `sort_unstable_by_key` of slices, keyed by
/// the order key of the distance. Taken on trust from its documentation: the
/// slice is reordered, nothing is added or lost, and afterwards the keys do
/// not decrease; the order of pairs with equal keys is not promised.
#[verifier::external_body]
fn sort_by_distance(pairs: &mut Vec<(u32, u32)>)
    ensures
        final(pairs)@.to_multiset() == old(pairs)@.to_multiset(),
        forall|i: int, j: int|
            0 <= i < j < final(pairs)@.len() ==> order_key(final(pairs)@[i].0) <= order_key(
                final(pairs)@[j].0,
            ),
{
    pairs.sort_unstable_by_key(|pair| key_of(pair.0));
}

/// The result row of a ranking: its first identifiers, then padding.
pub fn top_k(ranking: &Vec<(u32, u32)>) -> (row: Vec<u32>)
    ensures
        row_of(ranking@, row@),
{
    let mut row: Vec<u32> = Vec::new();
    let mut k: usize = 0;
    while k < K_NEAREST
        invariant
            k <= K_NEAREST,
            row@.len() == k,
            forall|m: int|
                0 <= m < k ==> #[trigger] row@[m] == if m < ranking@.len() {
                    ranking@[m].1
                } else {
                    DEFAULT_PAD_ID
                },
        decreases K_NEAREST - k,
    {
        if k < ranking.len() {
            row.push(ranking[k].1);
        } else {
            row.push(DEFAULT_PAD_ID);
        }
        k += 1;
    }
    row
}

/// Answers one query over the first `sample` nodes. `distances` holds, for
/// each of them, the squared distance of its vector to the query vector.
pub fn search_one(
    nodes: &NodesDataset,
    query: &ParsedQuery,
    distances: &Vec<u32>,
    sample: u32,
) -> (r: Result<Vec<u32>, DatasetError>)
    requires
        nodes.consistent(),
        sample <= distances@.len(),
    ensures
        match r {
            Ok(row) => sample <= nodes.num_vectors && answers(
                *nodes,
                *query,
                distances@,
                sample as nat,
                row@,
            ),
            Err(e) => sample > nodes.num_vectors && e == (DatasetError::IndexOutOfRange {
                index: nodes.num_vectors as usize,
            }),
        },
{
    let mut qualified: Vec<(u32, u32)> = Vec::new();
    let mut node_id: u32 = 0;
    while node_id < sample
        invariant
            node_id <= sample,
            node_id <= nodes.num_vectors,
            nodes.consistent(),
            sample <= distances@.len(),
            qualified@ == candidates(*nodes, *query, distances@, node_id as nat),
        decreases sample - node_id,
    {
        let node = match nodes.get(node_id as usize) {
            Some(node) => node,
            None => {
                return Err(DatasetError::IndexOutOfRange { index: node_id as usize });
            },
        };
        if passes_filter(query, &node) {
            qualified.push((distances[node_id as usize], node_id));
        }
        node_id += 1;
    }
    let ghost pairs = qualified@;
    sort_by_distance(&mut qualified);
    let row = top_k(&qualified);
    proof {
        assert(ranked(qualified@, pairs));
    }
    Ok(row)
}

/// The sampled share of the nodes, as a fraction.
#[derive(Debug, Clone, Copy, PartialEq, Eq, Structural)]
pub struct SampleProportion {
    pub numerator: u32,
    pub denominator: u32,
}

/// The baseline solution.
pub struct Baseline;

impl Baseline {
    /// One node in a thousand is scanned.
    pub fn default_proportion() -> (p: SampleProportion)
        ensures
            p.numerator == SAMPLE_NUMERATOR,
            p.denominator == SAMPLE_DENOMINATOR,
    {
        SampleProportion { numerator: SAMPLE_NUMERATOR, denominator: SAMPLE_DENOMINATOR }
    }

    /// The number of nodes that a run scans for each query.
    pub open spec fn sample_of(nodes: NodesDataset, proportion: SampleProportion) -> nat {
        sample_count(
            nodes.num_vectors as int,
            proportion.numerator as int,
            proportion.denominator as int,
        ) as nat
    }

    /// Query `i` can be resolved: it has a row of distances that reaches
    /// over the sampled nodes.
    pub open spec fn resolved(distances: Seq<Vec<u32>>, sample: nat, i: int) -> bool {
        i < distances.len() && sample <= distances[i]@.len()
    }

    /// Query `i` is the first that cannot be resolved.
    pub open spec fn stops_at(distances: Seq<Vec<u32>>, sample: nat, i: int) -> bool {
        &&& 0 <= i
        &&& !Self::resolved(distances, sample, i)
        &&& forall|k: int| 0 <= k < i ==> #[trigger] Self::resolved(distances, sample, k)
    }

    /// Runs every query in order and returns one result row per query.
    /// `distances[i][j]` is the squared distance between the vectors of query
    /// `i` and node `j`. The run stops at the first query whose distances
    /// are missing or do not reach over the sampled nodes.
    pub fn run(
        nodes_dataset: &NodesDataset,
        queries_dataset: &QueriesDataset,
        distances: &Vec<Vec<u32>>,
        proportion: &SampleProportion,
    ) -> (r: Result<Vec<Vec<u32>>, DatasetError>)
        requires
            nodes_dataset.consistent(),
            queries_dataset.consistent(),
            proportion.denominator > 0,
        ensures
            match r {
                Ok(rows) => {
                    &&& rows@.len() == queries_dataset.num_queries
                    &&& forall|i: int|
                        0 <= i < queries_dataset.num_queries ==> #[trigger] Self::resolved(
                            distances@,
                            Self::sample_of(*nodes_dataset, *proportion),
                            i,
                        )
                    &&& forall|i: int|
                        0 <= i < queries_dataset.num_queries ==> answers(
                            *nodes_dataset,
                            queries_dataset.parsed(i),
                            distances@[i]@,
                            Self::sample_of(*nodes_dataset, *proportion),
                            (#[trigger] rows@[i])@,
                        )
                },
                Err(e) => exists|i: int|
                    {
                        &&& i < queries_dataset.num_queries
                        &&& #[trigger] Self::stops_at(
                            distances@,
                            Self::sample_of(*nodes_dataset, *proportion),
                            i,
                        )
                        &&& e == (DatasetError::IndexOutOfRange { index: i as usize })
                    },
            },
    {
        let sample: u32 = sample_size(
            nodes_dataset.num_vectors,
            proportion.numerator,
            proportion.denominator,
        );
        let mut all_knn_results: Vec<Vec<u32>> = Vec::new();
        let num_queries: usize = queries_dataset.num_queries as usize;
        let mut i: usize = 0;
        while i < num_queries
            invariant
                i <= num_queries,
                num_queries == queries_dataset.num_queries,
                nodes_dataset.consistent(),
                queries_dataset.consistent(),
                sample <= nodes_dataset.num_vectors,
                sample == Self::sample_of(*nodes_dataset, *proportion),
                all_knn_results@.len() == i,
                forall|k: int|
                    0 <= k < i ==> #[trigger] Self::resolved(distances@, sample as nat, k),
                forall|k: int|
                    0 <= k < i ==> answers(
                        *nodes_dataset,
                        queries_dataset.parsed(k),
                        distances@[k]@,
                        sample as nat,
                        (#[trigger] all_knn_results@[k])@,
                    ),
            decreases num_queries - i,
        {
            if i >= distances.len() || distances[i].len() < sample as usize {
                proof {
                    assert(Self::stops_at(distances@, sample as nat, i as int));
                }
                return Err(DatasetError::IndexOutOfRange { index: i });
            }
            let query = match queries_dataset.get(i) {
                Some(query) => query,
                None => {
                    return Err(DatasetError::IndexOutOfRange { index: i });
                },
            };
            let row = match search_one(nodes_dataset, &query, &distances[i], sample) {
                Ok(row) => row,
                Err(e) => {
                    return Err(e);
                },
            };
            proof {
                assert(query == queries_dataset.parsed(i as int));
                assert(answers(
                    *nodes_dataset,
                    queries_dataset.parsed(i as int),
                    distances@[i as int]@,
                    sample as nat,
                    row@,
                ));
            }
            all_knn_results.push(row);
            i += 1;
        }
        Ok(all_knn_results)
    }
}

/// Every candidate among the first `n` nodes names one of them that passes
/// the filter, and carries that node's distance.
pub proof fn lemma_candidates_qualify(
    nodes: NodesDataset,
    query: ParsedQuery,
    distances: Seq<u32>,
    n: nat,
)
    requires
        n <= u32::MAX,
    ensures
        candidates(nodes, query, distances, n).len() <= n,
        forall|k: int|
            0 <= k < candidates(nodes, query, distances, n).len() ==> {
                let pair = #[trigger] candidates(nodes, query, distances, n)[k];
                &&& pair.1 < n
                &&& node_passes(nodes, query, pair.1 as int)
                &&& pair.0 == distances[pair.1 as int]
            },
    decreases n,
{
    if n > 0 {
        lemma_candidates_qualify(nodes, query, distances, (n - 1) as nat);
    }
}

/// Where no node among the first `n` passes the filter, there is no
/// candidate.
pub proof fn lemma_no_candidates(
    nodes: NodesDataset,
    query: ParsedQuery,
    distances: Seq<u32>,
    n: nat,
)
    requires
        forall|i: int| 0 <= i < n ==> !node_passes(nodes, query, i),
    ensures
        candidates(nodes, query, distances, n).len() == 0,
    decreases n,
{
    if n > 0 {
        lemma_no_candidates(nodes, query, distances, (n - 1) as nat);
    }
}

/// A query that constrains the category but has no category set finds no
/// candidate, whatever the nodes hold.
pub proof fn lemma_unset_category_excludes(
    nodes: NodesDataset,
    query: ParsedQuery,
    distances: Seq<u32>,
    n: nat,
)
    requires
        query.query_type is CategoricalConstraint || query.query_type is BothConstraints,
        query.v_categorical is None,
    ensures
        candidates(nodes, query, distances, n).len() == 0,
{
    lemma_no_candidates(nodes, query, distances, n);
}

/// A query that constrains the timestamp but lacks either end of the range
/// finds no candidate: a range with one end is not matched.
pub proof fn lemma_open_range_excludes(
    nodes: NodesDataset,
    query: ParsedQuery,
    distances: Seq<u32>,
    n: nat,
)
    requires
        query.query_type is TimestampConstraint || query.query_type is BothConstraints,
        query.t_lower_bound is None || query.t_upper_bound is None,
    ensures
        candidates(nodes, query, distances, n).len() == 0,
{
    lemma_no_candidates(nodes, query, distances, n);
}

/// The number of slots of a row that candidates fill.
pub open spec fn filled(
    nodes: NodesDataset,
    query: ParsedQuery,
    distances: Seq<u32>,
    sample: nat,
) -> int {
    let found = candidates(nodes, query, distances, sample).len() as int;
    if found < K_NEAREST {
        found
    } else {
        K_NEAREST as int
    }
}

/// In a row that answers a query, every filled slot names a sampled node
/// that passes the filter, and the distances of the named nodes do not
/// decrease along the row.
pub proof fn lemma_row_sorted_and_qualified(
    nodes: NodesDataset,
    query: ParsedQuery,
    distances: Seq<u32>,
    sample: nat,
    row: Seq<u32>,
)
    requires
        sample <= u32::MAX,
        answers(nodes, query, distances, sample, row),
    ensures
        forall|k: int|
            0 <= k < filled(nodes, query, distances, sample) ==> (#[trigger] row[k]) < sample
                && node_passes(nodes, query, row[k] as int),
        forall|a: int, b: int|
            0 <= a < b < filled(nodes, query, distances, sample) ==> order_key(
                distances[row[a] as int],
            ) <= order_key(distances[row[b] as int]),
{
    let pairs = candidates(nodes, query, distances, sample);
    let ranking = choose|ranking: Seq<(u32, u32)>|
        ranked(ranking, pairs) && row_of(ranking, row);
    ranking.to_multiset_ensures();
    pairs.to_multiset_ensures();
    lemma_candidates_qualify(nodes, query, distances, sample);
    assert forall|k: int| 0 <= k < filled(nodes, query, distances, sample) implies {
        &&& (#[trigger] row[k]) < sample
        &&& node_passes(nodes, query, row[k] as int)
        &&& ranking[k].0 == distances[row[k] as int]
    } by {
        assert(ranking.to_multiset().count(ranking[k]) > 0);
        assert(pairs.contains(ranking[k]));
        let at = choose|at: int| 0 <= at < pairs.len() && pairs[at] == ranking[k];
        assert(pairs[at].1 < sample);
    }
    assert forall|a: int, b: int|
        0 <= a < b < filled(nodes, query, distances, sample) implies order_key(
        distances[row[a] as int],
    ) <= order_key(distances[row[b] as int]) by {
        assert(ranking[a].0 == distances[row[a] as int]);
        assert(ranking[b].0 == distances[row[b] as int]);
    }
}

/// In a row that answers a query, every slot beyond the candidates holds the
/// padding identifier.
pub proof fn lemma_row_padded(
    nodes: NodesDataset,
    query: ParsedQuery,
    distances: Seq<u32>,
    sample: nat,
    row: Seq<u32>,
)
    requires
        answers(nodes, query, distances, sample, row),
    ensures
        row.len() == K_NEAREST,
        forall|k: int|
            filled(nodes, query, distances, sample) <= k < K_NEAREST ==> #[trigger] row[k]
                == DEFAULT_PAD_ID,
{
    let pairs = candidates(nodes, query, distances, sample);
    let ranking = choose|ranking: Seq<(u32, u32)>|
        ranked(ranking, pairs) && row_of(ranking, row);
    ranking.to_multiset_ensures();
    pairs.to_multiset_ensures();
}

/// A row that answers a query holds the nearest candidates: a candidate
/// that the row does not name is at least as far from the query as every
/// node that the row names.
pub proof fn lemma_row_holds_nearest(
    nodes: NodesDataset,
    query: ParsedQuery,
    distances: Seq<u32>,
    sample: nat,
    row: Seq<u32>,
    at: int,
    k: int,
)
    requires
        sample <= u32::MAX,
        answers(nodes, query, distances, sample, row),
        0 <= at < candidates(nodes, query, distances, sample).len(),
        0 <= k < filled(nodes, query, distances, sample),
    ensures
        (exists|j: int|
            0 <= j < filled(nodes, query, distances, sample) && #[trigger] row[j] == candidates(
                nodes,
                query,
                distances,
                sample,
            )[at].1) || order_key(distances[row[k] as int]) <= order_key(
            candidates(nodes, query, distances, sample)[at].0,
        ),
{
    let pairs = candidates(nodes, query, distances, sample);
    let ranking = choose|ranking: Seq<(u32, u32)>|
        ranked(ranking, pairs) && row_of(ranking, row);
    ranking.to_multiset_ensures();
    pairs.to_multiset_ensures();
    lemma_candidates_qualify(nodes, query, distances, sample);
    assert(pairs.to_multiset().count(pairs[at]) > 0);
    assert(ranking.contains(pairs[at]));
    let j = choose|j: int| 0 <= j < ranking.len() && ranking[j] == pairs[at];
    if j < filled(nodes, query, distances, sample) {
        assert(row[j] == pairs[at].1);
    } else {
        assert(ranking.to_multiset().count(ranking[k]) > 0);
        assert(pairs.contains(ranking[k]));
        let from = choose|from: int| 0 <= from < pairs.len() && pairs[from] == ranking[k];
        assert(pairs[from].0 == distances[pairs[from].1 as int]);
        assert(row[k] == ranking[k].1);
    }
}

} // verus!
