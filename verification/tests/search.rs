use glasshouse::constants::{K_NEAREST, VECTOR_DIMENSIONS};
use glasshouse::filter::passes_filter;
use glasshouse::search::{sample_size, search_one, top_k, Baseline, SampleProportion};
use glasshouse::types::{
    DatasetError, NodesDataset, OptionalFilterValue, ParsedNode, ParsedQuery, QueriesDataset,
    QueryType,
};

fn bits_of(values: &[f32]) -> Vec<u32> {
    values.iter().map(|x| x.to_bits()).collect()
}

fn l2(a: &[u32], b: &[u32]) -> u32 {
    let mut sum: f32 = 0.0;
    for i in 0..a.len() {
        let diff = f32::from_bits(a[i]) - f32::from_bits(b[i]);
        sum += diff * diff;
    }
    sum.to_bits()
}

fn nodes_of(rows: &[(f32, f32, f32)]) -> NodesDataset {
    let mut nodes = NodesDataset {
        num_vectors: rows.len() as u32,
        c_attrs: vec![],
        t_attrs: vec![],
        vectors: vec![],
    };
    for (c, t, first) in rows {
        nodes.c_attrs.push(c.to_bits());
        nodes.t_attrs.push(t.to_bits());
        let mut vector = vec![0u32; VECTOR_DIMENSIONS];
        vector[0] = first.to_bits();
        nodes.vectors.push(vector);
    }
    nodes
}

fn queries_of(rows: &[(QueryType, f32, f32, f32)]) -> QueriesDataset {
    let mut queries = QueriesDataset {
        num_queries: rows.len() as u32,
        query_types: vec![],
        v_categoricals: vec![],
        t_lower_bounds: vec![],
        t_upper_bounds: vec![],
        query_vectors: vec![],
    };
    for (kind, v, l, r) in rows {
        queries.query_types.push(*kind);
        queries.v_categoricals.push(OptionalFilterValue::new(v.to_bits()));
        queries.t_lower_bounds.push(OptionalFilterValue::new(l.to_bits()));
        queries.t_upper_bounds.push(OptionalFilterValue::new(r.to_bits()));
        queries.query_vectors.push(vec![0u32; VECTOR_DIMENSIONS]);
    }
    queries
}

fn distances_of(nodes: &NodesDataset, queries: &QueriesDataset) -> Vec<Vec<u32>> {
    queries
        .query_vectors
        .iter()
        .map(|q| nodes.vectors.iter().map(|n| l2(q, n)).collect())
        .collect()
}

fn everything() -> SampleProportion {
    SampleProportion { numerator: 1, denominator: 1 }
}

fn padded(ids: &[u32]) -> Vec<u32> {
    let mut row = ids.to_vec();
    row.resize(K_NEAREST, 0);
    row
}

#[test]
fn sample_size_is_the_rounded_share_within_bounds() {
    assert_eq!(sample_size(10000, 1, 1000), 10);
    assert_eq!(sample_size(1499, 1, 1000), 1);
    assert_eq!(sample_size(1500, 1, 1000), 2);
    assert_eq!(sample_size(2499, 1, 1000), 2);
    assert_eq!(sample_size(499, 1, 1000), 1);
    assert_eq!(sample_size(1, 1, 1000), 1);
    assert_eq!(sample_size(0, 1, 1000), 0);
    assert_eq!(sample_size(20, 3, 1), 20);
    assert_eq!(sample_size(20, 1, 1), 20);
    assert_eq!(sample_size(7, 1, 2), 4);
    assert_eq!(sample_size(u32::MAX, u32::MAX, 1), u32::MAX);
    assert_eq!(sample_size(u32::MAX, 1, 1000), 4294967);
    let p = Baseline::default_proportion();
    assert_eq!((p.numerator, p.denominator), (1, 1000));
}

#[test]
fn two_nodes_one_vector_only_query() {
    let nodes = nodes_of(&[(0.0, 0.0, 0.0), (0.0, 0.0, 1.0)]);
    let queries = queries_of(&[(QueryType::VectorOnly, -1.0, -1.0, -1.0)]);
    let distances = distances_of(&nodes, &queries);
    assert_eq!(distances, vec![vec![0.0f32.to_bits(), 1.0f32.to_bits()]]);
    let rows = Baseline::run(&nodes, &queries, &distances, &everything()).unwrap();
    assert_eq!(rows.len(), 1);
    assert_eq!(rows[0].len(), K_NEAREST);
    assert_eq!(&rows[0][0..4], &[0, 1, 0, 0]);
    assert!(rows[0][2..].iter().all(|id| *id == 0));
}

#[test]
fn nearest_come_first() {
    let nodes = nodes_of(&[
        (0.0, 0.0, 9.0),
        (0.0, 0.0, 4.0),
        (0.0, 0.0, -3.0),
        (0.0, 0.0, 0.5),
        (0.0, 0.0, 7.0),
    ]);
    let queries = queries_of(&[(QueryType::VectorOnly, -1.0, -1.0, -1.0)]);
    let distances = distances_of(&nodes, &queries);
    let rows = Baseline::run(&nodes, &queries, &distances, &everything()).unwrap();
    assert_eq!(rows, vec![padded(&[3, 2, 1, 4, 0])]);
    let half = SampleProportion { numerator: 1, denominator: 2 };
    let rows = Baseline::run(&nodes, &queries, &distances, &half).unwrap();
    assert_eq!(rows, vec![padded(&[2, 1, 0])]);
    let default = Baseline::run(&nodes, &queries, &distances, &Baseline::default_proportion());
    assert_eq!(default, Ok(vec![padded(&[0])]));
}

#[test]
fn more_candidates_than_slots() {
    let mut rows: Vec<(f32, f32, f32)> = Vec::new();
    for i in 0..150 {
        rows.push((0.0, 0.0, (200 - i) as f32));
    }
    let nodes = nodes_of(&rows);
    let queries = queries_of(&[(QueryType::VectorOnly, -1.0, -1.0, -1.0)]);
    let distances = distances_of(&nodes, &queries);
    let result = Baseline::run(&nodes, &queries, &distances, &everything()).unwrap();
    let expected: Vec<u32> = (0..100).map(|k| 149 - k).collect();
    assert_eq!(result, vec![expected]);
}

#[test]
fn filters_select_the_candidates() {
    let nodes = nodes_of(&[
        (2.0, 0.10, 5.0),
        (3.0, 0.20, 4.0),
        (2.0, 0.30, 3.0),
        (2.0, 0.40, 2.0),
        (3.0, 0.50, 1.0),
    ]);
    let queries = queries_of(&[
        (QueryType::CategoricalConstraint, 2.0, -1.0, -1.0),
        (QueryType::TimestampConstraint, -1.0, 0.20, 0.40),
        (QueryType::BothConstraints, 2.0, 0.20, 0.40),
        (QueryType::BothConstraints, 3.0, 0.0, 1.0),
        (QueryType::CategoricalConstraint, 5.0, 0.0, 1.0),
    ]);
    let distances = distances_of(&nodes, &queries);
    let rows = Baseline::run(&nodes, &queries, &distances, &everything()).unwrap();
    assert_eq!(
        rows,
        vec![padded(&[3, 2, 0]), padded(&[3, 2, 1]), padded(&[3, 2]), padded(&[4, 1]), padded(&[])]
    );
}

#[test]
fn unset_category_qualifies_nothing() {
    let nodes = nodes_of(&[(-1.0, 0.5, 1.0), (0.0, 0.5, 2.0), (1.0, 0.5, 3.0)]);
    let queries = queries_of(&[
        (QueryType::CategoricalConstraint, -1.0, 0.0, 1.0),
        (QueryType::BothConstraints, -1.0, 0.0, 1.0),
    ]);
    let distances = distances_of(&nodes, &queries);
    let rows = Baseline::run(&nodes, &queries, &distances, &everything()).unwrap();
    assert_eq!(rows, vec![padded(&[]), padded(&[])]);
}

#[test]
fn one_sided_range_qualifies_nothing() {
    let nodes = nodes_of(&[(0.0, 0.5, 1.0), (0.0, 0.9, 2.0), (0.0, 0.1, 3.0)]);
    let queries = queries_of(&[
        (QueryType::TimestampConstraint, 0.0, 0.0, -1.0),
        (QueryType::TimestampConstraint, 0.0, -1.0, 1.0),
        (QueryType::BothConstraints, 0.0, 0.0, -1.0),
        (QueryType::TimestampConstraint, 0.0, 0.1, 0.5),
    ]);
    let distances = distances_of(&nodes, &queries);
    let rows = Baseline::run(&nodes, &queries, &distances, &everything()).unwrap();
    assert_eq!(rows, vec![padded(&[]), padded(&[]), padded(&[]), padded(&[0, 2])]);
}

#[test]
fn filter_follows_the_query_type() {
    let vector = vec![0u32; VECTOR_DIMENSIONS];
    let node = ParsedNode { c_attr: 4.0f32.to_bits(), t_attr: 0.5f32.to_bits(), vector: &vector };
    let query = |kind: QueryType, v: Option<i32>, l: Option<f32>, r: Option<f32>| ParsedQuery {
        query_type: kind,
        v_categorical: v,
        t_lower_bound: l.map(|x| x.to_bits()),
        t_upper_bound: r.map(|x| x.to_bits()),
        query_vector: &vector,
    };
    assert!(passes_filter(&query(QueryType::VectorOnly, None, None, None), &node));
    assert!(passes_filter(&query(QueryType::CategoricalConstraint, Some(4), None, None), &node));
    assert!(!passes_filter(&query(QueryType::CategoricalConstraint, Some(5), None, None), &node));
    assert!(!passes_filter(&query(QueryType::CategoricalConstraint, None, None, None), &node));
    assert!(passes_filter(&query(QueryType::TimestampConstraint, None, Some(0.5), Some(0.5)), &node));
    assert!(!passes_filter(&query(QueryType::TimestampConstraint, None, Some(0.6), Some(0.9)), &node));
    assert!(!passes_filter(&query(QueryType::TimestampConstraint, None, Some(0.1), Some(0.4)), &node));
    assert!(!passes_filter(&query(QueryType::TimestampConstraint, None, Some(0.1), None), &node));
    assert!(!passes_filter(&query(QueryType::TimestampConstraint, None, Some(f32::NAN), Some(0.9)), &node));
    assert!(passes_filter(&query(QueryType::BothConstraints, Some(4), Some(0.0), Some(1.0)), &node));
    assert!(!passes_filter(&query(QueryType::BothConstraints, Some(4), Some(0.6), Some(1.0)), &node));
    assert!(!passes_filter(&query(QueryType::BothConstraints, Some(3), Some(0.0), Some(1.0)), &node));
}

#[test]
fn missing_distances_stop_the_run() {
    let nodes = nodes_of(&[(0.0, 0.0, 1.0), (0.0, 0.0, 2.0)]);
    let queries = queries_of(&[
        (QueryType::VectorOnly, -1.0, -1.0, -1.0),
        (QueryType::VectorOnly, -1.0, -1.0, -1.0),
    ]);
    let mut distances = distances_of(&nodes, &queries);
    distances[1].pop();
    assert_eq!(
        Baseline::run(&nodes, &queries, &distances, &everything()),
        Err(DatasetError::IndexOutOfRange { index: 1 })
    );
    distances.pop();
    assert_eq!(
        Baseline::run(&nodes, &queries, &distances, &everything()),
        Err(DatasetError::IndexOutOfRange { index: 1 })
    );
    assert_eq!(
        Baseline::run(&nodes, &queries, &vec![], &everything()),
        Err(DatasetError::IndexOutOfRange { index: 0 })
    );
    assert!(!DatasetError::IndexOutOfRange { index: 0 }.is_malformed());
}

#[test]
fn sample_beyond_the_nodes_is_out_of_range() {
    let nodes = nodes_of(&[(0.0, 0.0, 1.0), (0.0, 0.0, 2.0)]);
    let vector = vec![0u32; VECTOR_DIMENSIONS];
    let query = ParsedQuery {
        query_type: QueryType::VectorOnly,
        v_categorical: None,
        t_lower_bound: None,
        t_upper_bound: None,
        query_vector: &vector,
    };
    let distances = bits_of(&[4.0, 1.0, 0.5]);
    assert_eq!(
        search_one(&nodes, &query, &distances, 3),
        Err(DatasetError::IndexOutOfRange { index: 2 })
    );
    assert_eq!(search_one(&nodes, &query, &distances, 2), Ok(padded(&[1, 0])));
    assert_eq!(search_one(&nodes, &query, &distances, 1), Ok(padded(&[0])));
    assert_eq!(search_one(&nodes, &query, &distances, 0), Ok(padded(&[])));
}

#[test]
fn rows_take_the_first_identifiers() {
    assert_eq!(top_k(&vec![(5, 9), (6, 3)]), padded(&[9, 3]));
    assert_eq!(top_k(&vec![]), padded(&[]));
    let many: Vec<(u32, u32)> = (0..130).map(|i| (i, i + 1)).collect();
    let expected: Vec<u32> = (1..101).collect();
    assert_eq!(top_k(&many), expected);
}

#[test]
fn no_queries_give_no_rows() {
    let nodes = nodes_of(&[(0.0, 0.0, 1.0)]);
    let queries = queries_of(&[]);
    assert_eq!(Baseline::run(&nodes, &queries, &vec![], &everything()), Ok(vec![]));
}
