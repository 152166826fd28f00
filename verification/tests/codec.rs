use glasshouse::constants::{K_NEAREST, NODE_TOTAL_DIMENSIONS, QUERY_TOTAL_DIMENSIONS, VECTOR_DIMENSIONS};
use glasshouse::io::{push_word, push_words, read_count, read_word, read_words};
use glasshouse::types::{DatasetError, NodesDataset, OptionalFilterValue, QueriesDataset, QueryType};

fn put(out: &mut Vec<u8>, value: f32) {
    out.extend_from_slice(&value.to_le_bytes());
}

fn node_file(count: u32, rows: u32) -> Vec<u8> {
    let mut out: Vec<u8> = Vec::new();
    out.extend_from_slice(&count.to_le_bytes());
    for i in 0..rows {
        put(&mut out, (i % 7) as f32);
        put(&mut out, (i as f32) / 16384.0);
        for j in 0..VECTOR_DIMENSIONS {
            put(&mut out, (i as f32) * 0.5 - (j as f32));
        }
    }
    out
}

fn query_file(count: u32, rows: u32, code_of: fn(u32) -> f32) -> Vec<u8> {
    let mut out: Vec<u8> = Vec::new();
    out.extend_from_slice(&count.to_le_bytes());
    for i in 0..rows {
        put(&mut out, code_of(i));
        put(&mut out, if i % 2 == 0 { -1.0 } else { (i % 5) as f32 });
        put(&mut out, if i % 3 == 0 { -1.0 } else { 0.25 });
        put(&mut out, 0.75);
        for j in 0..VECTOR_DIMENSIONS {
            put(&mut out, (j as f32) + (i as f32) * 0.125);
        }
    }
    out
}

fn cycling_code(i: u32) -> f32 {
    (i % 4) as f32
}

fn seven_at_two(i: u32) -> f32 {
    if i == 2 { 7.0 } else { 1.0 }
}

#[test]
fn can_read_dummy_datasets() {
    let nodes = NodesDataset::read(&node_file(10000, 10000));
    let queries = QueriesDataset::read(&query_file(10000, 10000, cycling_code));

    assert!(nodes.is_ok());
    assert!(queries.is_ok());

    assert!(nodes.unwrap().num_vectors == 10000);
    assert!(queries.unwrap().num_queries == 10000);
}

#[test]
fn can_query_individual_nodes_and_queries() {
    let nodes = NodesDataset::read(&node_file(10000, 10000)).unwrap();
    let queries = QueriesDataset::read(&query_file(10000, 10000, cycling_code)).unwrap();

    assert!(nodes.get(0).is_some());
    assert!(queries.get(0).is_some());
}

#[test]
fn node_fields_are_decoded_word_for_word() {
    let nodes = NodesDataset::read(&node_file(5, 5)).unwrap();
    assert_eq!(nodes.num_vectors, 5);
    assert_eq!(nodes.c_attrs.len(), 5);
    assert_eq!(nodes.t_attrs.len(), 5);
    assert_eq!(nodes.vectors.len(), 5);
    for i in 0..5u32 {
        let node = nodes.get(i as usize).unwrap();
        assert_eq!(node.c_attr, ((i % 7) as f32).to_bits());
        assert_eq!(node.t_attr, ((i as f32) / 16384.0).to_bits());
        assert_eq!(node.vector.len(), VECTOR_DIMENSIONS);
        for j in 0..VECTOR_DIMENSIONS {
            assert_eq!(node.vector[j], ((i as f32) * 0.5 - (j as f32)).to_bits());
        }
    }
    assert!(nodes.get(5).is_none());
    assert!(nodes.get(usize::MAX).is_none());
}

#[test]
fn query_fields_are_decoded_word_for_word() {
    let queries = QueriesDataset::read(&query_file(6, 6, cycling_code)).unwrap();
    assert_eq!(queries.num_queries, 6);
    let first = queries.get(0).unwrap();
    assert_eq!(first.query_type, QueryType::VectorOnly);
    assert_eq!(first.v_categorical, None);
    assert_eq!(first.t_lower_bound, None);
    assert_eq!(first.t_upper_bound, Some(0.75f32.to_bits()));
    let second = queries.get(1).unwrap();
    assert_eq!(second.query_type, QueryType::CategoricalConstraint);
    assert_eq!(second.v_categorical, Some(1));
    assert_eq!(second.t_lower_bound, Some(0.25f32.to_bits()));
    let fourth = queries.get(3).unwrap();
    assert_eq!(fourth.query_type, QueryType::BothConstraints);
    assert_eq!(fourth.v_categorical, Some(3));
    assert_eq!(fourth.t_lower_bound, None);
    assert_eq!(fourth.query_vector.len(), VECTOR_DIMENSIONS);
    assert_eq!(fourth.query_vector[10], (10.0f32 + 0.375).to_bits());
    assert_eq!(queries.query_types[2], QueryType::TimestampConstraint);
    assert!(queries.get(6).is_none());
}

#[test]
fn trailing_bytes_are_ignored() {
    let mut bytes = node_file(2, 2);
    bytes.extend_from_slice(&[1, 2, 3]);
    let nodes = NodesDataset::read(&bytes).unwrap();
    assert_eq!(nodes.num_vectors, 2);
    assert_eq!(nodes.vectors.len(), 2);
}

#[test]
fn zero_count_is_malformed() {
    assert_eq!(NodesDataset::read(&[0, 0, 0, 0]).err(), Some(DatasetError::ZeroCount));
    assert_eq!(QueriesDataset::read(&[0, 0, 0, 0]).err(), Some(DatasetError::ZeroCount));
    assert_eq!(QueriesDataset::read(&node_file(0, 3)).err(), Some(DatasetError::ZeroCount));
    assert!(DatasetError::ZeroCount.is_malformed());
}

#[test]
fn short_header_is_truncated() {
    assert_eq!(NodesDataset::read(&[]).err(), Some(DatasetError::Truncated));
    assert_eq!(NodesDataset::read(&[1, 0, 0]).err(), Some(DatasetError::Truncated));
    assert_eq!(QueriesDataset::read(&[1, 0]).err(), Some(DatasetError::Truncated));
    assert!(!DatasetError::Truncated.is_malformed());
}

#[test]
fn missing_records_are_truncated() {
    assert_eq!(NodesDataset::read(&node_file(3, 2)).err(), Some(DatasetError::Truncated));
    let mut bytes = node_file(3, 3);
    bytes.pop();
    assert_eq!(NodesDataset::read(&bytes).err(), Some(DatasetError::Truncated));
    bytes.push(0);
    assert!(NodesDataset::read(&bytes).is_ok());
    assert_eq!(
        QueriesDataset::read(&query_file(4, 3, cycling_code)).err(),
        Some(DatasetError::Truncated)
    );
    assert_eq!(NodesDataset::read(&[255, 255, 255, 255, 0]).err(), Some(DatasetError::Truncated));
}

#[test]
fn truncation_is_reported_before_a_bad_type_code() {
    assert_eq!(
        QueriesDataset::read(&query_file(4, 3, seven_at_two)).err(),
        Some(DatasetError::Truncated)
    );
}

#[test]
fn type_code_seven_fails_the_query_load() {
    let result = QueriesDataset::read(&query_file(4, 4, seven_at_two));
    assert_eq!(
        result.err(),
        Some(DatasetError::InvalidQueryType { raw: 7.0f32.to_bits() })
    );
    let error = QueryType::from_f32(7.0f32.to_bits()).unwrap_err();
    assert!(error.is_malformed());
    match error {
        DatasetError::InvalidQueryType { raw } => assert_eq!(f32::from_bits(raw), 7.0),
        _ => panic!("another error"),
    }
}

#[test]
fn first_bad_type_code_is_reported() {
    fn codes(i: u32) -> f32 {
        if i == 1 { -3.0 } else if i == 3 { 9.5 } else { 2.0 }
    }
    assert_eq!(
        QueriesDataset::read(&query_file(5, 5, codes)).err(),
        Some(DatasetError::InvalidQueryType { raw: (-3.0f32).to_bits() })
    );
}

#[test]
fn type_codes_are_truncated_toward_zero() {
    assert_eq!(QueryType::from_f32(0.0f32.to_bits()), Ok(QueryType::VectorOnly));
    assert_eq!(QueryType::from_f32(1.0f32.to_bits()), Ok(QueryType::CategoricalConstraint));
    assert_eq!(QueryType::from_f32(2.0f32.to_bits()), Ok(QueryType::TimestampConstraint));
    assert_eq!(QueryType::from_f32(3.0f32.to_bits()), Ok(QueryType::BothConstraints));
    assert_eq!(QueryType::from_f32(1.99f32.to_bits()), Ok(QueryType::CategoricalConstraint));
    assert_eq!(QueryType::from_f32(3.999f32.to_bits()), Ok(QueryType::BothConstraints));
    assert_eq!(QueryType::from_f32((-0.75f32).to_bits()), Ok(QueryType::VectorOnly));
    assert_eq!(QueryType::from_f32(f32::NAN.to_bits()), Ok(QueryType::VectorOnly));
    for bad in [4.0f32, -1.0, -2.5, 7.0, 1.0e30, f32::INFINITY, f32::NEG_INFINITY] {
        assert_eq!(
            QueryType::from_f32(bad.to_bits()),
            Err(DatasetError::InvalidQueryType { raw: bad.to_bits() })
        );
    }
}

#[test]
fn minus_one_reads_as_unset() {
    let unset = OptionalFilterValue::new((-1.0f32).to_bits());
    assert_eq!(unset.value(), None);
    assert_eq!(unset.categorical_value(), None);
    let set = OptionalFilterValue::new(4.75f32.to_bits());
    assert_eq!(set.value(), Some(4.75f32.to_bits()));
    assert_eq!(set.categorical_value(), Some(4));
    let near = OptionalFilterValue::new((-1.0000001f32).to_bits());
    assert_eq!(near.value(), Some((-1.0000001f32).to_bits()));
    assert_eq!(near.categorical_value(), Some(-1));
    let zero = OptionalFilterValue::new(0);
    assert_eq!(zero.value(), Some(0));
    assert_eq!(zero.categorical_value(), Some(0));
}

#[test]
fn written_nodes_read_back_identically() {
    let values = [0.0f32, -0.0, 1.0, -1.0, f32::MIN_POSITIVE, f32::MAX, f32::MIN, 1.0e-45, 3.1415927];
    let mut vectors: Vec<Vec<u32>> = Vec::new();
    let mut c_attrs: Vec<u32> = Vec::new();
    let mut t_attrs: Vec<u32> = Vec::new();
    for i in 0..9usize {
        c_attrs.push(values[i].to_bits());
        t_attrs.push(values[(i + 3) % 9].to_bits());
        let mut vector: Vec<u32> = Vec::new();
        for j in 0..VECTOR_DIMENSIONS {
            vector.push((values[(i + j) % 9] * (j as f32 + 1.0)).to_bits());
        }
        vectors.push(vector);
    }
    let nodes = NodesDataset { num_vectors: 9, c_attrs, t_attrs, vectors };
    let bytes = nodes.write().unwrap();
    assert_eq!(bytes.len(), 4 + 9 * NODE_TOTAL_DIMENSIONS * 4);
    assert_eq!(&bytes[0..4], &[9, 0, 0, 0]);
    assert_eq!(&bytes[4..8], &0.0f32.to_le_bytes());
    assert_eq!(&bytes[12..16], &(0.0f32 * 1.0).to_le_bytes());
    let back = NodesDataset::read(&bytes).unwrap();
    assert_eq!(back.num_vectors, nodes.num_vectors);
    assert_eq!(back.c_attrs, nodes.c_attrs);
    assert_eq!(back.t_attrs, nodes.t_attrs);
    assert_eq!(back.vectors, nodes.vectors);
}

#[test]
fn writing_no_nodes_gives_the_header_alone() {
    let nodes = NodesDataset { num_vectors: 0, c_attrs: vec![], t_attrs: vec![], vectors: vec![] };
    assert_eq!(nodes.write(), Ok(vec![0u8, 0, 0, 0]));
}

#[test]
fn writing_rows_of_different_lengths_fails() {
    let nodes = NodesDataset {
        num_vectors: 3,
        c_attrs: vec![1, 2, 3],
        t_attrs: vec![4, 5, 6],
        vectors: vec![vec![7, 8], vec![9, 10], vec![11]],
    };
    assert_eq!(nodes.write(), Err(DatasetError::MismatchedVectorLength));
    assert!(DatasetError::MismatchedVectorLength.is_malformed());
    let short = NodesDataset {
        num_vectors: 2,
        c_attrs: vec![1, 2],
        t_attrs: vec![4, 5],
        vectors: vec![vec![0x0403_0201, 8], vec![9, 10]],
    };
    assert_eq!(
        short.write(),
        Ok(vec![
            2, 0, 0, 0, 1, 0, 0, 0, 4, 0, 0, 0, 1, 2, 3, 4, 8, 0, 0, 0, 2, 0, 0, 0, 5, 0, 0, 0, 9,
            0, 0, 0, 10, 0, 0, 0
        ])
    );
}

#[test]
fn result_rows_are_written_without_header() {
    let mut first: Vec<u32> = vec![0; K_NEAREST];
    let mut second: Vec<u32> = vec![0; K_NEAREST];
    first[0] = 0x0102_0304;
    first[99] = 7;
    second[1] = u32::MAX;
    let bytes = glasshouse::io::write(&vec![first, second]);
    assert_eq!(bytes.len(), 2 * K_NEAREST * 4);
    assert_eq!(&bytes[0..4], &[4, 3, 2, 1]);
    assert_eq!(&bytes[396..400], &[7, 0, 0, 0]);
    assert_eq!(&bytes[400..404], &[0, 0, 0, 0]);
    assert_eq!(&bytes[404..408], &[255, 255, 255, 255]);
    assert!(bytes[408..].iter().all(|b| *b == 0));
    assert_eq!(glasshouse::io::write(&vec![]), Vec::<u8>::new());
}

#[test]
fn words_are_little_endian() {
    let bytes = [0x78u8, 0x56, 0x34, 0x12, 0xff, 0xff, 0xff, 0xff, 1, 0, 0, 0];
    assert_eq!(read_word(&bytes, 0), 0x1234_5678);
    assert_eq!(read_word(&bytes, 1), u32::MAX);
    assert_eq!(read_words(&bytes, 1, 2), vec![u32::MAX, 1]);
    let mut out: Vec<u8> = Vec::new();
    push_word(&mut out, 0x1234_5678);
    push_words(&mut out, &vec![u32::MAX, 1]);
    assert_eq!(out, bytes.to_vec());
    assert_eq!(read_count(&bytes, 1), Ok(0x1234_5678).and(Err(DatasetError::Truncated)));
    assert_eq!(read_count(&[2, 0, 0, 0, 9, 9, 9, 9, 8, 8, 8, 8], 1), Ok(2));
    assert_eq!(read_count(&[2, 0, 0, 0, 9, 9, 9, 9, 8, 8, 8], 1), Err(DatasetError::Truncated));
    assert_eq!(QUERY_TOTAL_DIMENSIONS, 104);
}
