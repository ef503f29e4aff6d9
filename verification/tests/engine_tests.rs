use zeppelin::api::{validate_batch_size, validate_query_params};
use zeppelin::engine::{Engine, Scorer};
use zeppelin::manifest::{FragmentRef, Manifest, SegmentRef};
use zeppelin::filter::evaluate_filter;
use zeppelin::types::{AttributeValue, ConsistencyLevel, DistanceMetric, Filter, VectorEntry};
use zeppelin::wal::WalFragment;

struct F32Scorer;

fn dist(query: &[u32], values: &[u32], metric: DistanceMetric) -> f32 {
    let q: Vec<f32> = query.iter().map(|b| f32::from_bits(*b)).collect();
    let v: Vec<f32> = values.iter().map(|b| f32::from_bits(*b)).collect();
    match metric {
        DistanceMetric::Cosine => {
            let dot: f32 = q.iter().zip(v.iter()).map(|(a, b)| a * b).sum();
            let na: f32 = q.iter().map(|a| a * a).sum::<f32>().sqrt();
            let nb: f32 = v.iter().map(|a| a * a).sum::<f32>().sqrt();
            if na == 0.0 || nb == 0.0 {
                1.0
            } else {
                1.0 - dot / (na * nb)
            }
        }
        DistanceMetric::Euclidean => q.iter().zip(v.iter()).map(|(a, b)| (a - b) * (a - b)).sum(),
        DistanceMetric::DotProduct => -q.iter().zip(v.iter()).map(|(a, b)| a * b).sum::<f32>(),
    }
}

impl Scorer for F32Scorer {
    fn score(&self, query: &Vec<u32>, values: &Vec<u32>, metric: DistanceMetric) -> u32 {
        dist(query, values, metric).to_bits()
    }
}

fn bits(v: &[f32]) -> Vec<u32> {
    v.iter().map(|x| x.to_bits()).collect()
}

fn entry(id: &str, v: &[f32]) -> VectorEntry {
    VectorEntry { id: id.to_string(), values: bits(v), attributes: None }
}

fn entry_attr(id: &str, v: &[f32], field: &str, value: AttributeValue) -> VectorEntry {
    VectorEntry {
        id: id.to_string(),
        values: bits(v),
        attributes: Some(vec![(field.to_string(), value)]),
    }
}

#[test]
fn test_create_upsert_query_strong() {
    let mut e = Engine::new();
    let ns = "n".to_string();
    e.create_namespace(&ns, 4, DistanceMetric::Cosine).unwrap();
    e.upsert_vectors(&ns, vec![entry("v1", &[1.0, 0.0, 0.0, 0.0]), entry("v2", &[0.0, 1.0, 0.0, 0.0])])
        .unwrap();
    let resp = e
        .execute_query(&ns, &bits(&[1.0, 0.0, 0.0, 0.0]), 2, 4, None, ConsistencyLevel::Strong, &F32Scorer)
        .unwrap();
    assert_eq!(resp.scanned_fragments, 1);
    assert_eq!(resp.scanned_segments, 0);
    assert_eq!(resp.results.len(), 2);
    assert_eq!(resp.results[0].id, "v1");
    assert!(f32::from_bits(resp.results[0].score).abs() < 1e-5);
    assert_eq!(resp.results[1].id, "v2");
    assert!((f32::from_bits(resp.results[1].score) - 1.0).abs() < 1e-5);
}

#[test]
fn test_dimension_mismatch_no_side_effects() {
    let mut e = Engine::new();
    let ns = "n".to_string();
    e.create_namespace(&ns, 4, DistanceMetric::Cosine).unwrap();
    let r = e.execute_query(&ns, &bits(&[1.0, 0.0]), 1, 4, None, ConsistencyLevel::Strong, &F32Scorer);
    match r {
        Err(err) => assert_eq!(err.status_code(), 400),
        Ok(_) => panic!("expected a dimension mismatch"),
    }
    let bad = e.upsert_vectors(&ns, vec![entry("v1", &[1.0, 0.0])]);
    assert!(bad.is_err());
    let resp = e
        .execute_query(&ns, &bits(&[1.0, 0.0, 0.0, 0.0]), 5, 4, None, ConsistencyLevel::Strong, &F32Scorer)
        .unwrap();
    assert_eq!(resp.results.len(), 0);
}

#[test]
fn test_tombstone_honored_strong() {
    let mut e = Engine::new();
    let ns = "n".to_string();
    e.create_namespace(&ns, 2, DistanceMetric::Euclidean).unwrap();
    e.upsert_vectors(&ns, vec![entry("v1", &[1.0, 0.0])]).unwrap();
    e.delete_vectors(&ns, vec!["v1".to_string()]).unwrap();
    let resp = e
        .execute_query(&ns, &bits(&[1.0, 0.0]), 5, 4, None, ConsistencyLevel::Strong, &F32Scorer)
        .unwrap();
    assert!(resp.results.is_empty());
}

#[test]
fn test_filter_excludes_non_matching() {
    let mut e = Engine::new();
    let ns = "n".to_string();
    e.create_namespace(&ns, 2, DistanceMetric::Euclidean).unwrap();
    e.upsert_vectors(
        &ns,
        vec![
            entry_attr("a1", &[1.0, 0.0], "category", AttributeValue::String("a".to_string())),
            entry_attr("b1", &[0.0, 1.0], "category", AttributeValue::String("b".to_string())),
            entry_attr("a2", &[1.0, 1.0], "category", AttributeValue::String("a".to_string())),
        ],
    )
    .unwrap();
    let f = Filter::Eq { field: "category".to_string(), value: AttributeValue::String("a".to_string()) };
    let resp = e
        .execute_query(&ns, &bits(&[1.0, 0.0]), 10, 4, Some(&f), ConsistencyLevel::Strong, &F32Scorer)
        .unwrap();
    let mut ids: Vec<String> = resp.results.iter().map(|r| r.id.clone()).collect();
    ids.sort();
    assert_eq!(ids, vec!["a1".to_string(), "a2".to_string()]);
}

#[test]
fn test_filter_eq() {
    let attrs = vec![("color".to_string(), AttributeValue::String("red".to_string()))];
    let filter = Filter::Eq { field: "color".to_string(), value: AttributeValue::String("red".to_string()) };
    assert!(evaluate_filter(&filter, &attrs));
    let filter_miss =
        Filter::Eq { field: "color".to_string(), value: AttributeValue::String("blue".to_string()) };
    assert!(!evaluate_filter(&filter_miss, &attrs));
}

#[test]
fn test_filter_range() {
    let attrs = vec![("score".to_string(), AttributeValue::Integer(50))];
    let filter = Filter::Range {
        field: "score".to_string(),
        gte: Some(10.0f64.to_bits()),
        lte: Some(100.0f64.to_bits()),
        gt: None,
        lt: None,
    };
    assert!(evaluate_filter(&filter, &attrs));
    let filter_fail = Filter::Range {
        field: "score".to_string(),
        gte: Some(60.0f64.to_bits()),
        lte: None,
        gt: None,
        lt: None,
    };
    assert!(!evaluate_filter(&filter_fail, &attrs));
}

#[test]
fn test_filter_in() {
    let attrs = vec![("category".to_string(), AttributeValue::String("a".to_string()))];
    let filter = Filter::In {
        field: "category".to_string(),
        values: vec![
            AttributeValue::String("a".to_string()),
            AttributeValue::String("b".to_string()),
        ],
    };
    assert!(evaluate_filter(&filter, &attrs));
}

#[test]
fn test_filter_and() {
    let attrs = vec![
        ("category".to_string(), AttributeValue::String("a".to_string())),
        ("score".to_string(), AttributeValue::Integer(50)),
    ];
    let filter = Filter::And {
        filters: vec![
            Filter::Eq { field: "category".to_string(), value: AttributeValue::String("a".to_string()) },
            Filter::Range {
                field: "score".to_string(),
                gte: Some(40.0f64.to_bits()),
                lte: Some(60.0f64.to_bits()),
                gt: None,
                lt: None,
            },
        ],
    };
    assert!(evaluate_filter(&filter, &attrs));
}

#[test]
fn test_fragment_checksum_round_trip() {
    let f = WalFragment::new(
        vec![entry_attr("v1", &[1.0, 2.0], "k", AttributeValue::Integer(7))],
        vec!["gone".to_string()],
    );
    let data = f.to_bytes();
    let g = WalFragment::from_bytes(&data).unwrap();
    assert_eq!(g.checksum, f.checksum);
    assert_eq!(g.vectors.len(), 1);
    assert_eq!(g.deletes, vec!["gone".to_string()]);
    let mut corrupted = data.clone();
    let n = corrupted.len();
    corrupted[n - 20] ^= 0xff;
    assert!(WalFragment::from_bytes(&corrupted).is_err());
}

#[test]
fn test_namespace_crud() {
    let mut e = Engine::new();
    let ns = "alpha".to_string();
    let meta = e.create_namespace(&ns, 3, DistanceMetric::DotProduct).unwrap();
    assert_eq!(meta.dimensions, 3);
    assert!(e.create_namespace(&ns, 3, DistanceMetric::DotProduct).is_err());
    assert_eq!(e.list_namespaces().len(), 1);
    assert!(e.get_namespace(&ns).is_ok());
    e.delete_namespace(&ns).unwrap();
    assert!(e.get_namespace(&ns).is_err());
}

#[test]
fn test_empty_batch_rejected() {
    let mut e = Engine::new();
    let ns = "n".to_string();
    e.create_namespace(&ns, 2, DistanceMetric::Euclidean).unwrap();
    let r = e.upsert_vectors(&ns, vec![]);
    match r {
        Err(err) => assert_eq!(err.status_code(), 400),
        Ok(_) => panic!("expected an empty batch to be rejected"),
    }
    let resp = e
        .execute_query(&ns, &bits(&[0.0, 0.0]), 5, 4, None, ConsistencyLevel::Strong, &F32Scorer)
        .unwrap();
    assert_eq!(resp.scanned_fragments, 0);
}

#[test]
fn test_checksum_ignores_attribute_order() {
    let a1 = vec![
        ("alpha".to_string(), AttributeValue::Integer(1)),
        ("beta".to_string(), AttributeValue::Bool(true)),
    ];
    let a2 = vec![
        ("beta".to_string(), AttributeValue::Bool(true)),
        ("alpha".to_string(), AttributeValue::Integer(1)),
    ];
    let v1 = vec![VectorEntry { id: "v".to_string(), values: bits(&[1.0]), attributes: Some(a1) }];
    let v2 = vec![VectorEntry { id: "v".to_string(), values: bits(&[1.0]), attributes: Some(a2) }];
    let c1 = WalFragment::compute_checksum(&v1, &vec![]);
    let c2 = WalFragment::compute_checksum(&v2, &vec![]);
    assert_eq!(c1, c2);
    let c3 = WalFragment::compute_checksum(
        &vec![VectorEntry { id: "v".to_string(), values: bits(&[1.0]), attributes: None }],
        &vec![],
    );
    assert_ne!(c1, c3);
}

#[test]
fn test_validate_query_params() {
    assert_eq!(validate_query_params(10, 100, None, 8, 32).unwrap(), 8);
    assert_eq!(validate_query_params(10, 100, Some(64), 8, 32).unwrap(), 32);
    assert_eq!(validate_query_params(10, 100, Some(4), 8, 32).unwrap(), 4);
    assert!(validate_query_params(0, 100, None, 8, 32).is_err());
    assert!(validate_query_params(101, 100, None, 8, 32).is_err());
    assert!(validate_batch_size(0, 10).is_err());
    assert!(validate_batch_size(11, 10).is_err());
    assert!(validate_batch_size(10, 10).is_ok());
}

#[test]
fn test_query_results_unique_and_filtered() {
    let mut e = Engine::new();
    let ns = "n".to_string();
    e.create_namespace(&ns, 2, DistanceMetric::Euclidean).unwrap();
    e.upsert_vectors(
        &ns,
        vec![entry_attr("x", &[1.0, 0.0], "keep", AttributeValue::Bool(true))],
    )
    .unwrap();
    e.upsert_vectors(
        &ns,
        vec![entry_attr("x", &[2.0, 0.0], "keep", AttributeValue::Bool(false))],
    )
    .unwrap();
    let f = Filter::Eq { field: "keep".to_string(), value: AttributeValue::Bool(true) };
    let resp = e
        .execute_query(&ns, &bits(&[1.0, 0.0]), 5, 4, Some(&f), ConsistencyLevel::Strong, &F32Scorer)
        .unwrap();
    // the later upsert wins and fails the filter
    assert!(resp.results.is_empty());
}

#[test]
fn test_manifest_round_trip() {
    let mut m = Manifest::new();
    m.add_fragment(FragmentRef { id: 7, vector_count: 3, delete_count: 1 });
    m.add_fragment(FragmentRef { id: 9, vector_count: 0, delete_count: 2 });
    m.add_segment(SegmentRef { id: "seg-a".to_string(), vector_count: 5, cluster_count: 2 });
    let data = m.to_bytes();
    let g = Manifest::from_bytes(&data).unwrap();
    assert_eq!(g.fragments, m.fragments);
    assert_eq!(g.segments.len(), 1);
    assert_eq!(g.segments[0].id, "seg-a");
    assert_eq!(g.compaction_watermark, m.compaction_watermark);
    assert_eq!(g.active_segment, Some("seg-a".to_string()));
    assert_eq!(g.updated_at, m.updated_at);
    let mut corrupted = data.clone();
    corrupted.pop();
    assert!(Manifest::from_bytes(&corrupted).is_err());
}
