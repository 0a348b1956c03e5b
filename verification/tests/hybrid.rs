//! Merging dense and sparse hits.

use trondb::hybrid::{default_rrf_k, merge_ranks, sort_hits};
use trondb::search::Hit;
use trondb::value::LogicalId;

fn make_id(s: &str) -> LogicalId {
    LogicalId::from_string(s)
}

fn hits(list: &[(LogicalId, f32)]) -> Vec<Hit> {
    list.iter().map(|(id, s)| Hit { id: id.clone(), score: s.to_bits() }).collect()
}

/// The fusion as the engine makes it: the ranks and the order are the library's.
fn merge_rrf(dense: &[(LogicalId, f32)], sparse: &[(LogicalId, f32)], rrf_k: usize) -> Vec<(LogicalId, f32)> {
    let mut merged: Vec<Hit> = merge_ranks(&hits(dense), &hits(sparse))
        .into_iter()
        .map(|r| {
            let mut score = 0.0f32;
            for rank in &r.ranks {
                score += 1.0 / (rrf_k as f32 + *rank as f32);
            }
            Hit { id: r.id, score: score.to_bits() }
        })
        .collect();
    sort_hits(&mut merged);
    merged.into_iter().map(|h| (h.id, f32::from_bits(h.score))).collect()
}

#[test]
fn rrf_merge_overlapping_results() {
    let dense = vec![
        (make_id("e1"), 0.95),
        (make_id("e2"), 0.80),
        (make_id("e3"), 0.60),
    ];
    let sparse = vec![
        (make_id("e2"), 1.5),
        (make_id("e1"), 1.0),
        (make_id("e4"), 0.5),
    ];

    let merged = merge_rrf(&dense, &sparse, 60);

    let top_ids: Vec<&LogicalId> = merged.iter().map(|(id, _)| id).collect();
    assert!(top_ids.contains(&&make_id("e1")));
    assert!(top_ids.contains(&&make_id("e2")));
    assert_eq!(merged.len(), 4);
}

#[test]
fn rrf_merge_disjoint_results() {
    let dense = vec![(make_id("e1"), 0.9)];
    let sparse = vec![(make_id("e2"), 1.0)];

    let merged = merge_rrf(&dense, &sparse, 60);
    assert_eq!(merged.len(), 2);
    assert!((merged[0].1 - merged[1].1).abs() < 0.001);
}

#[test]
fn rrf_merge_empty_inputs() {
    let merged = merge_rrf(&[], &[], 60);
    assert!(merged.is_empty());

    let dense = vec![(make_id("e1"), 0.9)];
    let merged = merge_rrf(&dense, &[], 60);
    assert_eq!(merged.len(), 1);
}

#[test]
fn rrf_scores_decrease_with_rank() {
    let dense = vec![
        (make_id("e1"), 0.9),
        (make_id("e2"), 0.8),
        (make_id("e3"), 0.7),
    ];
    let merged = merge_rrf(&dense, &[], 60);
    assert!(merged[0].1 > merged[1].1);
    assert!(merged[1].1 > merged[2].1);
}

#[test]
fn entity_in_both_lists_ranks_higher_than_single() {
    let dense = vec![
        (make_id("e1"), 0.9),
        (make_id("e2"), 0.8),
    ];
    let sparse = vec![
        (make_id("e1"), 1.0),
        (make_id("e3"), 0.5),
    ];

    let merged = merge_rrf(&dense, &sparse, 60);
    assert_eq!(merged[0].0, make_id("e1"));
}

#[test]
fn ranks_are_gathered_per_entity() {
    let dense = hits(&[(make_id("a"), 0.9), (make_id("b"), 0.8)]);
    let sparse = hits(&[(make_id("c"), 3.0), (make_id("a"), 2.0)]);
    let ranked = merge_ranks(&dense, &sparse);
    let found: Vec<(String, Vec<usize>)> =
        ranked.iter().map(|r| (r.id.as_str().to_string(), r.ranks.clone())).collect();
    assert_eq!(
        found,
        vec![("a".to_string(), vec![1, 2]), ("b".to_string(), vec![2]), ("c".to_string(), vec![1])]
    );
    assert_eq!(default_rrf_k(), 60);
}

#[test]
fn equal_scores_keep_their_order() {
    let mut list = hits(&[(make_id("a"), 0.5), (make_id("b"), 0.9), (make_id("c"), 0.5), (make_id("d"), -0.0)]);
    list.push(Hit { id: make_id("e"), score: 0.0f32.to_bits() });
    sort_hits(&mut list);
    let names: Vec<&str> = list.iter().map(|h| h.id.as_str()).collect();
    assert_eq!(names, vec!["b", "a", "c", "d", "e"]);
}
