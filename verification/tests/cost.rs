//! Costs.

use trondb::cost::{breakdown, describe, AcuEstimate, AcuLineItem, ConstantCostProvider, CostProvider, ShownItem};

fn x(bits: u64) -> f64 {
    f64::from_bits(bits)
}

fn item(operation: &str, count: usize, unit_cost: f64) -> AcuLineItem {
    AcuLineItem {
        operation: operation.to_string(),
        count,
        unit_cost: unit_cost.to_bits(),
        total: (count as f64 * unit_cost).to_bits(),
    }
}

fn single(operation: &str, count: usize, unit_cost: f64) -> AcuEstimate {
    AcuEstimate::single(item(operation, count, unit_cost))
}

fn add(est: &mut AcuEstimate, operation: &str, count: usize, unit_cost: f64) {
    let line = item(operation, count, unit_cost);
    let sum = x(est.total_acu) + x(line.total);
    est.add(line, sum.to_bits());
}

fn shown(est: &AcuEstimate) -> Vec<ShownItem> {
    est.items
        .iter()
        .map(|i| ShownItem {
            count: i.count,
            operation: i.operation.clone(),
            unit_cost: format!("{:.1}", x(i.unit_cost)),
            total: format!("{:.1}", x(i.total)),
        })
        .collect()
}

#[test]
fn constant_provider_defaults() {
    let p = ConstantCostProvider;
    assert!((x(p.fetch_hot_acu()) - 1.0).abs() < f64::EPSILON);
    assert!((x(p.fetch_warm_acu()) - 25.0).abs() < f64::EPSILON);
    assert!((x(p.fetch_archive_acu()) - 100.0).abs() < f64::EPSILON);
    assert!((x(p.search_hnsw_acu()) - 50.0).abs() < f64::EPSILON);
    assert!((x(p.search_sparse_acu()) - 20.0).abs() < f64::EPSILON);
    assert!((x(p.search_hybrid_acu()) - 75.0).abs() < f64::EPSILON);
    assert!((x(p.search_natural_language_acu()) - 80.0).abs() < f64::EPSILON);
    assert!((x(p.full_scan_per_entity_acu()) - 0.5).abs() < f64::EPSILON);
    assert!((x(p.field_index_lookup_acu()) - 2.0).abs() < f64::EPSILON);
    assert!((x(p.traverse_hop_acu()) - 3.0).abs() < f64::EPSILON);
    assert!((x(p.infer_acu()) - 60.0).abs() < f64::EPSILON);
    assert!((x(p.pre_filter_acu()) - 5.0).abs() < f64::EPSILON);
    assert!((x(p.two_pass_rescore_acu()) - 15.0).abs() < f64::EPSILON);
    assert!((x(p.promotion_acu()) - 30.0).abs() < f64::EPSILON);
    assert!((x(p.write_base_acu()) - 5.0).abs() < f64::EPSILON);
}

#[test]
fn acu_estimate_zero() {
    let est = AcuEstimate::zero();
    assert_eq!(est.items.len(), 0);
    assert!((x(est.total_acu) - 0.0).abs() < f64::EPSILON);
}

#[test]
fn acu_estimate_single() {
    let est = single("fetch_hot", 10, 1.0);
    assert_eq!(est.items.len(), 1);
    assert!((x(est.total_acu) - 10.0).abs() < f64::EPSILON);
    assert_eq!(est.items[0].operation, "fetch_hot");
    assert_eq!(est.items[0].count, 10);
}

#[test]
fn acu_estimate_add() {
    let mut est = AcuEstimate::zero();
    add(&mut est, "search_hnsw", 1, 50.0);
    add(&mut est, "fetch_hot", 10, 1.0);
    assert_eq!(est.items.len(), 2);
    assert!((x(est.total_acu) - 60.0).abs() < f64::EPSILON);
}

#[test]
fn acu_estimate_merge() {
    let mut est1 = single("search_hnsw", 1, 50.0);
    let est2 = single("fetch_hot", 10, 1.0);
    let sum = x(est1.total_acu) + x(est2.total_acu);
    est1.merge(&est2, sum.to_bits());
    assert_eq!(est1.items.len(), 2);
    assert!((x(est1.total_acu) - 60.0).abs() < f64::EPSILON);
    assert_eq!(est1.items[1].operation, "fetch_hot");
}

#[test]
fn acu_estimate_display() {
    let mut est = AcuEstimate::zero();
    add(&mut est, "search_hnsw", 1, 50.0);
    add(&mut est, "fetch_hot", 5, 1.0);
    let display = describe(&shown(&est), &format!("{:.1}", x(est.total_acu)));
    assert!(display.contains("search_hnsw"));
    assert!(display.contains("fetch_hot"));
    assert!(display.contains("TOTAL: 55.0 ACU"));
    assert_eq!(
        display,
        "  1 x search_hnsw @ 50.0 ACU = 50.0 ACU\n  5 x fetch_hot @ 1.0 ACU = 5.0 ACU\n  TOTAL: 55.0 ACU"
    );
}

#[test]
fn custom_cost_provider() {
    struct ExpensiveProvider;
    impl CostProvider for ExpensiveProvider {
        fn fetch_hot_acu(&self) -> u64 {
            10.0f64.to_bits()
        }
    }
    let p = ExpensiveProvider;
    assert!((x(p.fetch_hot_acu()) - 10.0).abs() < f64::EPSILON);
    assert!((x(p.fetch_warm_acu()) - 25.0).abs() < f64::EPSILON);
}

#[test]
fn breakdown_joins_the_lines() {
    let mut est = AcuEstimate::zero();
    assert_eq!(breakdown(&shown(&est)), "");
    add(&mut est, "search_hnsw", 1, 50.0);
    add(&mut est, "fetch_hot", 10, 1.0);
    assert_eq!(breakdown(&shown(&est)), "1x search_hnsw @ 50.0 = 50.0; 10x fetch_hot @ 1.0 = 10.0");
}
