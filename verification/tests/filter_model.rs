//! Tests of the leaf types and the diagonal-filter partition logic.

use ltn_filters::{DiagonalFilter, FilterType, RoadFilter};

#[test]
fn svg_path_values() {
    assert_eq!(
        FilterType::NoEntry.svg_path(),
        "system/assets/tools/no_entry.svg"
    );
    assert_eq!(
        FilterType::WalkCycleOnly.svg_path(),
        "system/assets/tools/modal_filter.svg"
    );
    assert_eq!(
        FilterType::BusGate.svg_path(),
        "system/assets/tools/bus_gate.svg"
    );
    assert_eq!(
        FilterType::SchoolStreet.svg_path(),
        "system/assets/tools/school_street.svg"
    );
}

#[test]
fn new_by_user_sets_fields() {
    let f = RoadFilter::new_by_user(250, FilterType::BusGate);
    assert_eq!(f.dist, 250);
    assert_eq!(f.filter_type, FilterType::BusGate);
    assert!(f.user_modified);
}

#[test]
fn four_way_partition() {
    let ring: Vec<u64> = vec![1, 2, 3, 4];
    let f = DiagonalFilter::new(10, &ring, 1, 2, FilterType::NoEntry);
    assert_eq!(f.group1_roads(), vec![1, 2]);
    assert_eq!(f.group2_roads(), vec![3, 4]);
    assert_eq!(f.intersection(), 10);
    assert_eq!(f.boundary_roads(), (1, 2));
    assert!(f.is_user_modified());
}

#[test]
fn four_way_partition_wraps_around() {
    let ring: Vec<u64> = vec![1, 2, 3, 4];
    let f = DiagonalFilter::new(10, &ring, 4, 1, FilterType::NoEntry);
    assert_eq!(f.group1_roads(), vec![4, 1]);
    assert_eq!(f.group2_roads(), vec![2, 3]);
}

#[test]
fn three_way_partition() {
    let ring: Vec<u64> = vec![7, 8, 9];
    let f = DiagonalFilter::new(3, &ring, 8, 9, FilterType::WalkCycleOnly);
    assert_eq!(f.group1_roads(), vec![8, 9]);
    assert_eq!(f.group2_roads(), vec![7]);
}

#[test]
fn boundary_order_two_ring() {
    // With exactly two roads the walk consumes the whole ring either way,
    // so both boundary orders build equivalent filters.
    let ring: Vec<u64> = vec![5, 6];
    let a = DiagonalFilter::new(1, &ring, 5, 6, FilterType::NoEntry);
    let b = DiagonalFilter::new(1, &ring, 6, 5, FilterType::NoEntry);
    assert!(a.approx_eq(&b));
    assert!(b.approx_eq(&a));
}

#[test]
fn equiv_is_symmetric() {
    let ring: Vec<u64> = vec![1, 2, 3, 4];
    let a = DiagonalFilter::new(10, &ring, 1, 2, FilterType::NoEntry);
    let b = DiagonalFilter::new(10, &ring, 2, 3, FilterType::NoEntry);
    assert_eq!(a.approx_eq(&b), b.approx_eq(&a));
    assert!(!a.approx_eq(&b));
    let c = DiagonalFilter::new(10, &ring, 1, 2, FilterType::NoEntry);
    assert_eq!(a.approx_eq(&c), c.approx_eq(&a));
    assert!(a.approx_eq(&c));
}

#[test]
fn equiv_ignores_filter_type() {
    let ring: Vec<u64> = vec![1, 2, 3, 4];
    let a = DiagonalFilter::new(10, &ring, 1, 2, FilterType::NoEntry);
    let b = DiagonalFilter::new(10, &ring, 1, 2, FilterType::BusGate);
    assert!(a.approx_eq(&b));
    // structural content still differs
    assert!(!a.same_content(&b));
}

#[test]
fn different_intersection_never_equivalent() {
    let ring: Vec<u64> = vec![1, 2, 3, 4];
    let a = DiagonalFilter::new(10, &ring, 1, 2, FilterType::NoEntry);
    let b = DiagonalFilter::new(11, &ring, 1, 2, FilterType::NoEntry);
    assert!(!a.approx_eq(&b));
}

#[test]
fn duplicate_matches_original() {
    let ring: Vec<u64> = vec![1, 2, 3, 4];
    let a = DiagonalFilter::new(10, &ring, 2, 3, FilterType::SchoolStreet);
    let b = a.duplicate();
    assert!(a.same_content(&b));
    assert!(a.approx_eq(&b));
}

#[test]
fn allows_turn_reflexive() {
    let ring: Vec<u64> = vec![1, 2, 3, 4];
    let f = DiagonalFilter::new(10, &ring, 1, 2, FilterType::NoEntry);
    for r in [1u64, 2, 3, 4, 99] {
        assert!(f.allows_turn(r, r));
    }
}

#[test]
fn allows_turn_symmetric() {
    let ring: Vec<u64> = vec![1, 2, 3, 4];
    let f = DiagonalFilter::new(10, &ring, 1, 2, FilterType::NoEntry);
    for a in [1u64, 2, 3, 4] {
        for b in [1u64, 2, 3, 4] {
            assert_eq!(f.allows_turn(a, b), f.allows_turn(b, a));
        }
    }
}

#[test]
fn allows_turn_within_groups_only() {
    let ring: Vec<u64> = vec![1, 2, 3, 4];
    let f = DiagonalFilter::new(10, &ring, 1, 2, FilterType::NoEntry);
    assert!(f.allows_turn(1, 2));
    assert!(f.allows_turn(3, 4));
    assert!(!f.allows_turn(1, 3));
    assert!(!f.allows_turn(1, 4));
    assert!(!f.allows_turn(2, 3));
    assert!(!f.allows_turn(2, 4));
}

#[test]
fn avoid_movements_cross_product_both_ways() {
    let ring: Vec<u64> = vec![1, 2, 3, 4];
    let f = DiagonalFilter::new(10, &ring, 1, 2, FilterType::NoEntry);
    let pairs = f.avoid_movements_between_roads();
    assert_eq!(pairs.len(), 8);
    for a in [1u64, 2] {
        for b in [3u64, 4] {
            assert!(pairs.contains(&(a, b)));
            assert!(pairs.contains(&(b, a)));
        }
    }
    assert!(!pairs.contains(&(1, 2)));
    assert!(!pairs.contains(&(3, 4)));
}
