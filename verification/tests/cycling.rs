//! Tests of the alternative-cycling controller.

use ltn_filters::{CandidateRoad, DiagonalFilter, Edits, FilterType};

fn cand(r: u64, eligible: bool, starts_at_i: bool, length: u64) -> CandidateRoad {
    CandidateRoad {
        r,
        eligible,
        starts_at_i,
        length,
    }
}

#[test]
fn four_way_cycles_through_three_states() {
    let mut e = Edits::new();
    let i = 10;
    let cands = vec![
        cand(1, true, true, 100),
        cand(2, true, false, 200),
        cand(3, true, true, 300),
        cand(4, true, false, 400),
    ];
    assert!(!e.has_intersection_filter(i));

    // first trigger: filter across the first two roads
    DiagonalFilter::cycle_through_alternatives(&mut e, i, &cands, FilterType::NoEntry);
    let g1 = e.intersection_filter_ref(i).unwrap().group1_roads();
    let g2 = e.intersection_filter_ref(i).unwrap().group2_roads();
    assert_eq!(g1, vec![1, 2]);
    assert_eq!(g2, vec![3, 4]);
    let first = e.intersection_filter_ref(i).unwrap().duplicate();

    // second trigger: filter across the second and third roads
    DiagonalFilter::cycle_through_alternatives(&mut e, i, &cands, FilterType::NoEntry);
    let g1 = e.intersection_filter_ref(i).unwrap().group1_roads();
    let g2 = e.intersection_filter_ref(i).unwrap().group2_roads();
    assert_eq!(g1, vec![2, 3]);
    assert_eq!(g2, vec![4, 1]);
    let second = e.intersection_filter_ref(i).unwrap().duplicate();
    assert!(!first.approx_eq(&second));

    // third trigger: back to no filter, and no road filters were touched
    DiagonalFilter::cycle_through_alternatives(&mut e, i, &cands, FilterType::NoEntry);
    assert!(!e.has_intersection_filter(i));
    for r in 1..=4u64 {
        assert!(e.road_filter(r).is_none());
    }
}

#[test]
fn three_way_round_robin() {
    let mut e = Edits::new();
    let i = 3;
    let cands = vec![
        cand(1, true, true, 100),
        cand(2, true, false, 200),
        cand(3, true, true, 300),
    ];

    // install on the first eligible road, at the end nearest the intersection
    DiagonalFilter::cycle_through_alternatives(&mut e, i, &cands, FilterType::NoEntry);
    assert_eq!(e.road_filter(1).unwrap().dist, 0);
    assert!(e.road_filter(2).is_none());
    assert!(!e.has_intersection_filter(i));

    // advance to the second; it ends at the intersection, so the filter
    // sits at its full length
    DiagonalFilter::cycle_through_alternatives(&mut e, i, &cands, FilterType::NoEntry);
    assert!(e.road_filter(1).is_none());
    assert_eq!(e.road_filter(2).unwrap().dist, 200);

    // advance to the third
    DiagonalFilter::cycle_through_alternatives(&mut e, i, &cands, FilterType::NoEntry);
    assert!(e.road_filter(2).is_none());
    assert_eq!(e.road_filter(3).unwrap().dist, 0);

    // and clear
    DiagonalFilter::cycle_through_alternatives(&mut e, i, &cands, FilterType::NoEntry);
    assert!(e.road_filter(1).is_none());
    assert!(e.road_filter(2).is_none());
    assert!(e.road_filter(3).is_none());
}

#[test]
fn round_robin_skips_ineligible_roads() {
    let mut e = Edits::new();
    let i = 3;
    let cands = vec![
        cand(1, true, true, 100),
        cand(2, false, false, 200),
        cand(3, true, false, 300),
    ];
    DiagonalFilter::cycle_through_alternatives(&mut e, i, &cands, FilterType::BusGate);
    assert!(e.road_filter(1).is_some());
    DiagonalFilter::cycle_through_alternatives(&mut e, i, &cands, FilterType::BusGate);
    assert!(e.road_filter(1).is_none());
    assert!(e.road_filter(2).is_none());
    let f = e.road_filter(3).unwrap();
    assert_eq!(f.dist, 300);
    assert_eq!(f.filter_type, FilterType::BusGate);
    DiagonalFilter::cycle_through_alternatives(&mut e, i, &cands, FilterType::BusGate);
    assert!(e.road_filter(3).is_none());
}

#[test]
fn no_eligible_road_is_a_noop() {
    let mut e = Edits::new();
    e.place_road_filter(9, 5, FilterType::NoEntry);
    let cands = vec![cand(1, false, true, 100), cand(2, false, false, 200)];
    let k1 = e.get_change_key();
    DiagonalFilter::cycle_through_alternatives(&mut e, 3, &cands, FilterType::NoEntry);
    let k2 = e.get_change_key();
    assert!(k1.same(&k2));
}

#[test]
fn single_candidate_is_a_noop() {
    let mut e = Edits::new();
    let cands = vec![cand(1, true, true, 100)];
    let k1 = e.get_change_key();
    DiagonalFilter::cycle_through_alternatives(&mut e, 3, &cands, FilterType::NoEntry);
    let k2 = e.get_change_key();
    assert!(k1.same(&k2));
    assert!(e.road_filter(1).is_none());
}

#[test]
fn two_way_intersection_round_robins() {
    let mut e = Edits::new();
    let cands = vec![cand(1, true, false, 150), cand(2, true, true, 250)];
    DiagonalFilter::cycle_through_alternatives(&mut e, 5, &cands, FilterType::WalkCycleOnly);
    assert_eq!(e.road_filter(1).unwrap().dist, 150);
    DiagonalFilter::cycle_through_alternatives(&mut e, 5, &cands, FilterType::WalkCycleOnly);
    assert!(e.road_filter(1).is_none());
    assert_eq!(e.road_filter(2).unwrap().dist, 0);
    DiagonalFilter::cycle_through_alternatives(&mut e, 5, &cands, FilterType::WalkCycleOnly);
    assert!(e.road_filter(2).is_none());
}

#[test]
fn four_way_cycle_uses_session_filter_type() {
    let mut e = Edits::new();
    let i = 10;
    let cands = vec![
        cand(1, true, true, 100),
        cand(2, true, false, 200),
        cand(3, true, true, 300),
        cand(4, true, false, 400),
    ];
    DiagonalFilter::cycle_through_alternatives(&mut e, i, &cands, FilterType::BusGate);
    assert_eq!(
        e.intersection_filter_ref(i).unwrap().filter_type,
        FilterType::BusGate
    );
    // the type does not take part in equivalence: cycling with another
    // type still recognises the state and advances
    DiagonalFilter::cycle_through_alternatives(&mut e, i, &cands, FilterType::NoEntry);
    let g1 = e.intersection_filter_ref(i).unwrap().group1_roads();
    assert_eq!(g1, vec![2, 3]);
}
