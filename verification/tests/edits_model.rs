//! Tests of the edit aggregate: road filters, turn legality, routing
//! projection, change detection, crossings and history.

use ltn_filters::{
    Crossing, CrossingType, DiagonalFilter, Edits, FilterType, RoadEditState, TravelFlow,
};

#[test]
fn place_and_remove_road_filter() {
    let mut e = Edits::new();
    assert!(e.road_filter(5).is_none());
    e.place_road_filter(5, 120, FilterType::WalkCycleOnly);
    let f = e.road_filter(5).unwrap();
    assert_eq!(f.dist, 120);
    assert_eq!(f.filter_type, FilterType::WalkCycleOnly);
    assert!(f.user_modified);
    e.remove_road_filter(5);
    assert!(e.road_filter(5).is_none());
}

#[test]
fn project_excludes_exactly_filtered_roads() {
    let mut e = Edits::new();
    e.place_road_filter(5, 0, FilterType::NoEntry);
    e.place_road_filter(7, 40, FilterType::BusGate);
    let c = e.project();
    assert!(c.excludes_road(5));
    assert!(c.excludes_road(7));
    assert!(!c.excludes_road(6));
}

#[test]
fn project_forbidden_movements_symmetric() {
    let mut e = Edits::new();
    let ring: Vec<u64> = vec![1, 2, 3, 4];
    let f = DiagonalFilter::new(10, &ring, 1, 2, FilterType::NoEntry);
    e.set_intersection_filter(f);
    let c = e.project();
    for a in [1u64, 2, 3, 4] {
        for b in [1u64, 2, 3, 4] {
            assert_eq!(c.forbids_movement(a, b), c.forbids_movement(b, a));
        }
    }
    assert!(c.forbids_movement(1, 3));
    assert!(c.forbids_movement(3, 1));
    assert!(c.forbids_movement(2, 4));
    assert!(!c.forbids_movement(1, 2));
    assert!(!c.forbids_movement(3, 4));
}

#[test]
fn update_routing_params_extends() {
    let mut e = Edits::new();
    e.place_road_filter(9, 10, FilterType::NoEntry);
    let mut c = ltn_filters::RoutingConstraints::new();
    e.update_routing_params(&mut c);
    assert!(c.excludes_road(9));
    let mut e2 = Edits::new();
    e2.place_road_filter(11, 10, FilterType::NoEntry);
    e2.update_routing_params(&mut c);
    assert!(c.excludes_road(9));
    assert!(c.excludes_road(11));
}

#[test]
fn allows_turn_defaults_to_true() {
    let e = Edits::new();
    assert!(e.allows_turn(10, 1, 3));
}

#[test]
fn allows_turn_follows_filter() {
    let mut e = Edits::new();
    let ring: Vec<u64> = vec![1, 2, 3, 4];
    e.set_intersection_filter(DiagonalFilter::new(10, &ring, 1, 2, FilterType::NoEntry));
    assert!(e.allows_turn(10, 1, 2));
    assert!(!e.allows_turn(10, 1, 3));
    // other intersections stay permissive
    assert!(e.allows_turn(11, 1, 3));
}

#[test]
fn change_key_restored_after_remove_and_readd() {
    let mut e = Edits::new();
    e.place_road_filter(5, 100, FilterType::SchoolStreet);
    let k1 = e.get_change_key();
    e.remove_road_filter(5);
    e.place_road_filter(5, 100, FilterType::SchoolStreet);
    let k2 = e.get_change_key();
    assert!(k1.same(&k2));
    assert!(k2.same(&k1));
}

#[test]
fn change_key_detects_changes() {
    let mut e = Edits::new();
    e.place_road_filter(5, 100, FilterType::SchoolStreet);
    let k1 = e.get_change_key();
    e.place_road_filter(5, 100, FilterType::NoEntry);
    let k2 = e.get_change_key();
    assert!(!k1.same(&k2));
    e.place_road_filter(6, 0, FilterType::NoEntry);
    let k3 = e.get_change_key();
    assert!(!k2.same(&k3));
    let mut e2 = Edits::new();
    e2.set_one_way(
        3,
        RoadEditState {
            flow: TravelFlow::OneWayForward,
            speed_limit: 5000,
        },
    );
    assert!(!Edits::new().get_change_key().same(&e2.get_change_key()));
}

#[test]
fn change_key_ignores_speed_limits_and_history() {
    let mut e = Edits::new();
    e.place_road_filter(5, 100, FilterType::NoEntry);
    let k1 = e.get_change_key();
    e.before_edit();
    e.set_speed_limit(8, 3000);
    let k2 = e.get_change_key();
    assert!(k1.same(&k2));
}

#[test]
fn one_way_and_speed_state_stored() {
    let mut e = Edits::new();
    let s = RoadEditState {
        flow: TravelFlow::OneWayBackward,
        speed_limit: 8000,
    };
    e.set_one_way(4, s);
    e.set_speed_limit(4, 8000);
    assert_eq!(e.one_way_state(4), Some(s));
    assert_eq!(e.speed_limit(4), Some(8000));
    assert_eq!(e.one_way_state(5), None);
}

#[test]
fn crossings_stay_sorted_by_distance() {
    let mut e = Edits::new();
    let c = |kind, dist| Crossing {
        kind,
        dist,
        user_modified: true,
    };
    e.add_crossing(7, c(CrossingType::Signalized, 50));
    e.add_crossing(7, c(CrossingType::Unsignalized, 10));
    e.add_crossing(7, c(CrossingType::Signalized, 30));
    e.add_crossing(7, c(CrossingType::Unsignalized, 30));
    let v = e.crossings_on(7).unwrap();
    let dists: Vec<u64> = v.iter().map(|x| x.dist).collect();
    assert_eq!(dists, vec![10, 30, 30, 50]);
    // an equal distance goes after the ones already there
    assert_eq!(v[1].kind, CrossingType::Signalized);
    assert_eq!(v[2].kind, CrossingType::Unsignalized);
    assert!(e.crossings_on(8).is_none());
}

#[test]
fn before_edit_and_undo_restore_state() {
    let mut e = Edits::new();
    e.place_road_filter(1, 10, FilterType::NoEntry);
    e.before_edit();
    e.place_road_filter(2, 20, FilterType::BusGate);
    e.remove_road_filter(1);
    assert!(e.road_filter(1).is_none());
    assert!(e.road_filter(2).is_some());
    assert!(e.undo());
    assert!(e.road_filter(1).is_some());
    assert!(e.road_filter(2).is_none());
    // no history left
    assert!(!e.undo());
    assert!(e.road_filter(1).is_some());
}
