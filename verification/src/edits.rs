//! The aggregate edit state: road filters, diagonal filters, directional
//! and speed overrides, crossings, and a linear undo history; plus the
//! projection of the filters onto a routing model and change detection.

use vstd::prelude::*;

use crate::diagonal::{
    cross_groups, diag_wf, spec_allows_turn, DiagModel, DiagonalFilter,
};
use crate::filters::{
    Crossing, DistanceMm, FilterType, IntersectionID, RoadEditState, RoadFilter, RoadID, Speed,
};
use crate::table::{has_key, key_idx, keys_of, map_of, Table};

verus! {

/// One edit layer: the five legality-relevant mappings, without history.
#[verifier::ext_equal]
pub ghost struct LayerModel {
    pub roads: Map<u64, RoadFilter>,
    pub intersections: Map<u64, DiagModel>,
    pub one_ways: Map<u64, RoadEditState>,
    pub speed_limits: Map<u64, Speed>,
    pub crossings: Map<u64, Seq<Crossing>>,
}

/// Mathematical model of the whole edit state: the current layer and the
/// history of earlier layers, oldest first.
#[verifier::ext_equal]
pub ghost struct EditsModel {
    pub roads: Map<u64, RoadFilter>,
    pub intersections: Map<u64, DiagModel>,
    pub one_ways: Map<u64, RoadEditState>,
    pub speed_limits: Map<u64, Speed>,
    pub crossings: Map<u64, Seq<Crossing>>,
    pub history: Seq<LayerModel>,
}

/// Model of a change key: the four legality-relevant mappings.
#[verifier::ext_equal]
pub ghost struct ChangeKeyModel {
    pub roads: Map<u64, RoadFilter>,
    pub intersections: Map<u64, DiagModel>,
    pub one_ways: Map<u64, RoadEditState>,
    pub crossings: Map<u64, Seq<Crossing>>,
}

/// Model of routing constraints: excluded roads and forbidden ordered
/// movements.
#[verifier::ext_equal]
pub ghost struct ConstraintsModel {
    pub avoid_roads: Seq<RoadID>,
    pub avoid_movements_between: Seq<(RoadID, RoadID)>,
}

/// A map of diagonal filters, seen at the model level.
pub open spec fn diag_map_view(m: Map<u64, DiagonalFilter>) -> Map<u64, DiagModel> {
    Map::new(|k: u64| m.contains_key(k), |k: u64| m[k]@)
}

/// A map of crossing lists, seen at the model level.
pub open spec fn crossings_map_view(m: Map<u64, Vec<Crossing>>) -> Map<u64, Seq<Crossing>> {
    Map::new(|k: u64| m.contains_key(k), |k: u64| m[k]@)
}

/// A road's crossings are kept sorted by increasing distance.
pub open spec fn crossings_sorted(s: Seq<Crossing>) -> bool {
    forall|a: int, b: int| 0 <= a < b < s.len() ==> s[a].dist <= s[b].dist
}

pub open spec fn with_roads(e: EditsModel, roads: Map<u64, RoadFilter>) -> EditsModel {
    EditsModel {
        roads,
        intersections: e.intersections,
        one_ways: e.one_ways,
        speed_limits: e.speed_limits,
        crossings: e.crossings,
        history: e.history,
    }
}

pub open spec fn with_intersections(e: EditsModel, m: Map<u64, DiagModel>) -> EditsModel {
    EditsModel {
        roads: e.roads,
        intersections: m,
        one_ways: e.one_ways,
        speed_limits: e.speed_limits,
        crossings: e.crossings,
        history: e.history,
    }
}

pub open spec fn with_one_ways(e: EditsModel, m: Map<u64, RoadEditState>) -> EditsModel {
    EditsModel {
        roads: e.roads,
        intersections: e.intersections,
        one_ways: m,
        speed_limits: e.speed_limits,
        crossings: e.crossings,
        history: e.history,
    }
}

pub open spec fn with_speed_limits(e: EditsModel, m: Map<u64, Speed>) -> EditsModel {
    EditsModel {
        roads: e.roads,
        intersections: e.intersections,
        one_ways: e.one_ways,
        speed_limits: m,
        crossings: e.crossings,
        history: e.history,
    }
}

pub open spec fn with_crossings(e: EditsModel, m: Map<u64, Seq<Crossing>>) -> EditsModel {
    EditsModel {
        roads: e.roads,
        intersections: e.intersections,
        one_ways: e.one_ways,
        speed_limits: e.speed_limits,
        crossings: m,
        history: e.history,
    }
}

pub open spec fn with_history(e: EditsModel, h: Seq<LayerModel>) -> EditsModel {
    EditsModel {
        roads: e.roads,
        intersections: e.intersections,
        one_ways: e.one_ways,
        speed_limits: e.speed_limits,
        crossings: e.crossings,
        history: h,
    }
}

/// The current layer of an edit state.
pub open spec fn layer_of(e: EditsModel) -> LayerModel {
    LayerModel {
        roads: e.roads,
        intersections: e.intersections,
        one_ways: e.one_ways,
        speed_limits: e.speed_limits,
        crossings: e.crossings,
    }
}

/// The four mappings change detection watches; history and speed limits
/// are excluded.
pub open spec fn change_key_of(e: EditsModel) -> ChangeKeyModel {
    ChangeKeyModel {
        roads: e.roads,
        intersections: e.intersections,
        one_ways: e.one_ways,
        crossings: e.crossings,
    }
}

/// A turn at intersection `i` is allowed unless a diagonal filter there
/// puts the two roads on different sides; no filter means allowed.
pub open spec fn spec_edits_allows_turn(
    e: EditsModel,
    i: IntersectionID,
    from: RoadID,
    to: RoadID,
) -> bool {
    if e.intersections.contains_key(i) {
        spec_allows_turn(e.intersections[i], from, to)
    } else {
        true
    }
}

/// An ordered movement is forbidden when some diagonal filter crosses it.
pub open spec fn spec_forbidden(e: EditsModel, from: RoadID, to: RoadID) -> bool {
    exists|k: u64| #[trigger] e.intersections.contains_key(k) && cross_groups(
        e.intersections[k],
        from,
        to,
    )
}

/// What `project` produces: the excluded roads are exactly the filtered
/// roads, and the forbidden movements exactly the cross-group movements of
/// the diagonal filters.
pub open spec fn is_projection(c: ConstraintsModel, e: EditsModel) -> bool {
    (forall|r: RoadID| #[trigger] c.avoid_roads.contains(r) <==> e.roads.contains_key(r))
        && (forall|from: RoadID, to: RoadID| #[trigger]
        c.avoid_movements_between.contains((from, to)) <==> spec_forbidden(e, from, to))
}

/// In any projection, a movement is forbidden exactly when its reverse is.
pub proof fn lemma_projection_symmetric(
    c: ConstraintsModel,
    e: EditsModel,
    from: RoadID,
    to: RoadID,
)
    requires
        is_projection(c, e),
    ensures
        c.avoid_movements_between.contains((from, to)) == c.avoid_movements_between.contains(
            (to, from),
        ),
{
    if spec_forbidden(e, from, to) {
        let k = choose|k: u64|
            #[trigger] e.intersections.contains_key(k) && cross_groups(
                e.intersections[k],
                from,
                to,
            );
        assert(e.intersections.contains_key(k) && cross_groups(e.intersections[k], to, from));
    }
    if spec_forbidden(e, to, from) {
        let k = choose|k: u64|
            #[trigger] e.intersections.contains_key(k) && cross_groups(
                e.intersections[k],
                to,
                from,
            );
        assert(e.intersections.contains_key(k) && cross_groups(e.intersections[k], from, to));
    }
}

/// Removing a road filter and re-adding an equal one restores the same
/// change key as before the removal.
pub proof fn lemma_change_key_restore(e: EditsModel, r: RoadID)
    requires
        e.roads.contains_key(r),
    ensures
        ({
            let f = e.roads[r];
            let e2 = with_roads(e, e.roads.remove(r));
            let e3 = with_roads(e2, e2.roads.insert(r, f));
            change_key_of(e3) == change_key_of(e)
        }),
{
    let f = e.roads[r];
    assert(e.roads.remove(r).insert(r, f) =~= e.roads);
}

/// The crossings recorded on road `r`; none recorded means none.
pub open spec fn crossings_of(e: EditsModel, r: RoadID) -> Seq<Crossing> {
    if e.crossings.contains_key(r) {
        e.crossings[r]
    } else {
        Seq::<Crossing>::empty()
    }
}

/// `pos` is the place a crossing at distance `c.dist` belongs in the
/// sorted sequence `s0`: after every crossing at most as far, before the
/// first one strictly farther.
pub open spec fn sorted_insert_at(s0: Seq<Crossing>, c: Crossing, pos: int) -> bool {
    0 <= pos <= s0.len() && (forall|l: int| 0 <= l < pos ==> s0[l].dist <= c.dist) && (pos
        == s0.len() || s0[pos].dist > c.dist)
}

/// Pushing onto a sequence adds exactly one possible member.
proof fn lemma_push_contains<T>(s: Seq<T>, v: T, x: T)
    ensures
        s.push(v).contains(x) <==> (s.contains(x) || x == v),
{
    assert(s.push(v)[s.len() as int] == v);
    if s.contains(x) {
        let w = choose|w: int| 0 <= w < s.len() && s[w] == x;
        assert(s.push(v)[w] == x);
    }
    if s.push(v).contains(x) && x != v {
        let w = choose|w: int| 0 <= w < s.push(v).len() && s.push(v)[w] == x;
        assert(s[w] == x);
    }
}

/// A fresh vector with the same crossings.
fn copy_crossing_vec(v: &Vec<Crossing>) -> (r: Vec<Crossing>)
    ensures
        r@ == v@,
{
    let mut r: Vec<Crossing> = Vec::new();
    let mut j: usize = 0;
    while j < v.len()
        invariant
            j <= v@.len(),
            r@ == v@.subrange(0, j as int),
        decreases v@.len() - j,
    {
        r.push(v[j]);
        proof {
            assert(r@ =~= v@.subrange(0, j + 1 as int));
        }
        j = j + 1;
    }
    proof {
        assert(r@ =~= v@);
    }
    r
}

/// Are two crossing vectors equal element for element?
fn crossing_vec_eq(a: &Vec<Crossing>, b: &Vec<Crossing>) -> (r: bool)
    ensures
        r == (a@ == b@),
{
    if a.len() != b.len() {
        return false;
    }
    let mut j: usize = 0;
    while j < a.len()
        invariant
            j <= a@.len(),
            a@.len() == b@.len(),
            forall|l: int| 0 <= l < j ==> a@[l] == b@[l],
        decreases a@.len() - j,
    {
        if a[j] != b[j] {
            return false;
        }
        j = j + 1;
    }
    proof {
        assert(a@ =~= b@);
    }
    true
}

/// Two well-formed diagonal-filter tables whose pairs agree key for key
/// and view for view have the same model map.
proof fn lemma_diag_tables_view(t: Table<DiagonalFilter>, r: Table<DiagonalFilter>)
    requires
        t.wf(),
        r.wf(),
        r.pair_seq().len() == t.pair_seq().len(),
        forall|l: int|
            0 <= l < t.pair_seq().len() ==> (#[trigger] r.pair_seq()[l].0 == t.pair_seq()[l].0
                && r.pair_seq()[l].1@ == t.pair_seq()[l].1@),
    ensures
        diag_map_view(r@) == diag_map_view(t@),
{
    let ts = t.pair_seq();
    let rs = r.pair_seq();
    t.lemma_view();
    r.lemma_view();
    t.lemma_wf();
    r.lemma_wf();
    assert forall|k: u64| has_key(rs, k) <==> has_key(ts, k) by {
        if has_key(rs, k) {
            let w = choose|w: int| 0 <= w < rs.len() && rs[w].0 == k;
            assert(ts[w].0 == k);
        }
        if has_key(ts, k) {
            let w = choose|w: int| 0 <= w < ts.len() && ts[w].0 == k;
            assert(rs[w].0 == k);
        }
    };
    assert forall|k: u64| #[trigger]
        map_of(rs).contains_key(k) implies map_of(rs)[k]@ == map_of(ts)[k]@ by {
        let wr = key_idx(rs, k);
        assert(0 <= wr < rs.len() && rs[wr].0 == k);
        let wt = key_idx(ts, k);
        assert(0 <= wt < ts.len() && ts[wt].0 == k);
        assert(keys_of(rs)[wr] == k && keys_of(rs)[wt] == rs[wt].0);
        assert(rs[wt].0 == ts[wt].0 == k);
        assert(wr == wt);
        assert(rs[wr].1@ == ts[wt].1@);
    };
    assert(diag_map_view(r@) =~= diag_map_view(t@));
}

/// The same, for crossing tables.
proof fn lemma_crossing_tables_view(t: Table<Vec<Crossing>>, r: Table<Vec<Crossing>>)
    requires
        t.wf(),
        r.wf(),
        r.pair_seq().len() == t.pair_seq().len(),
        forall|l: int|
            0 <= l < t.pair_seq().len() ==> (#[trigger] r.pair_seq()[l].0 == t.pair_seq()[l].0
                && r.pair_seq()[l].1@ == t.pair_seq()[l].1@),
    ensures
        crossings_map_view(r@) == crossings_map_view(t@),
{
    let ts = t.pair_seq();
    let rs = r.pair_seq();
    t.lemma_view();
    r.lemma_view();
    t.lemma_wf();
    r.lemma_wf();
    assert forall|k: u64| has_key(rs, k) <==> has_key(ts, k) by {
        if has_key(rs, k) {
            let w = choose|w: int| 0 <= w < rs.len() && rs[w].0 == k;
            assert(ts[w].0 == k);
        }
        if has_key(ts, k) {
            let w = choose|w: int| 0 <= w < ts.len() && ts[w].0 == k;
            assert(rs[w].0 == k);
        }
    };
    assert forall|k: u64| #[trigger]
        map_of(rs).contains_key(k) implies map_of(rs)[k]@ == map_of(ts)[k]@ by {
        let wr = key_idx(rs, k);
        assert(0 <= wr < rs.len() && rs[wr].0 == k);
        let wt = key_idx(ts, k);
        assert(0 <= wt < ts.len() && ts[wt].0 == k);
        assert(keys_of(rs)[wr] == k && keys_of(rs)[wt] == rs[wt].0);
        assert(rs[wt].0 == ts[wt].0 == k);
        assert(wr == wt);
        assert(rs[wr].1@ == ts[wt].1@);
    };
    assert(crossings_map_view(r@) =~= crossings_map_view(t@));
}

/// A fresh diagonal-filter table with the same model map.
fn duplicate_diag_table(t: &Table<DiagonalFilter>) -> (r: Table<DiagonalFilter>)
    requires
        t.wf(),
    ensures
        r.wf(),
        diag_map_view(r@) == diag_map_view(t@),
{
    let mut r: Table<DiagonalFilter> = Table::new();
    let n = t.len();
    let mut j: usize = 0;
    while j < n
        invariant
            n == t.pair_seq().len(),
            j <= n,
            t.wf(),
            r.wf(),
            r.pair_seq().len() == j,
            forall|l: int|
                0 <= l < j ==> (#[trigger] r.pair_seq()[l].0 == t.pair_seq()[l].0
                    && r.pair_seq()[l].1@ == t.pair_seq()[l].1@),
        decreases n - j,
    {
        let p = t.borrow_at(j);
        let copy = p.1.duplicate();
        proof {
            r.lemma_key(p.0);
            t.lemma_wf();
            if has_key(r.pair_seq(), p.0) {
                let w = choose|w: int| 0 <= w < r.pair_seq().len() && r.pair_seq()[w].0 == p.0;
                assert(keys_of(t.pair_seq())[w] == t.pair_seq()[w].0);
                assert(keys_of(t.pair_seq())[j as int] == p.0);
                assert(false);
            }
        }
        r.push_pair(p.0, copy);
        j = j + 1;
    }
    proof {
        lemma_diag_tables_view(*t, r);
    }
    r
}

/// A fresh crossing table with the same model map.
fn duplicate_crossing_table(t: &Table<Vec<Crossing>>) -> (r: Table<Vec<Crossing>>)
    requires
        t.wf(),
    ensures
        r.wf(),
        crossings_map_view(r@) == crossings_map_view(t@),
{
    let mut r: Table<Vec<Crossing>> = Table::new();
    let n = t.len();
    let mut j: usize = 0;
    while j < n
        invariant
            n == t.pair_seq().len(),
            j <= n,
            t.wf(),
            r.wf(),
            r.pair_seq().len() == j,
            forall|l: int|
                0 <= l < j ==> (#[trigger] r.pair_seq()[l].0 == t.pair_seq()[l].0
                    && r.pair_seq()[l].1@ == t.pair_seq()[l].1@),
        decreases n - j,
    {
        let p = t.borrow_at(j);
        let copy = copy_crossing_vec(&p.1);
        proof {
            r.lemma_key(p.0);
            t.lemma_wf();
            if has_key(r.pair_seq(), p.0) {
                let w = choose|w: int| 0 <= w < r.pair_seq().len() && r.pair_seq()[w].0 == p.0;
                assert(keys_of(t.pair_seq())[w] == t.pair_seq()[w].0);
                assert(keys_of(t.pair_seq())[j as int] == p.0);
                assert(false);
            }
        }
        r.push_pair(p.0, copy);
        j = j + 1;
    }
    proof {
        lemma_crossing_tables_view(*t, r);
    }
    r
}

/// One saved history layer.
pub struct EditsSnapshot {
    roads: Table<RoadFilter>,
    intersections: Table<DiagonalFilter>,
    one_ways: Table<RoadEditState>,
    speed_limits: Table<Speed>,
    crossings: Table<Vec<Crossing>>,
}

impl View for EditsSnapshot {
    type V = LayerModel;

    closed spec fn view(&self) -> LayerModel {
        LayerModel {
            roads: self.roads@,
            intersections: diag_map_view(self.intersections@),
            one_ways: self.one_ways@,
            speed_limits: self.speed_limits@,
            crossings: crossings_map_view(self.crossings@),
        }
    }
}

impl EditsSnapshot {
    pub closed spec fn wf(self) -> bool {
        self.roads.wf() && self.intersections.wf() && self.one_ways.wf() && self.speed_limits.wf()
            && self.crossings.wf() && (forall|k: u64| #[trigger]
            self@.intersections.contains_key(k) ==> diag_wf(self@.intersections[k])) && (forall|
            k: u64,
        | #[trigger]
            self@.crossings.contains_key(k) ==> crossings_sorted(self@.crossings[k]))
    }
}

/// The whole edit state. Call `before_edit` before any logical mutation,
/// so the pre-mutation state lands in the history.
pub struct Edits {
    roads: Table<RoadFilter>,
    intersections: Table<DiagonalFilter>,
    one_ways: Table<RoadEditState>,
    speed_limits: Table<Speed>,
    crossings: Table<Vec<Crossing>>,
    previous_version: Vec<EditsSnapshot>,
}

impl View for Edits {
    type V = EditsModel;

    closed spec fn view(&self) -> EditsModel {
        EditsModel {
            roads: self.roads@,
            intersections: diag_map_view(self.intersections@),
            one_ways: self.one_ways@,
            speed_limits: self.speed_limits@,
            crossings: crossings_map_view(self.crossings@),
            history: Seq::new(self.previous_version@.len(), |j: int| self.previous_version@[j]@),
        }
    }
}

impl Edits {
    /// The internal invariant: distinct keys in every table, well-formed
    /// diagonal filters, sorted crossings, and the same for every saved
    /// layer.
    pub closed spec fn wf(self) -> bool {
        self.roads.wf() && self.intersections.wf() && self.one_ways.wf() && self.speed_limits.wf()
            && self.crossings.wf() && (forall|k: u64| #[trigger]
            self@.intersections.contains_key(k) ==> diag_wf(self@.intersections[k])) && (forall|
            k: u64,
        | #[trigger]
            self@.crossings.contains_key(k) ==> crossings_sorted(self@.crossings[k])) && (forall|
            j: int,
        |
            0 <= j < self.previous_version@.len() ==> (#[trigger] self.previous_version@[j]).wf())
    }

    /// An empty edit state.
    pub fn new() -> (e: Edits)
        ensures
            e.wf(),
            e@.roads == Map::<u64, RoadFilter>::empty(),
            e@.intersections == Map::<u64, DiagModel>::empty(),
            e@.one_ways == Map::<u64, RoadEditState>::empty(),
            e@.speed_limits == Map::<u64, Speed>::empty(),
            e@.crossings == Map::<u64, Seq<Crossing>>::empty(),
            e@.history == Seq::<LayerModel>::empty(),
    {
        let e = Edits {
            roads: Table::new(),
            intersections: Table::new(),
            one_ways: Table::new(),
            speed_limits: Table::new(),
            crossings: Table::new(),
            previous_version: Vec::new(),
        };
        proof {
            assert(e@.intersections =~= Map::<u64, DiagModel>::empty());
            assert(e@.crossings =~= Map::<u64, Seq<Crossing>>::empty());
            assert(e@.history =~= Seq::<LayerModel>::empty());
        }
        e
    }

    /// Place (or overwrite) a road filter: a fresh user-placed filter of
    /// the given kind at the given distance along the road.
    pub fn place_road_filter(&mut self, r: RoadID, dist: DistanceMm, filter_type: FilterType)
        requires
            old(self).wf(),
        ensures
            final(self).wf(),
            final(self)@ == with_roads(
                old(self)@,
                old(self)@.roads.insert(
                    r,
                    RoadFilter { dist, filter_type, user_modified: true },
                ),
            ),
    {
        let f = RoadFilter::new_by_user(dist, filter_type);
        self.roads.insert(r, f);
        proof {
            assert(self@ =~= with_roads(old(self)@, old(self)@.roads.insert(r, f)));
        }
    }

    /// Remove the road filter on `r`, if any.
    pub fn remove_road_filter(&mut self, r: RoadID)
        requires
            old(self).wf(),
        ensures
            final(self).wf(),
            final(self)@ == with_roads(old(self)@, old(self)@.roads.remove(r)),
    {
        self.roads.remove(r);
        proof {
            assert(self@ =~= with_roads(old(self)@, old(self)@.roads.remove(r)));
        }
    }

    /// The road filter on `r`, if any.
    pub fn road_filter(&self, r: RoadID) -> (f: Option<RoadFilter>)
        requires
            self.wf(),
        ensures
            f == (if self@.roads.contains_key(r) {
                Some(self@.roads[r])
            } else {
                None::<RoadFilter>
            }),
    {
        self.roads.get_copy(r)
    }

    /// Record a road's edited direction or speed state.
    pub fn set_one_way(&mut self, r: RoadID, state: RoadEditState)
        requires
            old(self).wf(),
        ensures
            final(self).wf(),
            final(self)@ == with_one_ways(old(self)@, old(self)@.one_ways.insert(r, state)),
    {
        self.one_ways.insert(r, state);
        proof {
            assert(self@ =~= with_one_ways(old(self)@, old(self)@.one_ways.insert(r, state)));
        }
    }

    /// Record a road's edited speed limit.
    pub fn set_speed_limit(&mut self, r: RoadID, s: Speed)
        requires
            old(self).wf(),
        ensures
            final(self).wf(),
            final(self)@ == with_speed_limits(old(self)@, old(self)@.speed_limits.insert(r, s)),
    {
        self.speed_limits.insert(r, s);
        proof {
            assert(self@ =~= with_speed_limits(old(self)@, old(self)@.speed_limits.insert(r, s)));
        }
    }

    /// The recorded direction/speed state of road `r`, if any.
    pub fn one_way_state(&self, r: RoadID) -> (s: Option<RoadEditState>)
        requires
            self.wf(),
        ensures
            s == (if self@.one_ways.contains_key(r) {
                Some(self@.one_ways[r])
            } else {
                None::<RoadEditState>
            }),
    {
        self.one_ways.get_copy(r)
    }

    /// The recorded speed limit of road `r`, if any.
    pub fn speed_limit(&self, r: RoadID) -> (s: Option<Speed>)
        requires
            self.wf(),
        ensures
            s == (if self@.speed_limits.contains_key(r) {
                Some(self@.speed_limits[r])
            } else {
                None::<Speed>
            }),
    {
        self.speed_limits.get_copy(r)
    }

    /// Is there a diagonal filter at intersection `i`?
    pub fn has_intersection_filter(&self, i: IntersectionID) -> (r: bool)
        requires
            self.wf(),
        ensures
            r == self@.intersections.contains_key(i),
    {
        self.intersections.contains_key(i)
    }

    /// Borrow the diagonal filter at `i`, if any.
    pub fn intersection_filter_ref(&self, i: IntersectionID) -> (r: Option<&DiagonalFilter>)
        requires
            self.wf(),
        ensures
            (match r {
                Some(f) => self@.intersections.contains_key(i) && f@ == self@.intersections[i]
                    && diag_wf(f@),
                None => !self@.intersections.contains_key(i),
            }),
    {
        self.intersections.get_ref(i)
    }

    /// Install (or overwrite) a diagonal filter at its intersection.
    pub fn set_intersection_filter(&mut self, f: DiagonalFilter)
        requires
            old(self).wf(),
            diag_wf(f@),
        ensures
            final(self).wf(),
            final(self)@ == with_intersections(
                old(self)@,
                old(self)@.intersections.insert(f@.i, f@),
            ),
    {
        let i = f.intersection();
        self.intersections.insert(i, f);
        proof {
            assert(diag_map_view(self.intersections@) =~= old(self)@.intersections.insert(i, f@));
            assert(self@ =~= with_intersections(
                old(self)@,
                old(self)@.intersections.insert(i, f@),
            ));
        }
    }

    /// Remove the diagonal filter at `i`, if any.
    pub fn remove_intersection_filter(&mut self, i: IntersectionID)
        requires
            old(self).wf(),
        ensures
            final(self).wf(),
            final(self)@ == with_intersections(old(self)@, old(self)@.intersections.remove(i)),
    {
        self.intersections.remove(i);
        proof {
            assert(diag_map_view(self.intersections@) =~= old(self)@.intersections.remove(i));
            assert(self@ =~= with_intersections(old(self)@, old(self)@.intersections.remove(i)));
        }
    }

    /// Is the turn at `i` between the two roads allowed? Absence of a
    /// filter is the permissive case.
    pub fn allows_turn(&self, i: IntersectionID, from: RoadID, to: RoadID) -> (r: bool)
        requires
            self.wf(),
        ensures
            r == spec_edits_allows_turn(self@, i, from, to),
    {
        match self.intersections.get_ref(i) {
            Some(f) => f.allows_turn(from, to),
            None => true,
        }
    }

    /// The crossings recorded on road `r`, sorted by distance.
    pub fn crossings_on(&self, r: RoadID) -> (c: Option<Vec<Crossing>>)
        requires
            self.wf(),
        ensures
            (match c {
                Some(v) => self@.crossings.contains_key(r) && v@ == self@.crossings[r],
                None => !self@.crossings.contains_key(r),
            }),
    {
        match self.crossings.get_ref(r) {
            Some(v) => Some(copy_crossing_vec(v)),
            None => None,
        }
    }

    /// Record a crossing on road `r`, keeping that road's crossings sorted
    /// by increasing distance; an equal distance goes after those already
    /// there.
    pub fn add_crossing(&mut self, r: RoadID, c: Crossing)
        requires
            old(self).wf(),
        ensures
            final(self).wf(),
            exists|pos: int|
                #[trigger] sorted_insert_at(crossings_of(old(self)@, r), c, pos) && final(self)@
                    == with_crossings(
                    old(self)@,
                    old(self)@.crossings.insert(r, crossings_of(old(self)@, r).insert(pos, c)),
                ),
    {
        let ghost s0 = crossings_of(old(self)@, r);
        let mut v: Vec<Crossing> = match self.crossings.get_ref(r) {
            Some(cur) => copy_crossing_vec(cur),
            None => Vec::new(),
        };
        proof {
            assert(v@ =~= s0);
        }
        let mut pos: usize = 0;
        while pos < v.len() && v[pos].dist <= c.dist
            invariant
                pos <= v@.len(),
                v@ == s0,
                forall|l: int| 0 <= l < pos ==> s0[l].dist <= c.dist,
            decreases v@.len() - pos,
        {
            pos = pos + 1;
        }
        v.insert(pos, c);
        proof {
            assert(crossings_sorted(s0));
            assert(v@ == s0.insert(pos as int, c));
            assert forall|a: int, b: int| 0 <= a < b < v@.len() implies v@[a].dist <= v@[b].dist by {
                if a < pos && b < pos {
                    assert(v@[a] == s0[a] && v@[b] == s0[b]);
                } else if a < pos && b == pos {
                    assert(v@[a] == s0[a] && v@[b] == c);
                } else if a < pos && b > pos {
                    assert(v@[a] == s0[a] && v@[b] == s0[b - 1]);
                    assert(s0[a].dist <= s0[b - 1].dist);
                } else if a == pos && b > pos {
                    assert(v@[a] == c && v@[b] == s0[b - 1]);
                    assert(pos < s0.len() && s0[pos as int].dist > c.dist);
                    assert(s0[pos as int].dist <= s0[b - 1].dist);
                } else {
                    assert(v@[a] == s0[a - 1] && v@[b] == s0[b - 1]);
                }
            };
        }
        self.crossings.insert(r, v);
        proof {
            assert(crossings_map_view(self.crossings@) =~= old(self)@.crossings.insert(
                r,
                s0.insert(pos as int, c),
            ));
            assert(self@ =~= with_crossings(
                old(self)@,
                old(self)@.crossings.insert(r, s0.insert(pos as int, c)),
            ));
            let p = pos as int;
            assert(sorted_insert_at(s0, c, p));
            assert(self@ == with_crossings(
                old(self)@,
                old(self)@.crossings.insert(r, s0.insert(p, c)),
            ));
        }
    }

    /// Snapshot the current layer into a new history node. Call before
    /// each logical mutation; history is only ever grown here and popped
    /// by `undo`, never changed in place.
    pub fn before_edit(&mut self)
        requires
            old(self).wf(),
        ensures
            final(self).wf(),
            final(self)@ == with_history(
                old(self)@,
                old(self)@.history.push(layer_of(old(self)@)),
            ),
            final(self)@.history == old(self)@.history.push(layer_of(old(self)@)),
    {
        let snap = EditsSnapshot {
            roads: self.roads.duplicate(),
            intersections: duplicate_diag_table(&self.intersections),
            one_ways: self.one_ways.duplicate(),
            speed_limits: self.speed_limits.duplicate(),
            crossings: duplicate_crossing_table(&self.crossings),
        };
        proof {
            assert(snap@ =~= layer_of(old(self)@));
        }
        self.previous_version.push(snap);
        proof {
            assert(self@.history =~= old(self)@.history.push(layer_of(old(self)@)));
            assert(self@ =~= with_history(
                old(self)@,
                old(self)@.history.push(layer_of(old(self)@)),
            ));
        }
    }

    /// Undo: restore the newest history layer and drop it from the
    /// history. Returns false, changing nothing, when there is none.
    pub fn undo(&mut self) -> (r: bool)
        requires
            old(self).wf(),
        ensures
            final(self).wf(),
            old(self)@.history.len() == 0 ==> !r && final(self)@ == old(self)@,
            old(self)@.history.len() > 0 ==> r && final(self)@.history == old(
                self,
            )@.history.drop_last() && layer_of(final(self)@) == old(self)@.history.last(),
    {
        match self.previous_version.pop() {
            Some(snap) => {
                let EditsSnapshot { roads, intersections, one_ways, speed_limits, crossings } =
                    snap;
                self.roads = roads;
                self.intersections = intersections;
                self.one_ways = one_ways;
                self.speed_limits = speed_limits;
                self.crossings = crossings;
                proof {
                    let h0 = old(self)@.history;
                    let m = old(self).previous_version@.len() - 1;
                    let snap0 = old(self).previous_version@[m];
                    assert(snap0.wf());
                    assert(self.roads == snap0.roads && self.intersections == snap0.intersections
                        && self.one_ways == snap0.one_ways && self.speed_limits
                        == snap0.speed_limits && self.crossings == snap0.crossings);
                    assert(self@.intersections == snap0@.intersections);
                    assert(self@.crossings == snap0@.crossings);
                    assert forall|j: int|
                        0 <= j < self.previous_version@.len() implies (#[trigger] self.previous_version@[j]).wf() by {
                        assert(self.previous_version@[j] == old(self).previous_version@[j]);
                    };
                    assert(self.wf());
                    assert(self@.history =~= h0.drop_last());
                    assert(layer_of(self@) =~= h0.last());
                }
                true
            },
            None => {
                proof {
                    assert(self@ =~= old(self)@);
                }
                false
            },
        }
    }

    /// The change key of the current state: a deep copy of the four
    /// legality-relevant mappings, for equality comparison by caches.
    pub fn get_change_key(&self) -> (ck: ChangeKey)
        requires
            self.wf(),
        ensures
            ck.wf(),
            ck@ == change_key_of(self@),
    {
        let ck = ChangeKey {
            roads: self.roads.duplicate(),
            intersections: duplicate_diag_table(&self.intersections),
            one_ways: self.one_ways.duplicate(),
            crossings: duplicate_crossing_table(&self.crossings),
        };
        proof {
            assert(ck@ =~= change_key_of(self@));
        }
        ck
    }

    /// Extend routing constraints with these edits: exclude every filtered
    /// road, and forbid every movement crossing a diagonal filter.
    pub fn update_routing_params(&self, params: &mut RoutingConstraints)
        requires
            self.wf(),
        ensures
            forall|r: RoadID| #[trigger] final(params)@.avoid_roads.contains(r) <==> (old(
                params,
            )@.avoid_roads.contains(r) || self@.roads.contains_key(r)),
            forall|from: RoadID, to: RoadID| #[trigger]
                final(params)@.avoid_movements_between.contains((from, to)) <==> (old(
                params,
            )@.avoid_movements_between.contains((from, to)) || spec_forbidden(self@, from, to)),
    {
        let ghost base_r = params@.avoid_roads;
        let ghost base_m = params@.avoid_movements_between;
        let n1 = self.roads.len();
        let mut j: usize = 0;
        while j < n1
            invariant
                n1 == self.roads.pair_seq().len(),
                j <= n1,
                self.roads.wf(),
                params@.avoid_movements_between == base_m,
                forall|r: RoadID| #[trigger]
                    params@.avoid_roads.contains(r) <==> (base_r.contains(r) || (exists|l: int|
                        0 <= l < j && self.roads.pair_seq()[l].0 == r)),
            decreases n1 - j,
        {
            let p = self.roads.borrow_at(j);
            let ghost before = params@.avoid_roads;
            params.avoid_roads.push(p.0);
            proof {
                assert forall|r: RoadID| #[trigger]
                    params@.avoid_roads.contains(r) <==> (base_r.contains(r) || (exists|l: int|
                        0 <= l < j + 1 && self.roads.pair_seq()[l].0 == r)) by {
                    lemma_push_contains(before, p.0, r);
                    if params@.avoid_roads.contains(r) {
                        if r == p.0 {
                            assert(self.roads.pair_seq()[j as int].0 == r);
                        }
                    }
                    if exists|l: int| 0 <= l < j + 1 && self.roads.pair_seq()[l].0 == r {
                        let l = choose|l: int| 0 <= l < j + 1 && self.roads.pair_seq()[l].0 == r;
                        if l < j {
                            assert(before.contains(r) || base_r.contains(r) || (exists|l2: int|
                                0 <= l2 < j && self.roads.pair_seq()[l2].0 == r));
                        }
                    }
                };
            }
            j = j + 1;
        }
        proof {
            self.roads.lemma_view();
            assert forall|r: RoadID| #[trigger]
                params@.avoid_roads.contains(r) <==> (base_r.contains(r)
                    || self@.roads.contains_key(r)) by {
                self.roads.lemma_key(r);
            };
        }
        let ghost done_r = params@.avoid_roads;
        let n2 = self.intersections.len();
        let mut jf: usize = 0;
        while jf < n2
            invariant
                n2 == self.intersections.pair_seq().len(),
                jf <= n2,
                self.intersections.wf(),
                params@.avoid_roads == done_r,
                forall|m: (RoadID, RoadID)| #[trigger]
                    params@.avoid_movements_between.contains(m) <==> (base_m.contains(m) || (exists|
                        lf: int,
                    |
                        0 <= lf < jf && cross_groups(
                            #[trigger] self.intersections.pair_seq()[lf].1@,
                            m.0,
                            m.1,
                        ))),
            decreases n2 - jf,
        {
            let p = self.intersections.borrow_at(jf);
            let mv = p.1.avoid_movements_between_roads();
            let nmv = mv.len();
            let mut l: usize = 0;
            while l < nmv
                invariant
                    n2 == self.intersections.pair_seq().len(),
                    jf < n2,
                    nmv == mv@.len(),
                    l <= nmv,
                    self.intersections.wf(),
                    params@.avoid_roads == done_r,
                    p == &self.intersections.pair_seq()[jf as int],
                    forall|m: (RoadID, RoadID)| #[trigger]
                        mv@.contains(m) <==> cross_groups(
                            self.intersections.pair_seq()[jf as int].1@,
                            m.0,
                            m.1,
                        ),
                    forall|m: (RoadID, RoadID)| #[trigger]
                        params@.avoid_movements_between.contains(m) <==> (base_m.contains(m) || (
                        exists|lf: int|
                            0 <= lf < jf && cross_groups(
                                #[trigger] self.intersections.pair_seq()[lf].1@,
                                m.0,
                                m.1,
                            )) || (exists|w: int| 0 <= w < l && mv@[w] == m)),
                decreases nmv - l,
            {
                let ghost before = params@.avoid_movements_between;
                params.avoid_movements_between.push(mv[l]);
                proof {
                    assert forall|m: (RoadID, RoadID)| #[trigger]
                        params@.avoid_movements_between.contains(m) <==> (base_m.contains(m) || (
                        exists|lf: int|
                            0 <= lf < jf && cross_groups(
                                #[trigger] self.intersections.pair_seq()[lf].1@,
                                m.0,
                                m.1,
                            )) || (exists|w: int| 0 <= w < l + 1 && mv@[w] == m)) by {
                        lemma_push_contains(before, mv@[l as int], m);
                        if params@.avoid_movements_between.contains(m) {
                            if m == mv@[l as int] {
                                assert(0 <= l < l + 1 && mv@[l as int] == m);
                            }
                        }
                        if exists|w: int| 0 <= w < l + 1 && mv@[w] == m {
                            let w = choose|w: int| 0 <= w < l + 1 && mv@[w] == m;
                            if w < l {
                                assert(before.contains(m));
                            }
                        }
                    };
                }
                l = l + 1;
            }
            proof {
                assert forall|m: (RoadID, RoadID)| #[trigger]
                    params@.avoid_movements_between.contains(m) <==> (base_m.contains(m) || (exists|
                        lf: int,
                    |
                        0 <= lf < jf + 1 && cross_groups(
                            #[trigger] self.intersections.pair_seq()[lf].1@,
                            m.0,
                            m.1,
                        ))) by {
                    if params@.avoid_movements_between.contains(m) {
                        if exists|w: int| 0 <= w < nmv && mv@[w] == m {
                            let w = choose|w: int| 0 <= w < nmv && mv@[w] == m;
                            assert(mv@.contains(m));
                            assert(cross_groups(
                                self.intersections.pair_seq()[jf as int].1@,
                                m.0,
                                m.1,
                            ));
                        }
                    }
                    if exists|lf: int|
                        0 <= lf < jf + 1 && cross_groups(
                            #[trigger] self.intersections.pair_seq()[lf].1@,
                            m.0,
                            m.1,
                        ) {
                        let lf = choose|lf: int|
                            0 <= lf < jf + 1 && cross_groups(
                                #[trigger] self.intersections.pair_seq()[lf].1@,
                                m.0,
                                m.1,
                            );
                        if lf == jf {
                            assert(mv@.contains(m));
                            let w = choose|w: int| 0 <= w < mv@.len() && mv@[w] == m;
                            assert(0 <= w < nmv && mv@[w] == m);
                        }
                    }
                };
            }
            jf = jf + 1;
        }
        proof {
            self.intersections.lemma_view();
            assert forall|from: RoadID, to: RoadID| (exists|lf: int|
                0 <= lf < n2 && cross_groups(
                    #[trigger] self.intersections.pair_seq()[lf].1@,
                    from,
                    to,
                )) <==> spec_forbidden(self@, from, to) by {
                if exists|lf: int|
                    0 <= lf < n2 && cross_groups(
                        #[trigger] self.intersections.pair_seq()[lf].1@,
                        from,
                        to,
                    ) {
                    let lf = choose|lf: int|
                        0 <= lf < n2 && cross_groups(
                            #[trigger] self.intersections.pair_seq()[lf].1@,
                            from,
                            to,
                        );
                    let k = self.intersections.pair_seq()[lf].0;
                    self.intersections.lemma_pair(lf);
                    assert(self@.intersections.contains_key(k));
                    assert(self@.intersections[k] == self.intersections.pair_seq()[lf].1@);
                }
                if spec_forbidden(self@, from, to) {
                    let k = choose|k: u64|
                        #[trigger] self@.intersections.contains_key(k) && cross_groups(
                            self@.intersections[k],
                            from,
                            to,
                        );
                    self.intersections.lemma_key(k);
                    let lf = choose|lf: int|
                        0 <= lf < self.intersections.pair_seq().len()
                            && self.intersections.pair_seq()[lf].0 == k;
                    self.intersections.lemma_pair(lf);
                    assert(cross_groups(self.intersections.pair_seq()[lf].1@, from, to));
                }
            };
            assert forall|from: RoadID, to: RoadID| #[trigger]
                params@.avoid_movements_between.contains((from, to)) <==> (base_m.contains(
                    (from, to),
                ) || spec_forbidden(self@, from, to)) by {
                let m = (from, to);
                assert(m.0 == from && m.1 == to);
            };
        }
    }

    /// The routing projection of these edits: exactly the filtered roads
    /// excluded, exactly the cross-group movements forbidden.
    pub fn project(&self) -> (c: RoutingConstraints)
        requires
            self.wf(),
        ensures
            is_projection(c@, self@),
    {
        let mut c = RoutingConstraints::new();
        self.update_routing_params(&mut c);
        c
    }
}

/// A value-equality snapshot of the four legality-relevant mappings, used
/// by external caches to detect when recomputation is required.
pub struct ChangeKey {
    roads: Table<RoadFilter>,
    intersections: Table<DiagonalFilter>,
    one_ways: Table<RoadEditState>,
    crossings: Table<Vec<Crossing>>,
}

impl View for ChangeKey {
    type V = ChangeKeyModel;

    closed spec fn view(&self) -> ChangeKeyModel {
        ChangeKeyModel {
            roads: self.roads@,
            intersections: diag_map_view(self.intersections@),
            one_ways: self.one_ways@,
            crossings: crossings_map_view(self.crossings@),
        }
    }
}

/// Are two well-formed road-filter tables equal as maps?
fn road_tables_eq(a: &Table<RoadFilter>, b: &Table<RoadFilter>) -> (r: bool)
    requires
        a.wf(),
        b.wf(),
    ensures
        r == (a@ == b@),
{
    proof {
        a.lemma_len();
        b.lemma_len();
    }
    if a.len() != b.len() {
        proof {
            assert(a@ != b@);
        }
        return false;
    }
    let n = a.len();
    let mut j: usize = 0;
    while j < n
        invariant
            n == a.pair_seq().len(),
            j <= n,
            a.wf(),
            b.wf(),
            forall|l: int|
                0 <= l < j ==> (b@.contains_key(#[trigger] a.pair_seq()[l].0) && b@[a.pair_seq()[l].0]
                    == a.pair_seq()[l].1),
        decreases n - j,
    {
        let p = a.borrow_at(j);
        proof {
            a.lemma_pair(j as int);
        }
        match b.get_copy(p.0) {
            Some(v) => {
                if !(v == p.1) {
                    proof {
                        assert(a@[p.0] == p.1);
                    }
                    return false;
                }
            },
            None => {
                proof {
                    assert(a@.contains_key(p.0));
                }
                return false;
            },
        }
        j = j + 1;
    }
    proof {
        a.lemma_len();
        b.lemma_len();
        assert forall|k: u64| #[trigger]
            a@.contains_key(k) implies (b@.contains_key(k) && b@[k] == a@[k]) by {
            a.lemma_key(k);
            let l = choose|l: int| 0 <= l < a.pair_seq().len() && a.pair_seq()[l].0 == k;
            a.lemma_pair(l);
        };
        assert(a@.dom().subset_of(b@.dom()));
        vstd::set_lib::lemma_subset_equality(a@.dom(), b@.dom());
        assert(a@ =~= b@);
    }
    true
}

/// Are two well-formed road-state tables equal as maps?
fn oneway_tables_eq(a: &Table<RoadEditState>, b: &Table<RoadEditState>) -> (r: bool)
    requires
        a.wf(),
        b.wf(),
    ensures
        r == (a@ == b@),
{
    proof {
        a.lemma_len();
        b.lemma_len();
    }
    if a.len() != b.len() {
        proof {
            assert(a@ != b@);
        }
        return false;
    }
    let n = a.len();
    let mut j: usize = 0;
    while j < n
        invariant
            n == a.pair_seq().len(),
            j <= n,
            a.wf(),
            b.wf(),
            forall|l: int|
                0 <= l < j ==> (b@.contains_key(#[trigger] a.pair_seq()[l].0) && b@[a.pair_seq()[l].0]
                    == a.pair_seq()[l].1),
        decreases n - j,
    {
        let p = a.borrow_at(j);
        proof {
            a.lemma_pair(j as int);
        }
        match b.get_copy(p.0) {
            Some(v) => {
                if !(v == p.1) {
                    proof {
                        assert(a@[p.0] == p.1);
                    }
                    return false;
                }
            },
            None => {
                proof {
                    assert(a@.contains_key(p.0));
                }
                return false;
            },
        }
        j = j + 1;
    }
    proof {
        a.lemma_len();
        b.lemma_len();
        assert forall|k: u64| #[trigger]
            a@.contains_key(k) implies (b@.contains_key(k) && b@[k] == a@[k]) by {
            a.lemma_key(k);
            let l = choose|l: int| 0 <= l < a.pair_seq().len() && a.pair_seq()[l].0 == k;
            a.lemma_pair(l);
        };
        assert(a@.dom().subset_of(b@.dom()));
        vstd::set_lib::lemma_subset_equality(a@.dom(), b@.dom());
        assert(a@ =~= b@);
    }
    true
}

/// Are two well-formed diagonal-filter tables equal at the model level?
fn diag_tables_eq(a: &Table<DiagonalFilter>, b: &Table<DiagonalFilter>) -> (r: bool)
    requires
        a.wf(),
        b.wf(),
    ensures
        r == (diag_map_view(a@) == diag_map_view(b@)),
{
    proof {
        a.lemma_len();
        b.lemma_len();
        assert(diag_map_view(a@).dom() =~= a@.dom());
        assert(diag_map_view(b@).dom() =~= b@.dom());
    }
    if a.len() != b.len() {
        proof {
            assert(diag_map_view(a@) != diag_map_view(b@));
        }
        return false;
    }
    let n = a.len();
    let mut j: usize = 0;
    while j < n
        invariant
            n == a.pair_seq().len(),
            j <= n,
            a.wf(),
            b.wf(),
            forall|l: int|
                0 <= l < j ==> (b@.contains_key(#[trigger] a.pair_seq()[l].0) && b@[a.pair_seq()[l].0]@
                    == a.pair_seq()[l].1@),
        decreases n - j,
    {
        let p = a.borrow_at(j);
        proof {
            a.lemma_pair(j as int);
        }
        match b.get_ref(p.0) {
            Some(v) => {
                if !p.1.same_content(v) {
                    proof {
                        assert(a@[p.0] == p.1);
                        assert(diag_map_view(a@)[p.0] == p.1@);
                        assert(diag_map_view(b@)[p.0] == b@[p.0]@);
                    }
                    return false;
                }
            },
            None => {
                proof {
                    assert(a@.contains_key(p.0));
                    assert(diag_map_view(a@).contains_key(p.0));
                    assert(!diag_map_view(b@).contains_key(p.0));
                }
                return false;
            },
        }
        j = j + 1;
    }
    proof {
        a.lemma_len();
        b.lemma_len();
        assert forall|k: u64| #[trigger]
            a@.contains_key(k) implies (b@.contains_key(k) && b@[k]@ == a@[k]@) by {
            a.lemma_key(k);
            let l = choose|l: int| 0 <= l < a.pair_seq().len() && a.pair_seq()[l].0 == k;
            a.lemma_pair(l);
        };
        assert(a@.dom().subset_of(b@.dom()));
        vstd::set_lib::lemma_subset_equality(a@.dom(), b@.dom());
        assert(diag_map_view(a@) =~= diag_map_view(b@));
    }
    true
}

/// Are two well-formed crossing tables equal at the model level?
fn crossing_tables_eq(a: &Table<Vec<Crossing>>, b: &Table<Vec<Crossing>>) -> (r: bool)
    requires
        a.wf(),
        b.wf(),
    ensures
        r == (crossings_map_view(a@) == crossings_map_view(b@)),
{
    proof {
        a.lemma_len();
        b.lemma_len();
        assert(crossings_map_view(a@).dom() =~= a@.dom());
        assert(crossings_map_view(b@).dom() =~= b@.dom());
    }
    if a.len() != b.len() {
        proof {
            assert(crossings_map_view(a@) != crossings_map_view(b@));
        }
        return false;
    }
    let n = a.len();
    let mut j: usize = 0;
    while j < n
        invariant
            n == a.pair_seq().len(),
            j <= n,
            a.wf(),
            b.wf(),
            forall|l: int|
                0 <= l < j ==> (b@.contains_key(#[trigger] a.pair_seq()[l].0) && b@[a.pair_seq()[l].0]@
                    == a.pair_seq()[l].1@),
        decreases n - j,
    {
        let p = a.borrow_at(j);
        proof {
            a.lemma_pair(j as int);
        }
        match b.get_ref(p.0) {
            Some(v) => {
                if !crossing_vec_eq(&p.1, v) {
                    proof {
                        assert(a@[p.0] == p.1);
                        assert(crossings_map_view(a@)[p.0] == p.1@);
                        assert(crossings_map_view(b@)[p.0] == b@[p.0]@);
                    }
                    return false;
                }
            },
            None => {
                proof {
                    assert(a@.contains_key(p.0));
                    assert(crossings_map_view(a@).contains_key(p.0));
                    assert(!crossings_map_view(b@).contains_key(p.0));
                }
                return false;
            },
        }
        j = j + 1;
    }
    proof {
        a.lemma_len();
        b.lemma_len();
        assert forall|k: u64| #[trigger]
            a@.contains_key(k) implies (b@.contains_key(k) && b@[k]@ == a@[k]@) by {
            a.lemma_key(k);
            let l = choose|l: int| 0 <= l < a.pair_seq().len() && a.pair_seq()[l].0 == k;
            a.lemma_pair(l);
        };
        assert(a@.dom().subset_of(b@.dom()));
        vstd::set_lib::lemma_subset_equality(a@.dom(), b@.dom());
        assert(crossings_map_view(a@) =~= crossings_map_view(b@));
    }
    true
}

impl ChangeKey {
    pub closed spec fn wf(self) -> bool {
        self.roads.wf() && self.intersections.wf() && self.one_ways.wf() && self.crossings.wf()
    }

    /// Structural equality of the four mappings: exactly when the edit
    /// states they were taken from require no recomputation.
    pub fn same(&self, other: &ChangeKey) -> (r: bool)
        requires
            self.wf(),
            other.wf(),
        ensures
            r == (self@ == other@),
    {
        let t1 = road_tables_eq(&self.roads, &other.roads);
        let t2 = diag_tables_eq(&self.intersections, &other.intersections);
        let t3 = oneway_tables_eq(&self.one_ways, &other.one_ways);
        let t4 = crossing_tables_eq(&self.crossings, &other.crossings);
        let r = t1 && t2 && t3 && t4;
        proof {
            if r {
                assert(self@ =~= other@);
            } else {
                if self@ == other@ {
                    assert(self@.roads == other@.roads);
                    assert(self@.intersections == other@.intersections);
                    assert(self@.one_ways == other@.one_ways);
                    assert(self@.crossings == other@.crossings);
                }
            }
        }
        r
    }
}

/// What the routing engine consumes: roads excluded from path search and
/// forbidden ordered road pairs at filtered intersections.
pub struct RoutingConstraints {
    avoid_roads: Vec<RoadID>,
    avoid_movements_between: Vec<(RoadID, RoadID)>,
}

impl View for RoutingConstraints {
    type V = ConstraintsModel;

    closed spec fn view(&self) -> ConstraintsModel {
        ConstraintsModel {
            avoid_roads: self.avoid_roads@,
            avoid_movements_between: self.avoid_movements_between@,
        }
    }
}

impl RoutingConstraints {
    /// Empty constraints: nothing excluded, nothing forbidden.
    pub fn new() -> (c: RoutingConstraints)
        ensures
            c@.avoid_roads == Seq::<RoadID>::empty(),
            c@.avoid_movements_between == Seq::<(RoadID, RoadID)>::empty(),
    {
        RoutingConstraints { avoid_roads: Vec::new(), avoid_movements_between: Vec::new() }
    }

    /// Is the road excluded from path search?
    pub fn excludes_road(&self, r: RoadID) -> (b: bool)
        ensures
            b == self@.avoid_roads.contains(r),
    {
        crate::diagonal::vec_contains(&self.avoid_roads, r)
    }

    /// Is the ordered movement forbidden?
    pub fn forbids_movement(&self, from: RoadID, to: RoadID) -> (b: bool)
        ensures
            b == self@.avoid_movements_between.contains((from, to)),
    {
        let mut j: usize = 0;
        while j < self.avoid_movements_between.len()
            invariant
                j <= self.avoid_movements_between@.len(),
                forall|l: int|
                    0 <= l < j ==> self.avoid_movements_between@[l] != (from, to),
            decreases self.avoid_movements_between@.len() - j,
        {
            let m = self.avoid_movements_between[j];
            if m.0 == from && m.1 == to {
                return true;
            }
            j = j + 1;
        }
        false
    }
}

} // verus!
