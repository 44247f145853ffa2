//! Diagonal filters: a filter placed across two roads of an intersection,
//! splitting the incident roads into two groups so that only within-group
//! turns stay legal.

use vstd::prelude::*;

use crate::filters::{FilterType, IntersectionID, RoadID};

verus! {

/// Mathematical model of a diagonal filter.
pub ghost struct DiagModel {
    pub r1: RoadID,
    pub r2: RoadID,
    pub i: IntersectionID,
    pub filter_type: FilterType,
    pub user_modified: bool,
    pub group1: Seq<RoadID>,
    pub group2: Seq<RoadID>,
}

/// An index of `r` in the ring; with distinct entries it is the only one.
pub open spec fn ring_idx(ring: Seq<RoadID>, r: RoadID) -> int {
    choose|j: int| 0 <= j < ring.len() && ring[j] == r
}

/// Reduce `x` into `[0, n)`, for `0 <= x < 2n`.
pub open spec fn wrap(n: int, x: int) -> int {
    if x < n {
        x
    } else {
        x - n
    }
}

/// The ring entry `k` steps clockwise of position `i1`.
pub open spec fn circ(ring: Seq<RoadID>, i1: int, k: int) -> RoadID {
    ring[wrap(ring.len() as int, i1 + k)]
}

/// How many clockwise steps lead from position `i1` to position `i2`.
pub open spec fn steps_between(n: int, i1: int, i2: int) -> int {
    if i2 >= i1 {
        i2 - i1
    } else {
        i2 - i1 + n
    }
}

/// How many clockwise steps lead from `r1` to `r2` in the ring.
pub open spec fn arc_steps(ring: Seq<RoadID>, r1: RoadID, r2: RoadID) -> int {
    steps_between(ring.len() as int, ring_idx(ring, r1), ring_idx(ring, r2))
}

/// A usable circular road list: pairwise-distinct entries, at least two.
pub open spec fn valid_ring(ring: Seq<RoadID>) -> bool {
    ring.no_duplicates() && 2 <= ring.len()
}

/// What `DiagonalFilter::new` asks of its inputs. At a four-way
/// intersection the boundary roads must be circular neighbours: any other
/// pair would not split the ring into two groups of two, which is a
/// caller's contract violation, not a recoverable state.
pub open spec fn diag_inputs_ok(ring: Seq<RoadID>, r1: RoadID, r2: RoadID) -> bool {
    valid_ring(ring) && ring.contains(r1) && ring.contains(r2) && r1 != r2 && (ring.len() == 4
        ==> arc_steps(ring, r1, r2) == 1)
}

/// The filter built by walking the ring clockwise from `r1` up to and
/// including `r2`: the roads passed form `group1`, the rest `group2`.
pub open spec fn spec_diag_new(
    i: IntersectionID,
    ring: Seq<RoadID>,
    r1: RoadID,
    r2: RoadID,
    ft: FilterType,
) -> DiagModel {
    let n = ring.len() as int;
    let i1 = ring_idx(ring, r1);
    let d = arc_steps(ring, r1, r2);
    DiagModel {
        r1,
        r2,
        i,
        filter_type: ft,
        user_modified: true,
        group1: Seq::new((d + 1) as nat, |k: int| circ(ring, i1, k)),
        group2: Seq::new((n - d - 1) as nat, |k: int| circ(ring, i1, d + 1 + k)),
    }
}

/// Internal consistency of a filter: each group lists pairwise-distinct
/// roads, the groups are disjoint, and the walked group is not empty.
pub open spec fn diag_wf(f: DiagModel) -> bool {
    f.group1.no_duplicates() && f.group2.no_duplicates() && f.group1.len() >= 1 && (forall|
        r: RoadID,
    |
        #[trigger] f.group1.contains(r) ==> !f.group2.contains(r))
}

/// Two filters describe the same physical filter: same intersection, same
/// unordered boundary pair, and the same partition. The boundary pair and
/// the group pair are unordered because the same filter can be described
/// starting from either boundary road. `filter_type` and `user_modified`
/// are deliberately ignored.
pub open spec fn spec_equiv(a: DiagModel, b: DiagModel) -> bool {
    a.i == b.i && pair_set(a.r1, a.r2) == pair_set(b.r1, b.r2) && ((a.group1.to_set()
        == b.group1.to_set() && a.group2.to_set() == b.group2.to_set()) || (a.group1.to_set()
        == b.group2.to_set() && a.group2.to_set() == b.group1.to_set()))
}

/// The unordered pair of two roads.
pub open spec fn pair_set(a: RoadID, b: RoadID) -> Set<RoadID> {
    Set::empty().insert(a).insert(b)
}

/// A turn is allowed when both roads sit on the same side of the filter.
pub open spec fn spec_allows_turn(f: DiagModel, from: RoadID, to: RoadID) -> bool {
    f.group1.contains(from) <==> f.group1.contains(to)
}

/// An ordered movement is forbidden by a filter when it crosses from one
/// group to the other, in either direction.
pub open spec fn cross_groups(f: DiagModel, from: RoadID, to: RoadID) -> bool {
    (f.group1.contains(from) && f.group2.contains(to)) || (f.group2.contains(from)
        && f.group1.contains(to))
}

pub proof fn lemma_ring_idx(ring: Seq<RoadID>, r: RoadID)
    requires
        ring.contains(r),
    ensures
        0 <= ring_idx(ring, r) < ring.len(),
        ring[ring_idx(ring, r)] == r,
{
    assert(exists|j: int| 0 <= j < ring.len() && ring[j] == r);
}

/// Stepping to distinct offsets below the ring length reaches distinct
/// roads.
pub proof fn lemma_circ_inj(ring: Seq<RoadID>, i1: int, k1: int, k2: int)
    requires
        ring.no_duplicates(),
        0 <= i1 < ring.len(),
        0 <= k1 < ring.len(),
        0 <= k2 < ring.len(),
        k1 != k2,
    ensures
        circ(ring, i1, k1) != circ(ring, i1, k2),
{
    let n = ring.len() as int;
    let a = wrap(n, i1 + k1);
    let b = wrap(n, i1 + k2);
    assert(0 <= a < n && 0 <= b < n);
    assert(a != b);
    assert(ring[a] != ring[b]);
}

/// Walking the whole ring from any start position enumerates every road:
/// road `ring[j]` is reached after `steps_between(n, i1, j)` steps.
pub proof fn lemma_circ_reaches(ring: Seq<RoadID>, i1: int, j: int)
    requires
        0 <= i1 < ring.len(),
        0 <= j < ring.len(),
    ensures
        0 <= steps_between(ring.len() as int, i1, j) < ring.len(),
        circ(ring, i1, steps_between(ring.len() as int, i1, j)) == ring[j],
{
}

/// The constructed groups partition the ring: each lists distinct roads,
/// they are disjoint, their union is the whole ring, and the walked group
/// starts at `r1` and ends at `r2`.
pub proof fn lemma_diag_new_partition(
    i: IntersectionID,
    ring: Seq<RoadID>,
    r1: RoadID,
    r2: RoadID,
    ft: FilterType,
)
    requires
        valid_ring(ring),
        ring.contains(r1),
        ring.contains(r2),
        r1 != r2,
    ensures
        ({
            let f = spec_diag_new(i, ring, r1, r2, ft);
            let n = ring.len() as int;
            let d = arc_steps(ring, r1, r2);
            &&& 1 <= d < n
            &&& f.group1.len() == d + 1
            &&& f.group2.len() == n - d - 1
            &&& diag_wf(f)
            &&& f.group1.to_set().union(f.group2.to_set()) == ring.to_set()
            &&& f.group1.contains(r1)
            &&& f.group1.contains(r2)
        }),
{
    let f = spec_diag_new(i, ring, r1, r2, ft);
    let n = ring.len() as int;
    let i1 = ring_idx(ring, r1);
    let i2 = ring_idx(ring, r2);
    let d = arc_steps(ring, r1, r2);
    lemma_ring_idx(ring, r1);
    lemma_ring_idx(ring, r2);
    assert(i1 != i2);
    assert(1 <= d < n);
    assert(f.group1.len() == d + 1);
    assert(f.group2.len() == n - d - 1);
    // distinctness inside and across the groups, from injectivity of the walk
    assert forall|a: int, b: int|
        0 <= a < f.group1.len() && 0 <= b < f.group1.len() && a != b implies f.group1[a]
        != f.group1[b] by {
        lemma_circ_inj(ring, i1, a, b);
    };
    assert forall|a: int, b: int|
        0 <= a < f.group2.len() && 0 <= b < f.group2.len() && a != b implies f.group2[a]
        != f.group2[b] by {
        lemma_circ_inj(ring, i1, d + 1 + a, d + 1 + b);
    };
    assert forall|r: RoadID| #[trigger] f.group1.contains(r) implies !f.group2.contains(r) by {
        let a = choose|a: int| 0 <= a < f.group1.len() && f.group1[a] == r;
        if f.group2.contains(r) {
            let b = choose|b: int| 0 <= b < f.group2.len() && f.group2[b] == r;
            lemma_circ_inj(ring, i1, a, d + 1 + b);
        }
    };
    // the two groups together are exactly the ring
    assert forall|r: RoadID| f.group1.to_set().union(f.group2.to_set()).contains(r) implies ring.to_set().contains(
        r,
    ) by {
        if f.group1.contains(r) {
            let a = choose|a: int| 0 <= a < f.group1.len() && f.group1[a] == r;
            assert(ring[wrap(n, i1 + a)] == r);
        } else {
            let b = choose|b: int| 0 <= b < f.group2.len() && f.group2[b] == r;
            assert(ring[wrap(n, i1 + d + 1 + b)] == r);
        }
    };
    assert forall|r: RoadID| ring.to_set().contains(r) implies f.group1.to_set().union(
        f.group2.to_set(),
    ).contains(r) by {
        let j = choose|j: int| 0 <= j < ring.len() && ring[j] == r;
        let k = steps_between(n, i1, j);
        lemma_circ_reaches(ring, i1, j);
        if k <= d {
            assert(f.group1[k] == r);
            assert(f.group1.contains(r));
        } else {
            assert(f.group2[k - d - 1] == r);
            assert(f.group2.contains(r));
        }
    };
    assert(f.group1.to_set().union(f.group2.to_set()) =~= ring.to_set());
    // r1 opens the walk and r2 closes it
    assert(f.group1[0] == ring[wrap(n, i1)]);
    assert(f.group1.contains(r1));
    assert(wrap(n, i1 + d) == i2);
    assert(f.group1[d] == r2);
    assert(f.group1.contains(r2));
}

/// At a four-way intersection a diagonal filter splits the ring into two
/// groups of exactly two roads: disjoint, and together the four roads.
pub proof fn lemma_four_way_partition(
    i: IntersectionID,
    ring: Seq<RoadID>,
    r1: RoadID,
    r2: RoadID,
    ft: FilterType,
)
    requires
        diag_inputs_ok(ring, r1, r2),
        ring.len() == 4,
    ensures
        ({
            let f = spec_diag_new(i, ring, r1, r2, ft);
            &&& f.group1.to_set().len() == 2
            &&& f.group2.to_set().len() == 2
            &&& f.group1.to_set().intersect(f.group2.to_set()) == Set::<RoadID>::empty()
            &&& f.group1.to_set().union(f.group2.to_set()) == ring.to_set()
        }),
{
    let f = spec_diag_new(i, ring, r1, r2, ft);
    lemma_diag_new_partition(i, ring, r1, r2, ft);
    f.group1.unique_seq_to_set();
    f.group2.unique_seq_to_set();
    assert(f.group1.to_set().intersect(f.group2.to_set()) =~= Set::<RoadID>::empty());
}

/// Equivalence of diagonal filters is symmetric.
pub proof fn lemma_equiv_symmetric(a: DiagModel, b: DiagModel)
    ensures
        spec_equiv(a, b) == spec_equiv(b, a),
{
}

/// Passing the boundary roads in either order builds equivalent filters.
/// This holds of rings of exactly two roads, where the walk consumes the
/// whole ring either way; with three or more roads the two orders trace
/// different arcs and build different partitions.
pub proof fn lemma_equiv_boundary_order(
    i: IntersectionID,
    ring: Seq<RoadID>,
    r1: RoadID,
    r2: RoadID,
    fta: FilterType,
    ftb: FilterType,
)
    requires
        valid_ring(ring),
        ring.len() == 2,
        ring.contains(r1),
        ring.contains(r2),
        r1 != r2,
    ensures
        spec_equiv(spec_diag_new(i, ring, r1, r2, fta), spec_diag_new(i, ring, r2, r1, ftb)),
{
    let a = spec_diag_new(i, ring, r1, r2, fta);
    let b = spec_diag_new(i, ring, r2, r1, ftb);
    lemma_diag_new_partition(i, ring, r1, r2, fta);
    lemma_diag_new_partition(i, ring, r2, r1, ftb);
    assert(pair_set(r1, r2) =~= pair_set(r2, r1));
    assert(a.group1.to_set() =~= b.group1.to_set()) by {
        assert(a.group1.to_set().union(a.group2.to_set()) == ring.to_set());
        assert(a.group2.len() == 0);
        assert(a.group2.to_set() =~= Set::<RoadID>::empty());
        assert(b.group2.to_set() =~= Set::<RoadID>::empty());
        assert(a.group1.to_set().union(a.group2.to_set()) =~= a.group1.to_set());
        assert(b.group1.to_set().union(b.group2.to_set()) =~= b.group1.to_set());
    };
    assert(a.group2.to_set() =~= b.group2.to_set());
}

/// Within one filter a turn from a road back to itself is always allowed.
pub proof fn lemma_allows_turn_reflexive(f: DiagModel, r: RoadID)
    ensures
        spec_allows_turn(f, r, r),
{
}

/// Turn legality is symmetric in the two roads of the turn.
pub proof fn lemma_allows_turn_symmetric(f: DiagModel, a: RoadID, b: RoadID)
    ensures
        spec_allows_turn(f, a, b) == spec_allows_turn(f, b, a),
{
}

/// A movement is forbidden exactly when its reverse is.
pub proof fn lemma_cross_groups_symmetric(f: DiagModel, a: RoadID, b: RoadID)
    ensures
        cross_groups(f, a, b) == cross_groups(f, b, a),
{
}

/// Unordered pairs are equal exactly when their members match either way.
pub proof fn lemma_pair_set_eq(x: RoadID, y: RoadID, u: RoadID, v: RoadID)
    ensures
        (pair_set(x, y) == pair_set(u, v)) <==> ((x == u && y == v) || (x == v && y == u)),
{
    if (x == u && y == v) || (x == v && y == u) {
        assert(pair_set(x, y) =~= pair_set(u, v));
    }
    if pair_set(x, y) == pair_set(u, v) {
        assert(pair_set(u, v).contains(x) && pair_set(u, v).contains(y));
        assert(pair_set(x, y).contains(u) && pair_set(x, y).contains(v));
    }
}

/// Does the vector list the road?
pub fn vec_contains(v: &Vec<RoadID>, x: RoadID) -> (r: bool)
    ensures
        r == v@.contains(x),
{
    let mut j: usize = 0;
    while j < v.len()
        invariant
            j <= v@.len(),
            forall|l: int| 0 <= l < j ==> v@[l] != x,
        decreases v@.len() - j,
    {
        if v[j] == x {
            return true;
        }
        j = j + 1;
    }
    false
}

/// A fresh vector with the same roads.
pub(crate) fn copy_roads(v: &Vec<RoadID>) -> (r: Vec<RoadID>)
    ensures
        r@ == v@,
{
    let mut r: Vec<RoadID> = Vec::new();
    let mut j: usize = 0;
    while j < v.len()
        invariant
            j <= v@.len(),
            r@ == v@.subrange(0, j as int),
        decreases v@.len() - j,
    {
        r.push(v[j]);
        proof {
            assert(r@ =~= v@.subrange(0, j + 1 as int));
        }
        j = j + 1;
    }
    proof {
        assert(r@ =~= v@);
    }
    r
}

/// Are two road vectors equal element for element?
fn roads_seq_eq(a: &Vec<RoadID>, b: &Vec<RoadID>) -> (r: bool)
    ensures
        r == (a@ == b@),
{
    if a.len() != b.len() {
        return false;
    }
    let mut j: usize = 0;
    while j < a.len()
        invariant
            j <= a@.len(),
            a@.len() == b@.len(),
            forall|l: int| 0 <= l < j ==> a@[l] == b@[l],
        decreases a@.len() - j,
    {
        if a[j] != b[j] {
            return false;
        }
        j = j + 1;
    }
    proof {
        assert(a@ =~= b@);
    }
    true
}

/// Do two duplicate-free vectors list the same set of roads?
fn roads_set_eq(a: &Vec<RoadID>, b: &Vec<RoadID>) -> (r: bool)
    requires
        a@.no_duplicates(),
        b@.no_duplicates(),
    ensures
        r == (a@.to_set() == b@.to_set()),
{
    proof {
        a@.unique_seq_to_set();
        b@.unique_seq_to_set();
    }
    if a.len() != b.len() {
        proof {
            assert(a@.to_set() != b@.to_set());
        }
        return false;
    }
    let mut j: usize = 0;
    while j < a.len()
        invariant
            j <= a@.len(),
            forall|l: int| 0 <= l < j ==> b@.contains(#[trigger] a@[l]),
        decreases a@.len() - j,
    {
        if !vec_contains(b, a[j]) {
            proof {
                assert(a@.to_set().contains(a@[j as int]));
                assert(!b@.to_set().contains(a@[j as int]));
            }
            return false;
        }
        j = j + 1;
    }
    proof {
        assert forall|x: RoadID| a@.to_set().contains(x) implies b@.to_set().contains(x) by {
            let l = choose|l: int| 0 <= l < a@.len() && a@[l] == x;
            assert(b@.contains(a@[l]));
        };
        vstd::set_lib::lemma_subset_equality(a@.to_set(), b@.to_set());
    }
    true
}

/// The first index of `r` in the ring; the caller knows it is there.
fn find_road(ring: &Vec<RoadID>, r: RoadID) -> (j: usize)
    requires
        ring@.contains(r),
    ensures
        j < ring@.len(),
        ring@[j as int] == r,
        forall|l: int| 0 <= l < j ==> ring@[l] != r,
{
    let mut j: usize = 0;
    while j < ring.len()
        invariant
            j <= ring@.len(),
            forall|l: int| 0 <= l < j ==> ring@[l] != r,
        decreases ring@.len() - j,
    {
        if ring[j] == r {
            return j;
        }
        j = j + 1;
    }
    proof {
        assert(false);
    }
    0
}

/// A diagonal filter in an intersection, defined by two boundary roads.
/// With the intersection's roads in clockwise circular order, the pair
/// splits the ordering into two groups; turns inside a group stay
/// possible, turns across the groups do not.
pub struct DiagonalFilter {
    r1: RoadID,
    r2: RoadID,
    i: IntersectionID,
    pub filter_type: FilterType,
    user_modified: bool,
    group1: Vec<RoadID>,
    group2: Vec<RoadID>,
}

impl View for DiagonalFilter {
    type V = DiagModel;

    closed spec fn view(&self) -> DiagModel {
        DiagModel {
            r1: self.r1,
            r2: self.r2,
            i: self.i,
            filter_type: self.filter_type,
            user_modified: self.user_modified,
            group1: self.group1@,
            group2: self.group2@,
        }
    }
}

impl DiagonalFilter {
    /// Build the filter across `r1` and `r2` at intersection `i`, whose
    /// driveable incident roads, in clockwise circular order, are `ring`.
    /// The ring is walked clockwise from `r1` up to and including `r2`;
    /// the roads passed become `group1`, the remaining roads `group2`.
    pub fn new(
        i: IntersectionID,
        ring: &Vec<RoadID>,
        r1: RoadID,
        r2: RoadID,
        filter_type: FilterType,
    ) -> (f: DiagonalFilter)
        requires
            diag_inputs_ok(ring@, r1, r2),
        ensures
            f@ == spec_diag_new(i, ring@, r1, r2, filter_type),
            diag_wf(f@),
    {
        let ghost rr = ring@;
        let ghost n_i = rr.len() as int;
        let ghost i2 = ring_idx(rr, r2);
        let ghost d = arc_steps(rr, r1, r2);
        let n = ring.len();
        let i1 = find_road(ring, r1);
        proof {
            lemma_ring_idx(rr, r1);
            lemma_ring_idx(rr, r2);
            assert(i1 as int == ring_idx(rr, r1));
            lemma_diag_new_partition(i, rr, r1, r2, filter_type);
            // r2 sits exactly d steps after r1
            assert(wrap(n_i, i1 as int + d) == i2);
            assert(circ(rr, i1 as int, d) == r2);
        }
        let mut group1: Vec<RoadID> = Vec::new();
        let mut idx: usize = i1;
        let mut cur: RoadID = ring[i1];
        group1.push(cur);
        proof {
            assert(wrap(n_i, i1 as int + 0) == i1 as int);
            assert(group1@[0] == circ(rr, i1 as int, 0));
        }
        while cur != r2
            invariant
                ring@ == rr,
                diag_inputs_ok(rr, r1, r2),
                n == rr.len(),
                n_i == rr.len() as int,
                0 <= i1 < n,
                i1 as int == ring_idx(rr, r1),
                i2 == ring_idx(rr, r2),
                d == arc_steps(rr, r1, r2),
                1 <= d < n_i,
                circ(rr, i1 as int, d) == r2,
                1 <= group1@.len() <= d + 1,
                idx < n,
                idx as int == wrap(n_i, i1 as int + group1@.len() - 1),
                cur == group1@[group1@.len() - 1],
                forall|k: int| 0 <= k < group1@.len() ==> group1@[k] == circ(rr, i1 as int, k),
            decreases d + 1 - group1@.len(),
        {
            proof {
                // not yet at r2, so strictly fewer than d steps taken
                let t = group1@.len() - 1;
                if t == d {
                    assert(cur == circ(rr, i1 as int, d));
                    assert(false);
                }
                if t < d {
                } else {
                    assert(false);
                }
            }
            idx = if idx + 1 == n {
                0
            } else {
                idx + 1
            };
            cur = ring[idx];
            group1.push(cur);
        }
        proof {
            // the walk stopped exactly at r2, after d steps
            let t = group1@.len() - 1;
            assert(group1@[t] == circ(rr, i1 as int, t));
            if t != d {
                lemma_circ_inj(rr, i1 as int, t, d);
                assert(false);
            }
            assert(group1@.len() == d + 1);
        }
        let m = n - group1.len();
        let mut group2: Vec<RoadID> = Vec::new();
        let mut t: usize = 0;
        while t < m
            invariant
                ring@ == rr,
                diag_inputs_ok(rr, r1, r2),
                n == rr.len(),
                n_i == rr.len() as int,
                0 <= i1 < n,
                i1 as int == ring_idx(rr, r1),
                d == arc_steps(rr, r1, r2),
                1 <= d < n_i,
                m == n_i - d - 1,
                t <= m,
                group2@.len() == t,
                idx < n,
                idx as int == wrap(n_i, i1 as int + d + t),
                forall|k: int| 0 <= k < t ==> group2@[k] == circ(rr, i1 as int, d + 1 + k),
            decreases m - t,
        {
            idx = if idx + 1 == n {
                0
            } else {
                idx + 1
            };
            group2.push(ring[idx]);
            t = t + 1;
        }
        let f = DiagonalFilter { r1, r2, i, filter_type, user_modified: true, group1, group2 };
        proof {
            let sf = spec_diag_new(i, rr, r1, r2, filter_type);
            assert(f@.group1 =~= sf.group1);
            assert(f@.group2 =~= sf.group2);
            assert(f@ == sf);
        }
        f
    }

    /// A turn between two roads is legal exactly when both sit on the same
    /// side of the filter.
    pub fn allows_turn(&self, from: RoadID, to: RoadID) -> (r: bool)
        ensures
            r == spec_allows_turn(self@, from, to),
    {
        vec_contains(&self.group1, from) == vec_contains(&self.group1, to)
    }

    /// Every ordered movement that crosses the two groups, both directions
    /// of every cross-group pair.
    pub fn avoid_movements_between_roads(&self) -> (pairs: Vec<(RoadID, RoadID)>)
        ensures
            forall|m: (RoadID, RoadID)| #[trigger]
                pairs@.contains(m) <==> cross_groups(self@, m.0, m.1),
    {
        let g1 = &self.group1;
        let g2 = &self.group2;
        let mut pairs: Vec<(RoadID, RoadID)> = Vec::new();
        let mut a: usize = 0;
        while a < g1.len()
            invariant
                a <= g1@.len(),
                g1@ == self@.group1,
                g2@ == self@.group2,
                forall|m: (RoadID, RoadID)| #[trigger]
                    pairs@.contains(m) <==> (exists|x: int, y: int|
                        0 <= x < a && 0 <= y < g2@.len() && (m == (g1@[x], g2@[y]) || m == (
                        g2@[y],
                        g1@[x],
                        ))),
            decreases g1@.len() - a,
        {
            let mut b: usize = 0;
            while b < g2.len()
                invariant
                    a < g1@.len(),
                    b <= g2@.len(),
                    g1@ == self@.group1,
                    g2@ == self@.group2,
                    forall|m: (RoadID, RoadID)| #[trigger]
                        pairs@.contains(m) <==> (exists|x: int, y: int|
                            (0 <= x < a && 0 <= y < g2@.len() || x == a && 0 <= y < b) && (m == (
                            g1@[x],
                            g2@[y],
                            ) || m == (g2@[y], g1@[x]))),
                decreases g2@.len() - b,
            {
                let p1 = (g1[a], g2[b]);
                let p2 = (g2[b], g1[a]);
                let ghost before = pairs@;
                pairs.push(p1);
                pairs.push(p2);
                proof {
                    assert forall|m: (RoadID, RoadID)| #[trigger]
                        pairs@.contains(m) implies (exists|x: int, y: int|
                        (0 <= x < a && 0 <= y < g2@.len() || x == a && 0 <= y < b + 1) && (m == (
                        g1@[x],
                        g2@[y],
                        ) || m == (g2@[y], g1@[x]))) by {
                        let w = choose|w: int| 0 <= w < pairs@.len() && pairs@[w] == m;
                        if w < before.len() {
                            assert(before.contains(m));
                        } else {
                            assert(m == p1 || m == p2);
                            assert((a as int) == (a as int) && 0 <= (b as int) < b + 1);
                            assert(m == (g1@[a as int], g2@[b as int]) || m == (
                                g2@[b as int],
                                g1@[a as int],
                            ));
                        }
                    };
                    assert forall|m: (RoadID, RoadID)|
                        (exists|x: int, y: int|
                            (0 <= x < a && 0 <= y < g2@.len() || x == a && 0 <= y < b + 1) && (m
                                == (g1@[x], g2@[y]) || m == (g2@[y], g1@[x]))) implies #[trigger]
                        pairs@.contains(m) by {
                        let (x, y) = choose|x: int, y: int|
                            (0 <= x < a && 0 <= y < g2@.len() || x == a && 0 <= y < b + 1) && (m
                                == (g1@[x], g2@[y]) || m == (g2@[y], g1@[x]));
                        if 0 <= x < a && 0 <= y < g2@.len() || x == a && 0 <= y < b {
                            assert(before.contains(m));
                            let w = choose|w: int| 0 <= w < before.len() && before[w] == m;
                            assert(pairs@[w] == m);
                        } else {
                            assert(x == a && y == b as int);
                            if m == p1 {
                                assert(pairs@[pairs@.len() - 2] == m);
                            } else {
                                assert(pairs@[pairs@.len() - 1] == m);
                            }
                        }
                    };
                }
                b = b + 1;
            }
            a = a + 1;
        }
        proof {
            assert forall|m: (RoadID, RoadID)| #[trigger]
                pairs@.contains(m) implies cross_groups(self@, m.0, m.1) by {
                let (x, y) = choose|x: int, y: int|
                    0 <= x < g1@.len() && 0 <= y < g2@.len() && (m == (g1@[x], g2@[y]) || m == (
                    g2@[y],
                    g1@[x],
                    ));
                assert(self@.group1.contains(g1@[x]));
                assert(self@.group2.contains(g2@[y]));
            };
            assert forall|m: (RoadID, RoadID)| cross_groups(self@, m.0, m.1) implies #[trigger]
                pairs@.contains(m) by {
                if self@.group1.contains(m.0) && self@.group2.contains(m.1) {
                    let x = choose|x: int| 0 <= x < g1@.len() && g1@[x] == m.0;
                    let y = choose|y: int| 0 <= y < g2@.len() && g2@[y] == m.1;
                    assert(m == (g1@[x], g2@[y]));
                } else {
                    let x = choose|x: int| 0 <= x < g1@.len() && g1@[x] == m.1;
                    let y = choose|y: int| 0 <= y < g2@.len() && g2@[y] == m.0;
                    assert(m == (g2@[y], g1@[x]));
                }
            };
        }
        pairs
    }

    /// Are the two filters the same physical filter? The boundary pair and
    /// the group partition are compared as unordered data; `filter_type`
    /// and `user_modified` are ignored.
    pub fn approx_eq(&self, other: &DiagonalFilter) -> (r: bool)
        requires
            diag_wf(self@),
            diag_wf(other@),
        ensures
            r == spec_equiv(self@, other@),
    {
        proof {
            lemma_pair_set_eq(self@.r1, self@.r2, other@.r1, other@.r2);
        }
        if self.i != other.i {
            return false;
        }
        let boundary_eq = (self.r1 == other.r1 && self.r2 == other.r2) || (self.r1 == other.r2
            && self.r2 == other.r1);
        if !boundary_eq {
            return false;
        }
        let g11 = roads_set_eq(&self.group1, &other.group1);
        let g22 = roads_set_eq(&self.group2, &other.group2);
        let g12 = roads_set_eq(&self.group1, &other.group2);
        let g21 = roads_set_eq(&self.group2, &other.group1);
        (g11 && g22) || (g12 && g21)
    }

    /// Field-for-field equality of content, groups in stored order. This
    /// is the structural comparison change detection needs; for "same
    /// physical filter" see `approx_eq`.
    pub fn same_content(&self, other: &DiagonalFilter) -> (r: bool)
        ensures
            r == (self@ == other@),
    {
        let r = self.r1 == other.r1 && self.r2 == other.r2 && self.i == other.i
            && self.filter_type == other.filter_type && self.user_modified == other.user_modified
            && roads_seq_eq(&self.group1, &other.group1) && roads_seq_eq(
            &self.group2,
            &other.group2,
        );
        proof {
            if r {
                assert(self@ =~= other@);
            }
        }
        r
    }

    /// A fresh filter with the same content.
    pub fn duplicate(&self) -> (r: DiagonalFilter)
        ensures
            r@ == self@,
    {
        DiagonalFilter {
            r1: self.r1,
            r2: self.r2,
            i: self.i,
            filter_type: self.filter_type,
            user_modified: self.user_modified,
            group1: copy_roads(&self.group1),
            group2: copy_roads(&self.group2),
        }
    }

    /// The intersection the filter sits in.
    pub fn intersection(&self) -> (r: IntersectionID)
        ensures
            r == self@.i,
    {
        self.i
    }

    /// The two boundary roads, as stored.
    pub fn boundary_roads(&self) -> (r: (RoadID, RoadID))
        ensures
            r == (self@.r1, self@.r2),
    {
        (self.r1, self.r2)
    }

    pub fn is_user_modified(&self) -> (r: bool)
        ensures
            r == self@.user_modified,
    {
        self.user_modified
    }

    /// The roads of the walked group, in walk order.
    pub fn group1_roads(&self) -> (r: Vec<RoadID>)
        ensures
            r@ == self@.group1,
    {
        copy_roads(&self.group1)
    }

    /// The roads of the remaining group, in walk order.
    pub fn group2_roads(&self) -> (r: Vec<RoadID>)
        ensures
            r@ == self@.group2,
    {
        copy_roads(&self.group2)
    }
}

} // verus!
