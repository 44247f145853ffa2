//! The alternative-cycling controller: one trigger action cycles an
//! intersection through its available filter configurations.
//!
//! A four-way intersection cycles through three states: no filter, a
//! diagonal filter across the first two roads, a diagonal filter across
//! the second and third. Any other intersection with at least two roads
//! degrades to round-robin cycling of a single road filter over the
//! eligible roads; an intersection with fewer than two candidates is left
//! alone.

use vstd::prelude::*;

use crate::diagonal::{
    diag_inputs_ok, lemma_pair_set_eq, lemma_ring_idx, ring_idx, spec_diag_new, spec_equiv,
    DiagonalFilter,
};
use crate::edits::{with_intersections, with_roads, Edits, EditsModel};
use crate::filters::{DistanceMm, FilterType, IntersectionID, RoadFilter, RoadID};

verus! {

/// What the controller needs to know of one driveable incident road of the
/// intersection, as the road-graph provider reports it.
#[derive(Clone, Copy, Debug, PartialEq, Eq, Structural)]
pub struct CandidateRoad {
    /// The road's identifier.
    pub r: RoadID,
    /// May a plain road filter go here? False for roads that are one-way
    /// against the filter or dead ends for driving.
    pub eligible: bool,
    /// Does the road start at this intersection? Decides at which end of
    /// the road a filter is placed.
    pub starts_at_i: bool,
    /// The road's length, in millimetres.
    pub length: DistanceMm,
}

/// The candidate roads' identifiers, in the given circular order.
pub open spec fn ring_of(cands: Seq<CandidateRoad>) -> Seq<RoadID> {
    cands.map_values(|c: CandidateRoad| c.r)
}

/// The candidates open to a plain road filter, in order.
pub open spec fn eligible_of(cands: Seq<CandidateRoad>) -> Seq<CandidateRoad>
    decreases cands.len(),
{
    if cands.len() == 0 {
        Seq::<CandidateRoad>::empty()
    } else {
        let rest = eligible_of(cands.drop_last());
        if cands.last().eligible {
            rest.push(cands.last())
        } else {
            rest
        }
    }
}

/// Where on a candidate road a filter goes: the end nearest the
/// intersection.
pub open spec fn filter_dist(c: CandidateRoad) -> DistanceMm {
    if c.starts_at_i {
        0
    } else {
        c.length
    }
}

/// The road filter the controller places on a candidate.
pub open spec fn placed_filter(c: CandidateRoad, ft: FilterType) -> RoadFilter {
    RoadFilter { dist: filter_dist(c), filter_type: ft, user_modified: true }
}

/// Does some eligible candidate already carry a road filter?
pub open spec fn has_filtered(roads: Map<u64, RoadFilter>, elig: Seq<CandidateRoad>) -> bool {
    exists|j: int| 0 <= j < elig.len() && roads.contains_key(#[trigger] elig[j].r)
}

/// The first eligible candidate already carrying a road filter.
pub open spec fn first_filtered_idx(roads: Map<u64, RoadFilter>, elig: Seq<CandidateRoad>) -> int {
    choose|j: int|
        0 <= j < elig.len() && #[trigger] roads.contains_key(elig[j].r) && (forall|l: int|
            0 <= l < j ==> !roads.contains_key(elig[l].r))
}

/// What one trigger action does to the edit state.
pub open spec fn spec_cycle(
    e: EditsModel,
    i: IntersectionID,
    cands: Seq<CandidateRoad>,
    ft: FilterType,
) -> EditsModel {
    let ring = ring_of(cands);
    if cands.len() == 4 {
        let alt1 = spec_diag_new(i, ring, ring[0], ring[1], ft);
        let alt2 = spec_diag_new(i, ring, ring[1], ring[2], ft);
        if !e.intersections.contains_key(i) {
            with_intersections(e, e.intersections.insert(i, alt1))
        } else if spec_equiv(e.intersections[i], alt1) {
            with_intersections(e, e.intersections.insert(i, alt2))
        } else if spec_equiv(e.intersections[i], alt2) {
            with_intersections(e, e.intersections.remove(i))
        } else {
            e
        }
    } else if cands.len() > 1 {
        let elig = eligible_of(cands);
        if elig.len() == 0 {
            e
        } else if has_filtered(e.roads, elig) {
            let j = first_filtered_idx(e.roads, elig);
            let removed = e.roads.remove(elig[j].r);
            if j + 1 < elig.len() {
                with_roads(e, removed.insert(elig[j + 1].r, placed_filter(elig[j + 1], ft)))
            } else {
                with_roads(e, removed)
            }
        } else {
            with_roads(e, e.roads.insert(elig[0].r, placed_filter(elig[0], ft)))
        }
    } else {
        e
    }
}

/// What the controller asks of its callers: distinct candidate roads, and
/// at a four-way intersection any existing filter must be one of the two
/// known alternatives — anything else is a caller's contract violation.
pub open spec fn cycle_pre(
    e: EditsModel,
    i: IntersectionID,
    cands: Seq<CandidateRoad>,
    ft: FilterType,
) -> bool {
    let ring = ring_of(cands);
    ring.no_duplicates() && (cands.len() == 4 ==> (!e.intersections.contains_key(i) || spec_equiv(
        e.intersections[i],
        spec_diag_new(i, ring, ring[0], ring[1], ft),
    ) || spec_equiv(e.intersections[i], spec_diag_new(i, ring, ring[1], ring[2], ft))))
}

/// In a duplicate-free ring, the entry at `j` has index `j`.
proof fn lemma_ring_idx_of(ring: Seq<RoadID>, j: int)
    requires
        ring.no_duplicates(),
        0 <= j < ring.len(),
    ensures
        ring.contains(ring[j]),
        ring_idx(ring, ring[j]) == j,
{
    assert(ring.contains(ring[j]));
    lemma_ring_idx(ring, ring[j]);
    let j2 = ring_idx(ring, ring[j]);
    if j2 != j {
        assert(ring[j2] == ring[j]);
        assert(false);
    }
}

/// Cycling a four-way intersection from the no-filter state three times
/// returns it to the no-filter state, and the two filters seen on the way
/// are never equivalent to each other.
pub proof fn lemma_cycle_round_trip(
    e: EditsModel,
    i: IntersectionID,
    cands: Seq<CandidateRoad>,
    ft: FilterType,
)
    requires
        cands.len() == 4,
        ring_of(cands).no_duplicates(),
        !e.intersections.contains_key(i),
    ensures
        ({
            let e1 = spec_cycle(e, i, cands, ft);
            let e2 = spec_cycle(e1, i, cands, ft);
            let e3 = spec_cycle(e2, i, cands, ft);
            &&& e1.intersections.contains_key(i)
            &&& e2.intersections.contains_key(i)
            &&& !spec_equiv(e1.intersections[i], e2.intersections[i])
            &&& e3 == e
        }),
{
    let ring = ring_of(cands);
    assert(ring.len() == 4);
    let alt1 = spec_diag_new(i, ring, ring[0], ring[1], ft);
    let alt2 = spec_diag_new(i, ring, ring[1], ring[2], ft);
    lemma_ring_idx_of(ring, 0);
    lemma_ring_idx_of(ring, 1);
    lemma_ring_idx_of(ring, 2);
    lemma_pair_set_eq(alt1.r1, alt1.r2, alt2.r1, alt2.r2);
    assert(!spec_equiv(alt1, alt2));
    assert(!spec_equiv(alt2, alt1));
    let e1 = spec_cycle(e, i, cands, ft);
    assert(e1.intersections == e.intersections.insert(i, alt1));
    assert(e1.intersections[i] == alt1);
    assert(spec_equiv(alt1, alt1));
    let e2 = spec_cycle(e1, i, cands, ft);
    assert(e2.intersections == e1.intersections.insert(i, alt2));
    assert(e2.intersections[i] == alt2);
    assert(spec_equiv(alt2, alt2));
    let e3 = spec_cycle(e2, i, cands, ft);
    assert(e3.intersections == e2.intersections.remove(i));
    assert(e3.intersections =~= e.intersections);
    assert(e3 =~= e);
}

/// The first eligible candidate whose road already carries a filter.
fn find_first_filtered(edits: &Edits, elig: &Vec<CandidateRoad>) -> (r: Option<usize>)
    requires
        edits.wf(),
    ensures
        (match r {
            Some(j) => j < elig@.len() && edits@.roads.contains_key(elig@[j as int].r) && (forall|
                l: int,
            |
                0 <= l < j ==> !edits@.roads.contains_key(#[trigger] elig@[l].r)),
            None => forall|l: int|
                0 <= l < elig@.len() ==> !edits@.roads.contains_key(#[trigger] elig@[l].r),
        }),
{
    let mut j: usize = 0;
    while j < elig.len()
        invariant
            j <= elig@.len(),
            edits.wf(),
            forall|l: int| 0 <= l < j ==> !edits@.roads.contains_key(#[trigger] elig@[l].r),
        decreases elig@.len() - j,
    {
        let c = elig[j];
        if edits.road_filter(c.r).is_some() {
            return Some(j);
        }
        j = j + 1;
    }
    None
}

impl DiagonalFilter {
    /// One trigger action of the cycling controller. The caller hands in
    /// the intersection's driveable incident roads in clockwise circular
    /// order, and is expected to wrap the call in its snapshot-before-edit
    /// convention.
    pub fn cycle_through_alternatives(
        edits: &mut Edits,
        i: IntersectionID,
        candidates: &Vec<CandidateRoad>,
        filter_type: FilterType,
    )
        requires
            old(edits).wf(),
            cycle_pre(old(edits)@, i, candidates@, filter_type),
        ensures
            final(edits).wf(),
            final(edits)@ == spec_cycle(old(edits)@, i, candidates@, filter_type),
    {
        let ghost ring_g = ring_of(candidates@);
        let n = candidates.len();
        if n == 4 {
            let mut ring: Vec<RoadID> = Vec::new();
            let mut j: usize = 0;
            while j < n
                invariant
                    n == candidates@.len(),
                    j <= n,
                    ring@.len() == j,
                    forall|l: int| 0 <= l < j ==> ring@[l] == candidates@[l].r,
                decreases n - j,
            {
                let c = candidates[j];
                ring.push(c.r);
                j = j + 1;
            }
            proof {
                assert(ring@ =~= ring_g);
                lemma_ring_idx_of(ring_g, 0);
                lemma_ring_idx_of(ring_g, 1);
                lemma_ring_idx_of(ring_g, 2);
                assert(diag_inputs_ok(ring@, ring@[0], ring@[1]));
                assert(diag_inputs_ok(ring@, ring@[1], ring@[2]));
            }
            let r0 = ring[0];
            let r1 = ring[1];
            let r2 = ring[2];
            let alt1 = DiagonalFilter::new(i, &ring, r0, r1, filter_type);
            let alt2 = DiagonalFilter::new(i, &ring, r1, r2, filter_type);
            let have = edits.has_intersection_filter(i);
            let mut is1 = false;
            if have {
                match edits.intersection_filter_ref(i) {
                    Some(prev) => {
                        is1 = prev.approx_eq(&alt1);
                    },
                    None => {
                        proof {
                            assert(false);
                        }
                    },
                }
            }
            if !have {
                edits.set_intersection_filter(alt1);
                proof {
                    assert(edits@ =~= spec_cycle(old(edits)@, i, candidates@, filter_type));
                }
            } else if is1 {
                edits.set_intersection_filter(alt2);
                proof {
                    assert(edits@ =~= spec_cycle(old(edits)@, i, candidates@, filter_type));
                }
            } else {
                proof {
                    assert(spec_equiv(old(edits)@.intersections[i], alt2@));
                }
                edits.remove_intersection_filter(i);
                proof {
                    assert(edits@ =~= spec_cycle(old(edits)@, i, candidates@, filter_type));
                }
            }
        } else if n > 1 {
            let mut elig: Vec<CandidateRoad> = Vec::new();
            let mut j: usize = 0;
            while j < n
                invariant
                    n == candidates@.len(),
                    j <= n,
                    elig@ == eligible_of(candidates@.subrange(0, j as int)),
                decreases n - j,
            {
                let c = candidates[j];
                proof {
                    assert(candidates@.subrange(0, j + 1 as int).drop_last()
                        =~= candidates@.subrange(0, j as int));
                    assert(candidates@.subrange(0, j + 1 as int).last() == c);
                }
                if c.eligible {
                    elig.push(c);
                }
                j = j + 1;
            }
            proof {
                assert(candidates@.subrange(0, n as int) =~= candidates@);
                assert(elig@ == eligible_of(candidates@));
            }
            if elig.len() == 0 {
                proof {
                    assert(edits@ =~= spec_cycle(old(edits)@, i, candidates@, filter_type));
                }
                return ;
            }
            let found = find_first_filtered(edits, &elig);
            match found {
                Some(jf) => {
                    proof {
                        assert(has_filtered(edits@.roads, elig@));
                        let j0 = first_filtered_idx(edits@.roads, elig@);
                        assert(0 <= j0 < elig@.len() && edits@.roads.contains_key(elig@[j0].r) && (
                        forall|l: int| 0 <= l < j0 ==> !edits@.roads.contains_key(elig@[l].r)));
                        if j0 < jf as int {
                            assert(!edits@.roads.contains_key(elig@[j0].r));
                            assert(false);
                        }
                        if jf < j0 {
                            assert(!edits@.roads.contains_key(elig@[jf as int].r));
                            assert(false);
                        }
                        assert(j0 == jf as int);
                    }
                    let cj = elig[jf];
                    edits.remove_road_filter(cj.r);
                    if jf + 1 < elig.len() {
                        let c = elig[jf + 1];
                        let dist: DistanceMm = if c.starts_at_i {
                            0
                        } else {
                            c.length
                        };
                        edits.place_road_filter(c.r, dist, filter_type);
                        proof {
                            assert(edits@ =~= spec_cycle(
                                old(edits)@,
                                i,
                                candidates@,
                                filter_type,
                            ));
                        }
                    } else {
                        proof {
                            assert(edits@ =~= spec_cycle(
                                old(edits)@,
                                i,
                                candidates@,
                                filter_type,
                            ));
                        }
                    }
                },
                None => {
                    proof {
                        assert(!has_filtered(edits@.roads, elig@));
                    }
                    let c = elig[0];
                    let dist: DistanceMm = if c.starts_at_i {
                        0
                    } else {
                        c.length
                    };
                    edits.place_road_filter(c.r, dist, filter_type);
                    proof {
                        assert(edits@ =~= spec_cycle(old(edits)@, i, candidates@, filter_type));
                    }
                },
            }
        } else {
            proof {
                assert(edits@ =~= spec_cycle(old(edits)@, i, candidates@, filter_type));
            }
        }
    }
}

} // verus!

