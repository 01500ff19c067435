//! The catchment of a cell: the cells whose water passes through it.

use crate::flow::FlowModel;
use vstd::prelude::*;

verus! {

impl FlowModel {
    /// The cell that water from cell `j` has reached after `steps` steps
    /// along the flow; `None` once it has come to rest.
    pub open spec fn journey(&self, j: int, steps: nat) -> Option<int>
        decreases steps,
    {
        if steps == 0 {
            if 0 <= j < self.cells() {
                Some(j)
            } else {
                None
            }
        } else {
            match self.journey(j, (steps - 1) as nat) {
                Some(c) => self.downstream(c),
                None => None,
            }
        }
    }

    /// The water of cell `j` passes through cell `i`.
    pub open spec fn drains_to(&self, j: int, i: int) -> bool {
        exists|steps: nat| self.journey(j, steps) == Some(i)
    }

    /// The cells whose water passes through cell `i`.
    pub open spec fn catchment(&self, i: int) -> Set<int> {
        Set::new(|j: int| self.drains_to(j, i))
    }

    /// The neighbour at place `kk` around cell `i` pours into it, and the
    /// water of cell `j` passes through that neighbour.
    spec fn brings(&self, i: int, kk: int, j: int) -> bool {
        self.source(i, kk) matches Some(s) && self.drains_to(j, s)
    }

    /// Cell `i` and the catchments of the neighbours at the first `k`
    /// places around it that pour into it.
    spec fn gathering(&self, i: int, k: int) -> Set<int>
        decreases k,
    {
        if k <= 0 {
            set![i]
        } else {
            match self.source(i, k - 1) {
                Some(s) => self.gathering(i, k - 1) + self.catchment(s),
                None => self.gathering(i, k - 1),
            }
        }
    }

    /// Water only ever reaches cells of the grid, and never a higher one.
    proof fn lemma_journey_descends(&self, j: int, steps: nat)
        requires
            self.wf(),
            self.journey(j, steps) is Some,
        ensures
            0 <= j < self.cells(),
            0 <= self.journey(j, steps)->Some_0 < self.cells(),
            self.dem.data@[self.journey(j, steps)->Some_0] <= self.dem.data@[j],
            steps > 0 ==> self.dem.data@[self.journey(j, steps)->Some_0] < self.dem.data@[j],
        decreases steps,
    {
        if steps > 0 {
            self.lemma_journey_descends(j, (steps - 1) as nat);
            self.lemma_flow_descends(self.journey(j, (steps - 1) as nat)->Some_0);
        }
    }

    /// Water never comes back to where it has been: in a well-formed model
    /// the flow has no circle.
    pub proof fn lemma_flow_has_no_circle(&self, j: int, steps: nat)
        requires
            self.wf(),
            self.journey(j, steps) == Some(j),
        ensures
            steps == 0,
    {
        self.lemma_journey_descends(j, steps);
    }

    /// A journey can be made in two legs.
    proof fn lemma_journey_in_legs(&self, j: int, first: nat, second: nat)
        requires
            self.wf(),
            self.journey(j, first) is Some,
        ensures
            self.journey(j, first + second) == self.journey(
                self.journey(j, first)->Some_0,
                second,
            ),
        decreases second,
    {
        if second > 0 {
            self.lemma_journey_in_legs(j, first, (second - 1) as nat);
            assert((first + second - 1) as nat == first + (second - 1) as nat);
        } else {
            self.lemma_journey_descends(j, first);
        }
    }

    /// Water that passes through a cell which pours into cell `i` passes
    /// through cell `i`.
    proof fn lemma_drains_on(&self, j: int, s: int, i: int)
        requires
            self.drains_to(j, s),
            self.downstream(s) == Some(i),
        ensures
            self.drains_to(j, i),
    {
        let steps = choose|steps: nat| self.journey(j, steps) == Some(s);
        assert(self.journey(j, steps + 1) == Some(i));
    }

    /// Water that passes through cell `i` starts there or passes through a
    /// neighbour that pours into it.
    proof fn lemma_drains_through_source(&self, j: int, i: int) -> (kk: int)
        requires
            self.wf(),
            self.drains_to(j, i),
            j != i,
        ensures
            0 <= kk < 8,
            self.brings(i, kk, j),
    {
        let steps = choose|steps: nat| self.journey(j, steps) == Some(i);
        assert(steps > 0);
        let c = self.journey(j, (steps - 1) as nat)->Some_0;
        self.lemma_journey_descends(j, (steps - 1) as nat);
        self.lemma_flow_descends(c);
        crate::direction::lemma_octant_round_trip(self.outflow(c).spec_opposite());
        let kk = self.outflow(c).spec_opposite().spec_octant();
        self.lemma_source_where(i, kk, c);
        assert(self.journey(j, (steps - 1) as nat) == Some(c));
        kk
    }

    /// The water of one cell does not pass through two neighbours that both
    /// pour into the same cell, nor does the water of that cell pass through
    /// either.
    proof fn lemma_one_way_in(&self, j: int, one: int, other: int, i: int)
        requires
            self.wf(),
            self.pours(one, i),
            self.pours(other, i),
            self.drains_to(j, one),
            self.drains_to(j, other) || j == i,
        ensures
            one == other && j != i,
    {
        let a = choose|a: nat| self.journey(j, a) == Some(one);
        self.lemma_journey_descends(j, a);
        if j == i {
            // Water from `i` never climbs back to what pours into `i`.
        } else {
            let b = choose|b: nat| self.journey(j, b) == Some(other);
            if a < b {
                self.lemma_journey_in_legs(j, a + 1, (b - a - 1) as nat);
                assert(self.journey(j, a + 1) == Some(i));
                assert(a + 1 + (b - a - 1) == b);
                self.lemma_journey_descends(i, (b - a - 1) as nat);
            } else if b < a {
                self.lemma_journey_in_legs(j, b + 1, (a - b - 1) as nat);
                assert(self.journey(j, b + 1) == Some(i));
                assert(b + 1 + (a - b - 1) == a);
                self.lemma_journey_descends(i, (a - b - 1) as nat);
            }
        }
    }

    /// The cell and the catchments of what pours into it are as many cells
    /// as flow in, and one more.
    proof fn lemma_gathering_counts(&self, i: int, k: int)
        requires
            self.wf(),
            0 <= i < self.cells(),
            0 <= k <= 8,
        ensures
            self.gathering(i, k).finite(),
            self.gathering(i, k).len() == 1 + self.inflow(i, k),
            self.gathering(i, k).contains(i),
            forall|j: int|
                #[trigger] self.gathering(i, k).contains(j) ==> j == i || exists|kk: int|
                    0 <= kk < k && #[trigger] self.brings(i, kk, j),
        decreases self.rank(i), k,
    {
        if k > 0 {
            self.lemma_gathering_counts(i, k - 1);
            let before = self.gathering(i, k - 1);
            if let Some(s) = self.source(i, k - 1) {
                self.lemma_catchment_counts(s);
                let added = self.catchment(s);
                assert(before.disjoint(added)) by {
                    assert forall|j: int| before.contains(j) implies !added.contains(j) by {
                        if added.contains(j) {
                            if j == i {
                                self.lemma_one_way_in(j, s, s, i);
                            } else {
                                let kk = choose|kk: int|
                                    0 <= kk < k - 1 && #[trigger] self.brings(i, kk, j);
                                let o = self.source(i, kk)->Some_0;
                                self.lemma_one_way_in(j, s, o, i);
                                self.lemma_source_at_most_once(i, kk, k - 1);
                            }
                        }
                    }
                }
                vstd::set_lib::lemma_set_disjoint_lens(before, added);
                assert forall|j: int| #[trigger]
                    self.gathering(i, k).contains(j) implies j == i || exists|kk: int|
                    0 <= kk < k && #[trigger] self.brings(i, kk, j) by {
                    if before.contains(j) {
                        if j != i {
                            let kk = choose|kk: int|
                                0 <= kk < k - 1 && #[trigger] self.brings(i, kk, j);
                            assert(0 <= kk < k);
                        }
                    } else {
                        assert(added.contains(j));
                        assert(self.brings(i, k - 1, j));
                    }
                }
            } else {
                assert forall|j: int| #[trigger]
                    self.gathering(i, k).contains(j) implies j == i || exists|kk: int|
                    0 <= kk < k && #[trigger] self.brings(i, kk, j) by {
                    if j != i {
                        let kk = choose|kk: int|
                            0 <= kk < k - 1 && #[trigger] self.brings(i, kk, j);
                        assert(0 <= kk < k);
                    }
                }
            }
        }
    }

    /// As many cells drain through a cell as its accumulation counts: the
    /// catchment of cell `i` is finite and has `upstream(i)` cells.
    pub proof fn lemma_catchment_counts(&self, i: int)
        requires
            self.wf(),
            0 <= i < self.cells(),
        ensures
            self.catchment(i).finite(),
            self.catchment(i).len() == self.upstream(i),
        decreases self.rank(i), 9int,
    {
        self.lemma_gathering_counts(i, 8);
        let gathered = self.gathering(i, 8);
        assert forall|j: int| gathered.contains(j) implies self.catchment(i).contains(j) by {
            if j == i {
                assert(self.journey(i, 0) == Some(i));
            } else {
                let kk = choose|kk: int|
                    0 <= kk < 8 && #[trigger] self.brings(i, kk, j);
                self.lemma_drains_on(j, self.source(i, kk)->Some_0, i);
            }
        }
        assert forall|j: int| self.catchment(i).contains(j) implies gathered.contains(j) by {
            if j != i {
                let kk = self.lemma_drains_through_source(j, i);
                self.lemma_gathering_holds(i, kk, 8, j);
            }
        }
        assert(self.catchment(i) =~= gathered);
    }

    /// What drains through a neighbour that pours into cell `i` is gathered
    /// once that neighbour's place has been looked at.
    proof fn lemma_gathering_holds(&self, i: int, kk: int, k: int, j: int)
        requires
            0 <= kk < k <= 8,
            self.brings(i, kk, j),
        ensures
            self.gathering(i, k).contains(j),
        decreases k,
    {
        if kk < k - 1 {
            self.lemma_gathering_holds(i, kk, k - 1, j);
        }
    }

    /// A neighbour that pours into cell `i` is found at one place only.
    proof fn lemma_source_at_most_once(&self, i: int, one: int, other: int)
        requires
            self.wf(),
            0 <= one < 8,
            0 <= other < 8,
            self.source(i, one) is Some,
            self.source(i, one) == self.source(i, other),
        ensures
            one == other,
    {
        let c = self.source(i, one)->Some_0;
        self.lemma_source_where(i, one, c);
        self.lemma_source_where(i, other, c);
    }
}

} // verus!
