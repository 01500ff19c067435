//! Flow accumulation: how many cells drain through each cell.

use crate::dem::{lemma_cell_coordinates, lemma_index_in_range, Terrain};
use crate::direction::{FlowDirection, FlowMethod};
use crate::flow::{filled, FlowModel};
use crate::model::ModelError;
use crate::sorting::{is_sorted, lemma_sorted_rearrangement, sort_entries};
use std::collections::VecDeque;
use vstd::prelude::*;

verus! {

/// The sum of `values[i]` over the indices `i < upto` that `chosen` marks.
pub open spec fn sum_where(values: Seq<u64>, chosen: Seq<bool>, upto: int) -> int
    decreases upto,
{
    if upto <= 0 {
        0
    } else {
        sum_where(values, chosen, upto - 1) + if chosen[upto - 1] {
            values[upto - 1] as int
        } else {
            0
        }
    }
}

impl FlowModel {
    /// How far cell `i` lies below the highest elevation there can be.
    pub open spec fn rank(&self, i: int) -> nat {
        if 0 <= i < self.cells() {
            (i32::MAX - self.dem.data@[i]) as nat
        } else {
            0
        }
    }

    /// Cell `j` lies higher than cell `i` and hands its water to it.
    pub open spec fn pours(&self, j: int, i: int) -> bool {
        &&& 0 <= j < self.cells()
        &&& 0 <= i < self.cells()
        &&& self.downstream(j) == Some(i)
        &&& self.dem.data@[j] > self.dem.data@[i]
    }

    /// The neighbour at place `k` around cell `i`, where it pours into
    /// cell `i`.
    pub open spec fn source(&self, i: int, k: int) -> Option<int> {
        match self.dem@.neighbor(i, FlowDirection::spec_from_octant(k)) {
            Some(j) => if self.pours(j, i) {
                Some(j)
            } else {
                None
            },
            None => None,
        }
    }

    /// The number of cells whose water passes through cell `i`: the cell
    /// itself and everything upstream of the neighbours that pour into it.
    pub open spec fn upstream(&self, i: int) -> nat
        decreases self.rank(i), 9int,
    {
        if 0 <= i < self.cells() {
            1 + self.inflow(i, 8)
        } else {
            0
        }
    }

    /// What the neighbours at the first `k` places around cell `i` bring
    /// in.
    pub open spec fn inflow(&self, i: int, k: int) -> nat
        decreases self.rank(i), k,
    {
        if k <= 0 || k > 8 {
            0
        } else {
            self.inflow(i, k - 1) + match self.source(i, k - 1) {
                Some(j) => self.upstream(j),
                None => 0,
            }
        }
    }

    /// The cells from which no water flows on.
    pub open spec fn outlets(&self) -> Seq<bool> {
        Seq::new(self.cells() as nat, |i: int| self.downstream(i) is None)
    }

    /// The place around its downstream cell at which cell `c` lies.
    spec fn entry_octant(&self, c: int) -> int {
        self.outflow(c).spec_opposite().spec_octant()
    }

    /// How many of the neighbours at the first `k` places around cell `i`
    /// pour into it and are flagged.
    spec fn waiting(&self, i: int, flags: Seq<bool>, k: int) -> int
        decreases k,
    {
        if k <= 0 {
            0
        } else {
            self.waiting(i, flags, k - 1) + match self.source(i, k - 1) {
                Some(j) => if flags[j] {
                    1int
                } else {
                    0int
                },
                None => 0int,
            }
        }
    }

    /// What the flagged neighbours at the first `k` places around cell `i`
    /// bring in.
    spec fn settled(&self, i: int, flags: Seq<bool>, k: int) -> int
        decreases k,
    {
        if k <= 0 {
            0
        } else {
            self.settled(i, flags, k - 1) + match self.source(i, k - 1) {
                Some(j) => if flags[j] {
                    self.upstream(j) as int
                } else {
                    0int
                },
                None => 0int,
            }
        }
    }
}

/// Stepping to a neighbour and back in the opposite direction returns to
/// the start, and no other direction does.
proof fn lemma_back_neighbor(t: Terrain, c: int, direction: FlowDirection, i: int)
    requires
        t.wf(),
        t.neighbor(c, direction) == Some(i),
    ensures
        0 <= i < t.cells.len(),
        i != c,
        t.neighbor(i, direction.spec_opposite()) == Some(c),
        forall|other: FlowDirection| #[trigger]
            t.neighbor(i, other) == Some(c) ==> other == direction.spec_opposite(),
{
    let w = t.width as int;
    let h = t.height as int;
    lemma_cell_coordinates(w, h, c);
    let nx = t.col(c) + direction.spec_offset().0;
    let ny = t.row(c) + direction.spec_offset().1;
    lemma_index_in_range(w, h, nx, ny);
    assert(t.col(i) == nx && t.row(i) == ny);
    lemma_index_in_range(w, h, t.col(c), t.row(c));
    assert forall|other: FlowDirection| #[trigger]
        t.neighbor(i, other) == Some(c) implies other == direction.spec_opposite() by {
        let bx = nx + other.spec_offset().0;
        let by = ny + other.spec_offset().1;
        lemma_index_in_range(w, h, bx, by);
    }
}

impl FlowModel {
    /// In a well-formed model, water flows strictly downhill between cells
    /// with data.
    pub proof fn lemma_flow_descends(&self, c: int)
        requires
            self.wf(),
            0 <= c < self.cells(),
            self.downstream(c) is Some,
        ensures
            self.pours(c, self.downstream(c)->Some_0),
            self.dem@.valid(c),
            self.dem@.valid(self.downstream(c)->Some_0),
    {
        let d = self.downstream(c)->Some_0;
        lemma_back_neighbor(self.dem@, c, self.outflow(c), d);
        match (self.flow_method, self.dinf_flow_proportions) {
            (FlowMethod::DInf, Some(table)) => {
                assert(self.dem@.gives_downhill(c, table@[c]@));
                crate::flow::lemma_strongest_positive(table@[c]@, 8);
            },
            _ => {
                assert(self.routed_at(c));
            },
        }
    }

    /// The neighbour at place `k` around `i` is the pouring cell `c`
    /// exactly when `c` pours into `i` and lies at that place.
    pub proof fn lemma_source_where(&self, i: int, k: int, c: int)
        requires
            self.wf(),
            0 <= k < 8,
        ensures
            self.source(i, k) == Some(c) <==> (self.pours(c, i) && k == self.outflow(
                c,
            ).spec_opposite().spec_octant()),
    {
        self.lemma_source_iff(i, k, c);
    }

    /// The neighbour at place `k` around `i` is the pouring cell `c`
    /// exactly when `c` pours into `i` and lies at that place.
    proof fn lemma_source_iff(&self, i: int, k: int, c: int)
        requires
            self.wf(),
            0 <= k < 8,
        ensures
            self.source(i, k) == Some(c) <==> (self.pours(c, i) && k == self.entry_octant(c)),
    {
        let t = self.dem@;
        if self.pours(c, i) {
            lemma_back_neighbor(t, c, self.outflow(c), i);
            if self.source(i, k) == Some(c) {
                assert(t.neighbor(i, FlowDirection::spec_from_octant(k)) == Some(c));
            }
            if k == self.entry_octant(c) {
                crate::direction::lemma_octant_round_trip(self.outflow(c).spec_opposite());
            }
        }
    }

    /// Changing the flag of cell `c` changes the count of flagged sources
    /// of the cell it pours into by one, and no other count.
    proof fn lemma_waiting_flip(&self, i: int, flags: Seq<bool>, c: int, flag: bool, k: int)
        requires
            self.wf(),
            0 <= k <= 8,
            0 <= c < flags.len(),
            flags.len() == self.cells(),
        ensures
            self.waiting(i, flags.update(c, flag), k) == self.waiting(i, flags, k) + if self.pours(
                c,
                i,
            ) && self.entry_octant(c) < k && flags[c] != flag {
                if flag {
                    1int
                } else {
                    -1int
                }
            } else {
                0int
            },
        decreases k,
    {
        if k > 0 {
            self.lemma_waiting_flip(i, flags, c, flag, k - 1);
            self.lemma_source_iff(i, k - 1, c);
        }
    }

    /// Changing the flag of cell `c` changes what the flagged sources of
    /// the cell it pours into bring in by what is upstream of `c`, and
    /// changes nothing for any other cell.
    proof fn lemma_settled_flip(&self, i: int, flags: Seq<bool>, c: int, k: int)
        requires
            self.wf(),
            0 <= k <= 8,
            0 <= c < flags.len(),
            flags.len() == self.cells(),
            !flags[c],
        ensures
            self.settled(i, flags.update(c, true), k) == self.settled(i, flags, k) + if self.pours(
                c,
                i,
            ) && self.entry_octant(c) < k {
                self.upstream(c) as int
            } else {
                0int
            },
        decreases k,
    {
        if k > 0 {
            self.lemma_settled_flip(i, flags, c, k - 1);
            self.lemma_source_iff(i, k - 1, c);
        }
    }

    /// The count of flagged sources lies between 0 and the number of
    /// places looked at.
    proof fn lemma_waiting_bounds(&self, i: int, flags: Seq<bool>, k: int)
        requires
            0 <= k <= 8,
        ensures
            0 <= self.waiting(i, flags, k) <= k,
        decreases k,
    {
        if k > 0 {
            self.lemma_waiting_bounds(i, flags, k - 1);
        }
    }

    /// Where the count of flagged sources is positive, a flagged source
    /// exists.
    proof fn lemma_waiting_witness(&self, i: int, flags: Seq<bool>, k: int) -> (j: int)
        requires
            0 <= k <= 8,
            self.waiting(i, flags, k) > 0,
        ensures
            exists|kk: int| 0 <= kk < k && self.source(i, kk) == Some(j),
            flags[j],
        decreases k,
    {
        if self.waiting(i, flags, k - 1) > 0 {
            let j = self.lemma_waiting_witness(i, flags, k - 1);
            let kk = choose|kk: int| 0 <= kk < k - 1 && self.source(i, kk) == Some(j);
            assert(0 <= kk < k && self.source(i, kk) == Some(j));
            j
        } else {
            assert(self.source(i, k - 1) is Some);
            self.source(i, k - 1)->Some_0
        }
    }

    /// Where no source is flagged, the count of flagged sources is 0.
    proof fn lemma_waiting_none(&self, i: int, flags: Seq<bool>, k: int)
        requires
            0 <= k <= 8,
            forall|kk: int|
                0 <= kk < k ==> (#[trigger] self.source(i, kk) matches Some(j) ==> !flags[j]),
        ensures
            self.waiting(i, flags, k) == 0,
        decreases k,
    {
        if k > 0 {
            self.lemma_waiting_none(i, flags, k - 1);
            assert(self.source(i, k - 1) matches Some(j) ==> !flags[j]);
        }
    }

    /// Where every source is flagged, the flagged sources bring in all
    /// there is.
    proof fn lemma_settled_full(&self, i: int, flags: Seq<bool>, k: int)
        requires
            0 <= k <= 8,
            0 <= i < self.cells(),
            forall|kk: int|
                0 <= kk < k ==> (#[trigger] self.source(i, kk) matches Some(j) ==> flags[j]),
        ensures
            self.settled(i, flags, k) == self.inflow(i, k),
        decreases k,
    {
        if k > 0 {
            self.lemma_settled_full(i, flags, k - 1);
            assert(self.source(i, k - 1) matches Some(j) ==> flags[j]);
        }
    }

    /// Where no source is flagged, the flagged sources bring in nothing.
    proof fn lemma_settled_none(&self, i: int, flags: Seq<bool>, k: int)
        requires
            0 <= k <= 8,
            forall|kk: int|
                0 <= kk < k ==> (#[trigger] self.source(i, kk) matches Some(j) ==> !flags[j]),
        ensures
            self.settled(i, flags, k) == 0,
        decreases k,
    {
        if k > 0 {
            self.lemma_settled_none(i, flags, k - 1);
            assert(self.source(i, k - 1) matches Some(j) ==> !flags[j]);
        }
    }
}

/// A chosen value is at most the sum, and so are two of them together.
proof fn lemma_sum_dominates(values: Seq<u64>, chosen: Seq<bool>, upto: int, a: int, b: int)
    requires
        0 <= upto <= values.len(),
        values.len() == chosen.len(),
        0 <= a < upto,
        0 <= b < upto,
        chosen[a],
        chosen[b],
    ensures
        sum_where(values, chosen, upto) >= 0,
        values[a] <= sum_where(values, chosen, upto),
        a != b ==> values[a] + values[b] <= sum_where(values, chosen, upto),
    decreases upto,
{
    lemma_sum_nonnegative(values, chosen, upto - 1);
    if a < upto - 1 && b < upto - 1 {
        lemma_sum_dominates(values, chosen, upto - 1, a, b);
    } else if a < upto - 1 {
        lemma_sum_dominates(values, chosen, upto - 1, a, a);
    } else if b < upto - 1 {
        lemma_sum_dominates(values, chosen, upto - 1, b, b);
    }
}

proof fn lemma_sum_nonnegative(values: Seq<u64>, chosen: Seq<bool>, upto: int)
    ensures
        sum_where(values, chosen, upto) >= 0,
    decreases upto,
{
    if upto > 0 {
        lemma_sum_nonnegative(values, chosen, upto - 1);
    }
}

/// What one entry adds to the sum.
spec fn share(values: Seq<u64>, chosen: Seq<bool>, i: int) -> int {
    if chosen[i] {
        values[i] as int
    } else {
        0
    }
}

/// Two sums over sequences that differ at two places at most differ by
/// what those places add.
proof fn lemma_sum_differs(
    v0: Seq<u64>,
    c0: Seq<bool>,
    v1: Seq<u64>,
    c1: Seq<bool>,
    upto: int,
    a: int,
    b: int,
)
    requires
        a != b,
        forall|i: int| 0 <= i < upto && i != a && i != b ==> share(v0, c0, i) == share(v1, c1, i),
    ensures
        sum_where(v1, c1, upto) - sum_where(v0, c0, upto) == (if 0 <= a < upto {
            share(v1, c1, a) - share(v0, c0, a)
        } else {
            0
        }) + (if 0 <= b < upto {
            share(v1, c1, b) - share(v0, c0, b)
        } else {
            0
        }),
    decreases upto,
{
    if upto > 0 {
        lemma_sum_differs(v0, c0, v1, c1, upto - 1, a, b);
        if upto - 1 != a && upto - 1 != b {
            assert(share(v0, c0, upto - 1) == share(v1, c1, upto - 1));
        }
    }
}

/// The sum of ones over all places is the number of places.
proof fn lemma_sum_of_ones(values: Seq<u64>, chosen: Seq<bool>, upto: int)
    requires
        0 <= upto <= values.len(),
        values.len() == chosen.len(),
        forall|i: int| 0 <= i < upto ==> values[i] == 1 && chosen[i],
    ensures
        sum_where(values, chosen, upto) == upto,
    decreases upto,
{
    if upto > 0 {
        lemma_sum_of_ones(values, chosen, upto - 1);
    }
}

/// Bookkeeping of the sweep through the flow graph, kept for the proof
/// only.
struct Sweep {
    /// Cells whose water has been handed on.
    done: Seq<bool>,
    /// Cells whose water has not been handed on yet.
    todo: Seq<bool>,
    /// Cells that still hold the water that reached them.
    live: Seq<bool>,
    /// The cells that are done, as a set.
    members: Set<int>,
}

impl FlowModel {
    spec fn sweep_shape(
        &self,
        acc: Seq<u64>,
        indegree: Seq<usize>,
        sw: Sweep,
    ) -> bool {
        let n = self.cells();
        &&& self.wf()
        &&& acc.len() == n
        &&& indegree.len() == n
        &&& sw.done.len() == n
        &&& sw.todo.len() == n
        &&& sw.live.len() == n
        &&& forall|j: int| 0 <= j < n ==> #[trigger] sw.todo[j] == !sw.done[j]
        &&& forall|i: int|
            0 <= i < n ==> #[trigger] sw.live[i] == !(sw.done[i] && self.downstream(i) is Some)
        &&& forall|i: int|
            0 <= i < n && #[trigger] sw.done[i] ==> indegree[i] == 0 && self.dem@.valid(i)
        &&& sw.members.finite()
        &&& forall|i: int| #[trigger] sw.members.contains(i) <==> (0 <= i < n && sw.done[i])
    }

    spec fn sweep_counts(&self, acc: Seq<u64>, indegree: Seq<usize>, sw: Sweep) -> bool {
        let n = self.cells();
        &&& forall|i: int| 0 <= i < n ==> #[trigger] indegree[i] == self.waiting(i, sw.todo, 8)
        &&& forall|i: int| 0 <= i < n ==> #[trigger] acc[i] == 1 + self.settled(i, sw.done, 8)
        &&& sum_where(acc, sw.live, n) == n
    }

    spec fn sweep_queue(&self, indegree: Seq<usize>, queue: Seq<usize>, sw: Sweep) -> bool {
        let n = self.cells();
        &&& forall|a: int|
            0 <= a < queue.len() ==> {
                &&& (#[trigger] queue[a]) < n
                &&& self.dem@.valid(queue[a] as int)
                &&& !sw.done[queue[a] as int]
                &&& indegree[queue[a] as int] == 0
            }
        &&& forall|a: int, b: int|
            0 <= a < b < queue.len() ==> #[trigger] queue[a] != #[trigger] queue[b]
        &&& forall|i: int|
            0 <= i < n && self.dem@.valid(i) && !sw.done[i] && #[trigger] indegree[i] == 0
                ==> queue.contains(i as usize)
    }

    spec fn sweep_inv(
        &self,
        acc: Seq<u64>,
        indegree: Seq<usize>,
        queue: Seq<usize>,
        sw: Sweep,
    ) -> bool {
        &&& self.sweep_shape(acc, indegree, sw)
        &&& self.sweep_counts(acc, indegree, sw)
        &&& self.sweep_queue(indegree, queue, sw)
    }

    /// The cell at the head of the queue holds all that is upstream of it,
    /// and the cell it pours into has room for that.
    proof fn lemma_room(
        &self,
        acc: Seq<u64>,
        indegree: Seq<usize>,
        queue: Seq<usize>,
        sw: Sweep,
        c: int,
    )
        requires
            self.sweep_inv(acc, indegree, queue, sw),
            queue.len() > 0,
            c == queue[0],
        ensures
            acc[c] == self.upstream(c),
            self.downstream(c) matches Some(d) ==> {
                &&& self.pours(c, d)
                &&& c != d
                &&& !sw.done[d]
                &&& indegree[d] >= 1
                &&& acc[c] + acc[d] <= self.cells()
                &&& self.dem@.valid(d)
            },
    {
        assert(indegree[c] == self.waiting(c, sw.todo, 8));
        assert forall|kk: int| 0 <= kk < 8 implies (#[trigger] self.source(c, kk) matches Some(j)
            ==> sw.done[j]) by {
            if let Some(j) = self.source(c, kk) {
                if !sw.done[j] {
                    assert(sw.todo[j]);
                    self.lemma_waiting_from(c, sw.todo, kk, 8);
                }
            }
        }
        self.lemma_settled_full(c, sw.done, 8);
        assert(acc[c] == 1 + self.settled(c, sw.done, 8));
        if let Some(d) = self.downstream(c) {
            self.lemma_flow_descends(c);
            self.lemma_source_iff(d, self.entry_octant(c), c);
            crate::direction::lemma_octant_round_trip(self.outflow(c).spec_opposite());
            assert(sw.todo[c]);
            self.lemma_waiting_from(d, sw.todo, self.entry_octant(c), 8);
            assert(indegree[d] == self.waiting(d, sw.todo, 8));
            assert(sw.live[c] && sw.live[d]);
            lemma_sum_dominates(acc, sw.live, self.cells(), c, d);
        }
    }

    /// A flagged source counts.
    proof fn lemma_waiting_from(&self, i: int, flags: Seq<bool>, kk: int, k: int)
        requires
            0 <= kk < k <= 8,
            self.source(i, kk) matches Some(j) && flags[j],
        ensures
            self.waiting(i, flags, k) >= 1,
        decreases k,
    {
        self.lemma_waiting_bounds(i, flags, k - 1);
        if kk < k - 1 {
            self.lemma_waiting_from(i, flags, kk, k - 1);
        }
    }

    /// Handing the water of the cell at the head of the queue to the cell
    /// below keeps the sweep's bookkeeping in order.
    proof fn lemma_pass_on(
        &self,
        acc0: Seq<u64>,
        in0: Seq<usize>,
        q0: Seq<usize>,
        sw0: Sweep,
        acc1: Seq<u64>,
        in1: Seq<usize>,
        q1: Seq<usize>,
        sw1: Sweep,
        c: int,
        d: int,
    )
        requires
            self.sweep_inv(acc0, in0, q0, sw0),
            q0.len() > 0,
            c == q0[0],
            self.downstream(c) == Some(d),
            acc0[c] + acc0[d] <= u64::MAX,
            in0[d] >= 1,
            acc1 == acc0.update(d, (acc0[d] + acc0[c]) as u64),
            in1 == in0.update(d, (in0[d] - 1) as usize),
            q1 == if in1[d] == 0 {
                q0.subrange(1, q0.len() as int).push(d as usize)
            } else {
                q0.subrange(1, q0.len() as int)
            },
            sw1.done == sw0.done.update(c, true),
            sw1.todo == sw0.todo.update(c, false),
            sw1.live == sw0.live.update(c, false),
            sw1.members == sw0.members.insert(c),
        ensures
            self.sweep_inv(acc1, in1, q1, sw1),
            sw1.members.len() == sw0.members.len() + 1,
    {
        let n = self.cells();
        self.lemma_room(acc0, in0, q0, sw0, c);
        crate::direction::lemma_octant_round_trip(self.outflow(c).spec_opposite());
        assert forall|i: int| 0 <= i < n implies #[trigger] in1[i] == self.waiting(
            i,
            sw1.todo,
            8,
        ) by {
            self.lemma_waiting_flip(i, sw0.todo, c, false, 8);
            assert(in0[i] == self.waiting(i, sw0.todo, 8));
        }
        assert forall|i: int| 0 <= i < n implies #[trigger] acc1[i] == 1 + self.settled(
            i,
            sw1.done,
            8,
        ) by {
            self.lemma_settled_flip(i, sw0.done, c, 8);
            assert(acc0[i] == 1 + self.settled(i, sw0.done, 8));
        }
        assert(sum_where(acc1, sw1.live, n) == n) by {
            assert forall|i: int| 0 <= i < n && i != c && i != d implies share(acc0, sw0.live, i)
                == share(acc1, sw1.live, i) by {}
            lemma_sum_differs(acc0, sw0.live, acc1, sw1.live, n, c, d);
            assert(sw0.live[c] && sw0.live[d]);
            assert(sw1.live[d] && !sw1.live[c]);
        }
        assert(self.sweep_counts(acc1, in1, sw1));
        assert(self.sweep_shape(acc1, in1, sw1)) by {
            assert forall|i: int| 0 <= i < n implies #[trigger] sw1.live[i] == !(sw1.done[i]
                && self.downstream(i) is Some) by {
                assert(sw0.live[i] == !(sw0.done[i] && self.downstream(i) is Some));
            }
            assert forall|i: int| 0 <= i < n && #[trigger] sw1.done[i] implies in1[i] == 0
                && self.dem@.valid(i) by {
                if i != c {
                    assert(sw0.done[i]);
                }
            }
            assert forall|i: int| #[trigger] sw1.members.contains(i) <==> (0 <= i < n
                && sw1.done[i]) by {
                assert(sw0.members.contains(i) <==> (0 <= i < n && sw0.done[i]));
            }
            assert forall|j: int| 0 <= j < n implies #[trigger] sw1.todo[j] == !sw1.done[j] by {
                assert(sw0.todo[j] == !sw0.done[j]);
            }
        }
        assert(!sw0.members.contains(c));
        self.lemma_queue_advances(in0, q0, sw0, in1, q1, sw1, c, Some(d));
    }

    /// Taking the head off the queue, and adding the cell below once
    /// nothing more is to come for it, keeps the queue in order.
    proof fn lemma_queue_advances(
        &self,
        in0: Seq<usize>,
        q0: Seq<usize>,
        sw0: Sweep,
        in1: Seq<usize>,
        q1: Seq<usize>,
        sw1: Sweep,
        c: int,
        below: Option<int>,
    )
        requires
            self.wf(),
            in0.len() == self.cells(),
            sw0.done.len() == self.cells(),
            self.sweep_queue(in0, q0, sw0),
            q0.len() > 0,
            c == q0[0],
            sw1.done == sw0.done.update(c, true),
            match below {
                Some(d) => {
                    &&& 0 <= d < self.cells()
                    &&& d != c
                    &&& self.dem@.valid(d)
                    &&& !sw0.done[d]
                    &&& in0[d] >= 1
                    &&& in1 == in0.update(d, (in0[d] - 1) as usize)
                    &&& q1 == if in1[d] == 0 {
                        q0.subrange(1, q0.len() as int).push(d as usize)
                    } else {
                        q0.subrange(1, q0.len() as int)
                    }
                },
                None => in1 == in0 && q1 == q0.subrange(1, q0.len() as int),
            },
        ensures
            self.sweep_queue(in1, q1, sw1),
    {
        let n = self.cells();
        let rest = q0.subrange(1, q0.len() as int);
        assert forall|a: int| 0 <= a < rest.len() implies rest[a] == q0[a + 1] && rest[a] != c by {
            assert(q0[0] != q0[a + 1]);
        }
        assert forall|a: int| 0 <= a < q1.len() implies {
            &&& (#[trigger] q1[a]) < n
            &&& self.dem@.valid(q1[a] as int)
            &&& !sw1.done[q1[a] as int]
            &&& in1[q1[a] as int] == 0
        } by {
            if a < rest.len() {
                assert(q1[a] == q0[a + 1]);
                if let Some(d) = below {
                    assert(in0[q0[a + 1] as int] == 0);
                }
            }
        }
        assert forall|a: int, b: int| 0 <= a < b < q1.len() implies #[trigger] q1[a]
            != #[trigger] q1[b] by {
            if b < rest.len() {
                assert(q0[a + 1] != q0[b + 1]);
            } else {
                assert(q1[a] == q0[a + 1]);
                assert(in0[q0[a + 1] as int] == 0);
            }
        }
        assert forall|i: int|
            0 <= i < n && self.dem@.valid(i) && !sw1.done[i] && #[trigger] in1[i]
                == 0 implies q1.contains(i as usize) by {
            if below == Some(i) {
                assert(q1[rest.len() as int] == i as usize);
            } else {
                assert(in0[i] == 0);
                assert(q0.contains(i as usize));
                let a = choose|a: int| 0 <= a < q0.len() && q0[a] == i as usize;
                assert(a > 0);
                assert(q1[a - 1] == i as usize);
            }
        }
    }

    /// Finishing a cell from which no water flows on keeps the sweep's
    /// bookkeeping in order.
    proof fn lemma_keep(
        &self,
        acc: Seq<u64>,
        indegree: Seq<usize>,
        q0: Seq<usize>,
        sw0: Sweep,
        q1: Seq<usize>,
        sw1: Sweep,
        c: int,
    )
        requires
            self.sweep_inv(acc, indegree, q0, sw0),
            q0.len() > 0,
            c == q0[0],
            self.downstream(c) is None,
            q1 == q0.subrange(1, q0.len() as int),
            sw1.done == sw0.done.update(c, true),
            sw1.todo == sw0.todo.update(c, false),
            sw1.live == sw0.live,
            sw1.members == sw0.members.insert(c),
        ensures
            self.sweep_inv(acc, indegree, q1, sw1),
            sw1.members.len() == sw0.members.len() + 1,
    {
        let n = self.cells();
        assert forall|i: int| 0 <= i < n implies #[trigger] indegree[i] == self.waiting(
            i,
            sw1.todo,
            8,
        ) by {
            self.lemma_waiting_flip(i, sw0.todo, c, false, 8);
            assert(indegree[i] == self.waiting(i, sw0.todo, 8));
        }
        assert forall|i: int| 0 <= i < n implies #[trigger] acc[i] == 1 + self.settled(
            i,
            sw1.done,
            8,
        ) by {
            self.lemma_settled_flip(i, sw0.done, c, 8);
            assert(acc[i] == 1 + self.settled(i, sw0.done, 8));
        }
        assert(self.sweep_counts(acc, indegree, sw1));
        assert(self.sweep_shape(acc, indegree, sw1)) by {
            assert forall|i: int| 0 <= i < n implies #[trigger] sw1.live[i] == !(sw1.done[i]
                && self.downstream(i) is Some) by {
                assert(sw0.live[i] == !(sw0.done[i] && self.downstream(i) is Some));
            }
            assert forall|i: int| 0 <= i < n && #[trigger] sw1.done[i] implies indegree[i] == 0
                && self.dem@.valid(i) by {
                if i != c {
                    assert(sw0.done[i]);
                }
            }
            assert forall|i: int| #[trigger] sw1.members.contains(i) <==> (0 <= i < n
                && sw1.done[i]) by {
                assert(sw0.members.contains(i) <==> (0 <= i < n && sw0.done[i]));
            }
            assert forall|j: int| 0 <= j < n implies #[trigger] sw1.todo[j] == !sw1.done[j] by {
                assert(sw0.todo[j] == !sw0.done[j]);
            }
        }
        assert(!sw0.members.contains(c));
        self.lemma_queue_advances(indegree, q0, sw0, indegree, q1, sw1, c, None);
    }

    /// Once the queue has run empty, every cell with data is done.
    proof fn lemma_all_done(
        &self,
        acc: Seq<u64>,
        indegree: Seq<usize>,
        queue: Seq<usize>,
        sw: Sweep,
        i: int,
    )
        requires
            self.sweep_inv(acc, indegree, queue, sw),
            queue.len() == 0,
            0 <= i < self.cells(),
            self.dem@.valid(i),
        ensures
            sw.done[i],
        decreases self.rank(i),
    {
        if !sw.done[i] {
            if indegree[i] == 0 {
                assert(queue.contains(i as usize));
            }
            assert(indegree[i] == self.waiting(i, sw.todo, 8));
            let j = self.lemma_waiting_witness(i, sw.todo, 8);
            let kk = choose|kk: int| 0 <= kk < 8 && self.source(i, kk) == Some(j);
            assert(self.pours(j, i));
            self.lemma_flow_descends(j);
            self.lemma_all_done(acc, indegree, queue, sw, j);
            assert(sw.todo[j] == !sw.done[j]);
        }
    }

    /// Once the queue has run empty, every cell holds what is upstream of
    /// it, and the outlets together hold one unit per cell.
    proof fn lemma_swept(&self, acc: Seq<u64>, indegree: Seq<usize>, queue: Seq<usize>, sw: Sweep)
        requires
            self.sweep_inv(acc, indegree, queue, sw),
            queue.len() == 0,
        ensures
            forall|i: int| 0 <= i < self.cells() ==> #[trigger] acc[i] == self.upstream(i),
            sum_where(acc, self.outlets(), self.cells()) == self.cells(),
    {
        let n = self.cells();
        assert forall|i: int| 0 <= i < n implies #[trigger] acc[i] == self.upstream(i) by {
            assert forall|kk: int| 0 <= kk < 8 implies (#[trigger] self.source(i, kk) matches Some(
                j,
            ) ==> sw.done[j]) by {
                if let Some(j) = self.source(i, kk) {
                    self.lemma_flow_descends(j);
                    self.lemma_all_done(acc, indegree, queue, sw, j);
                }
            }
            self.lemma_settled_full(i, sw.done, 8);
            assert(acc[i] == 1 + self.settled(i, sw.done, 8));
        }
        assert forall|i: int| 0 <= i < n implies sw.live[i] == self.outlets()[i] by {
            assert(sw.live[i] == !(sw.done[i] && self.downstream(i) is Some));
            if self.downstream(i) is Some {
                self.lemma_flow_descends(i);
                self.lemma_all_done(acc, indegree, queue, sw, i);
            }
        }
        assert(sw.live =~= self.outlets());
    }

    /// What is upstream of a cell depends on the grid and the flow
    /// directions alone.
    proof fn lemma_upstream_frame(&self, other: &FlowModel, i: int)
        requires
            self.dem == other.dem,
            self.flow_directions == other.flow_directions,
            self.flow_method == other.flow_method,
            self.dinf_flow_proportions == other.dinf_flow_proportions,
        ensures
            self.upstream(i) == other.upstream(i),
        decreases self.rank(i), 9int,
    {
        if 0 <= i < self.cells() {
            self.lemma_inflow_frame(other, i, 8);
        }
    }

    proof fn lemma_inflow_frame(&self, other: &FlowModel, i: int, k: int)
        requires
            self.dem == other.dem,
            self.flow_directions == other.flow_directions,
            self.flow_method == other.flow_method,
            self.dinf_flow_proportions == other.dinf_flow_proportions,
        ensures
            self.inflow(i, k) == other.inflow(i, k),
        decreases self.rank(i), k,
    {
        if 0 < k <= 8 {
            self.lemma_inflow_frame(other, i, k - 1);
            assert(self.source(i, k - 1) == other.source(i, k - 1));
            if let Some(j) = self.source(i, k - 1) {
                self.lemma_upstream_frame(other, j);
            }
        }
    }

    /// Every cell holds the number of cells whose water passes through
    /// it, one at least, and the cells from which no water flows on hold
    /// between them every cell of the grid.
    pub open spec fn counts_upstream(&self) -> bool {
        &&& forall|i: int|
            0 <= i < self.cells() ==> #[trigger] self.flow_accumulation@[i] == self.upstream(i)
        &&& forall|i: int| 0 <= i < self.cells() ==> #[trigger] self.flow_accumulation@[i] >= 1
        &&& sum_where(self.flow_accumulation@, self.outlets(), self.cells()) == self.cells()
    }

    /// Counts for every cell the cells whose water passes through it, by
    /// a sweep that starts at the cells into which nothing flows and hands
    /// each cell's count to the cell below once all that flows into it has
    /// arrived. A cell without data counts for itself alone.
    ///
    /// The routing is examined first. A model that is not well formed, in
    /// which water would flow uphill, in a circle or off the grid, is
    /// reported as `IllFormedRouting` and stays as it is: the sweep never
    /// runs on a routing on which it might not end.
    pub fn compute_flow_accumulation_d8(&mut self) -> (r: Result<(), ModelError>)
        ensures
            r is Ok <==> old(self).wf(),
            r matches Err(e) ==> e == ModelError::IllFormedRouting && *final(self) == *old(self),
            r is Ok ==> final(self).wf() && final(self).counts_upstream(),
            final(self).dem == old(self).dem,
            final(self).flow_directions == old(self).flow_directions,
            final(self).slopes == old(self).slopes,
            final(self).flow_method == old(self).flow_method,
            final(self).dinf_flow_angles == old(self).dinf_flow_angles,
            final(self).dinf_flow_proportions == old(self).dinf_flow_proportions,
            final(self).mfd_flow_proportions == old(self).mfd_flow_proportions,
    {
        if !self.is_well_formed() {
            return Err(ModelError::IllFormedRouting);
        }
        let n: usize = self.dem.data.len();
        let width: usize = self.dem.width;
        let height: usize = self.dem.height;
        let mut acc: Vec<u64> = filled(1u64, n);
        let mut indegree: Vec<usize> = filled(0usize, n);
        let ghost mut counted: Seq<bool> = Seq::new(n as nat, |j: int| false);
        proof {
            assert forall|i: int| 0 <= i < n implies #[trigger] indegree@[i] == self.waiting(
                i,
                counted,
                8,
            ) by {
                self.lemma_waiting_none(i, counted, 8);
            }
        }
        let mut idx: usize = 0;
        while idx < n
            invariant
                self.wf(),
                n == self.cells(),
                width == self.dem.width,
                height == self.dem.height,
                idx <= n,
                indegree@.len() == n,
                counted.len() == n,
                forall|j: int| 0 <= j < n ==> #[trigger] counted[j] == (j < idx),
                forall|i: int|
                    0 <= i < n ==> #[trigger] indegree@[i] == self.waiting(i, counted, 8),
            decreases n - idx,
        {
            let x: usize = idx % width;
            let y: usize = idx / width;
            let ghost prev = counted;
            let ghost before = indegree@;
            proof {
                lemma_cell_coordinates(width as int, height as int, idx as int);
                counted = counted.update(idx as int, true);
                crate::direction::lemma_octant_round_trip(
                    self.outflow(idx as int).spec_opposite(),
                );
            }
            match self.get_downstream_cell(x, y) {
                Some((dx, dy)) => {
                    proof {
                        lemma_index_in_range(width as int, height as int, dx as int, dy as int);
                        self.lemma_flow_descends(idx as int);
                    }
                    let down: usize = dy * width + dx;
                    proof {
                        self.lemma_waiting_bounds(down as int, counted, 8);
                        self.lemma_waiting_flip(down as int, prev, idx as int, true, 8);
                    }
                    let count: usize = indegree[down];
                    indegree.set(down, count + 1);
                },
                None => {},
            }
            proof {
                assert forall|i: int| 0 <= i < n implies #[trigger] indegree@[i] == self.waiting(
                    i,
                    counted,
                    8,
                ) by {
                    self.lemma_waiting_flip(i, prev, idx as int, true, 8);
                    assert(before[i] == self.waiting(i, prev, 8));
                }
            }
            idx += 1;
        }
        let mut queue: VecDeque<usize> = VecDeque::new();
        idx = 0;
        while idx < n
            invariant
                self.wf(),
                n == self.cells(),
                width == self.dem.width,
                height == self.dem.height,
                idx <= n,
                indegree@.len() == n,
                forall|a: int|
                    0 <= a < queue@.len() ==> {
                        &&& (#[trigger] queue@[a]) < idx
                        &&& self.dem@.valid(queue@[a] as int)
                        &&& indegree@[queue@[a] as int] == 0
                    },
                forall|a: int, b: int|
                    0 <= a < b < queue@.len() ==> #[trigger] queue@[a] < #[trigger] queue@[b],
                forall|i: int|
                    0 <= i < idx && self.dem@.valid(i) && #[trigger] indegree@[i] == 0
                        ==> queue@.contains(i as usize),
            decreases n - idx,
        {
            let x: usize = idx % width;
            let y: usize = idx / width;
            proof {
                lemma_cell_coordinates(width as int, height as int, idx as int);
            }
            let ghost earlier = queue@;
            if indegree[idx] == 0 && self.dem.get_elevation(x, y).is_some() {
                queue.push_back(idx);
            }
            proof {
                assert forall|i: int|
                    0 <= i < idx + 1 && self.dem@.valid(i) && #[trigger] indegree@[i]
                        == 0 implies queue@.contains(i as usize) by {
                    if i < idx {
                        assert(earlier.contains(i as usize));
                        let a = choose|a: int| 0 <= a < earlier.len() && earlier[a] == i as usize;
                        assert(queue@[a] == i as usize);
                    } else {
                        assert(queue@[earlier.len() as int] == idx);
                    }
                }
            }
            idx += 1;
        }
        let ghost mut sw = Sweep {
            done: Seq::new(n as nat, |j: int| false),
            todo: counted,
            live: Seq::new(n as nat, |j: int| true),
            members: Set::<int>::empty(),
        };
        proof {
            assert forall|i: int| 0 <= i < n implies #[trigger] acc@[i] == 1 + self.settled(
                i,
                sw.done,
                8,
            ) by {
                self.lemma_settled_none(i, sw.done, 8);
            }
            lemma_sum_of_ones(acc@, sw.live, n as int);
            assert(self.sweep_shape(acc@, indegree@, sw));
            assert(self.sweep_counts(acc@, indegree@, sw));
            assert(self.sweep_queue(indegree@, queue@, sw));
        }
        while queue.len() > 0
            invariant
                self.sweep_inv(acc@, indegree@, queue@, sw),
                n == self.cells(),
                width == self.dem.width,
                height == self.dem.height,
            decreases n - sw.members.len(),
        {
            let ghost q0 = queue@;
            let ghost acc0 = acc@;
            let ghost in0 = indegree@;
            let ghost sw0 = sw;
            let c: usize = queue.pop_front().unwrap();
            let x: usize = c % width;
            let y: usize = c / width;
            proof {
                assert(c == q0[0]);
                lemma_cell_coordinates(width as int, height as int, c as int);
                self.lemma_room(acc0, in0, q0, sw0, c as int);
                vstd::set_lib::lemma_int_range(0, n as int);
                assert(sw.members.insert(c as int).subset_of(
                    vstd::set_lib::set_int_range(0, n as int),
                ));
                vstd::set_lib::lemma_len_subset(
                    sw.members.insert(c as int),
                    vstd::set_lib::set_int_range(0, n as int),
                );
            }
            match self.get_downstream_cell(x, y) {
                Some((dx, dy)) => {
                    proof {
                        lemma_index_in_range(width as int, height as int, dx as int, dy as int);
                    }
                    let down: usize = dy * width + dx;
                    let gained: u64 = acc[down] + acc[c];
                    acc.set(down, gained);
                    let left: usize = indegree[down] - 1;
                    indegree.set(down, left);
                    if left == 0 {
                        queue.push_back(down);
                    }
                    proof {
                        let sw1 = Sweep {
                            done: sw.done.update(c as int, true),
                            todo: sw.todo.update(c as int, false),
                            live: sw.live.update(c as int, false),
                            members: sw.members.insert(c as int),
                        };
                        self.lemma_pass_on(
                            acc0,
                            in0,
                            q0,
                            sw0,
                            acc@,
                            indegree@,
                            queue@,
                            sw1,
                            c as int,
                            down as int,
                        );
                        sw = sw1;
                    }
                },
                None => {
                    proof {
                        let sw1 = Sweep {
                            done: sw.done.update(c as int, true),
                            todo: sw.todo.update(c as int, false),
                            live: sw.live,
                            members: sw.members.insert(c as int),
                        };
                        self.lemma_keep(acc0, in0, q0, sw0, queue@, sw1, c as int);
                        sw = sw1;
                    }
                },
            }
        }
        proof {
            self.lemma_swept(acc@, indegree@, queue@, sw);
        }
        let ghost routed = *self;
        self.flow_accumulation = acc;
        proof {
            assert forall|i: int| 0 <= i < self.cells() implies #[trigger] self.flow_accumulation@[i]
                == self.upstream(i) by {
                routed.lemma_upstream_frame(self, i);
            }
            assert(self.outlets() =~= routed.outlets());
        }
        Ok(())
    }
}

/// The rank by which cells are put in order from the highest down.
pub open spec fn height_rank(elevation: i32) -> u64 {
    (i32::MAX - elevation) as u64
}

impl FlowModel {
    /// `order` lists every cell with data once, with the rank of its
    /// elevation, from the highest cell down.
    spec fn ordered(&self, order: Seq<(u64, usize)>) -> bool {
        &&& is_sorted(order)
        &&& order.no_duplicates()
        &&& forall|a: int|
            0 <= a < order.len() ==> {
                &&& (#[trigger] order[a]).1 < self.cells()
                &&& self.dem@.valid(order[a].1 as int)
                &&& order[a].0 == height_rank(self.dem.data@[order[a].1 as int])
            }
        &&& forall|i: int|
            0 <= i < self.cells() && #[trigger] self.dem@.valid(i) ==> order.contains(
                (height_rank(self.dem.data@[i]), i as usize),
            )
    }

    /// Where in the order a cell with data stands.
    proof fn lemma_place(&self, order: Seq<(u64, usize)>, i: int) -> (a: int)
        requires
            self.ordered(order),
            0 <= i < self.cells(),
            self.dem@.valid(i),
        ensures
            0 <= a < order.len(),
            order[a] == (height_rank(self.dem.data@[i]), i as usize),
    {
        let e = (height_rank(self.dem.data@[i]), i as usize);
        assert(order.contains(e));
        choose|a: int| 0 <= a < order.len() && order[a] == e
    }

    /// What reaches cell `i` from the higher neighbours at the first `k`
    /// places around it, in millionths of a cell: of all that passes through
    /// each, the share that it gives toward cell `i`, rounded down.
    pub open spec fn shared_inflow(&self, table: Seq<Vec<u32>>, i: int, k: int) -> int
        decreases self.rank(i), k,
    {
        if k <= 0 || k > 8 {
            0
        } else {
            self.shared_inflow(table, i, k - 1) + match self.dem@.neighbor(
                i,
                FlowDirection::spec_from_octant(k - 1),
            ) {
                Some(j) => if 0 <= j < self.cells() && 0 <= i < self.cells() && self.dem.data@[j]
                    > self.dem.data@[i] {
                    self.shared_upstream(table, j) * table[j]@[(k - 1 + 4) % 8] / (
                    crate::flow::UNIT as int)
                } else {
                    0
                },
                None => 0,
            }
        }
    }

    /// How much water passes through cell `i` when every cell shares its
    /// water by `table`, in millionths of a cell: the cell itself and what
    /// reaches it from its higher neighbours.
    pub open spec fn shared_upstream(&self, table: Seq<Vec<u32>>, i: int) -> int
        decreases self.rank(i), 9int,
    {
        if 0 <= i < self.cells() {
            crate::flow::UNIT + self.shared_inflow(table, i, 8)
        } else {
            0
        }
    }

    /// The shares by angle are stored, and what passes through each cell
    /// can be held.
    pub open spec fn fits_by_angle(&self) -> bool {
        &&& self.dinf_flow_proportions is Some
        &&& forall|i: int|
            0 <= i < self.cells() ==> #[trigger] self.shared_upstream(
                self.dinf_flow_proportions->Some_0@,
                i,
            ) <= u64::MAX
    }

    /// The accumulation is what passes through each cell when every cell
    /// shares its water by the stored shares by angle, in millionths of a
    /// cell; every cell holds itself at least.
    pub open spec fn holds_by_angle(&self) -> bool {
        &&& forall|i: int|
            0 <= i < self.cells() ==> #[trigger] self.flow_accumulation@[i]
                == self.shared_upstream(self.dinf_flow_proportions->Some_0@, i)
        &&& forall|i: int|
            0 <= i < self.cells() ==> #[trigger] self.flow_accumulation@[i] >= crate::flow::UNIT
    }

    /// Nothing that is shared ever flows back: what reaches a cell is not
    /// negative.
    proof fn lemma_inflow_not_negative(&self, table: Seq<Vec<u32>>, i: int, k: int)
        ensures
            self.shared_inflow(table, i, k) >= 0,
        decreases self.rank(i), k,
    {
        if 0 < k <= 8 {
            self.lemma_inflow_not_negative(table, i, k - 1);
            if let Some(j) = self.dem@.neighbor(i, FlowDirection::spec_from_octant(k - 1)) {
                if 0 <= j < self.cells() && 0 <= i < self.cells() && self.dem.data@[j]
                    > self.dem.data@[i] {
                    self.lemma_inflow_not_negative(table, j, 8);
                    let up = self.shared_upstream(table, j);
                    let share = table[j]@[(k - 1 + 4) % 8] as int;
                    assert(up * share >= 0) by (nonlinear_arith)
                        requires
                            up >= 0,
                            share >= 0,
                    ;
                    vstd::arithmetic::div_mod::lemma_div_pos_is_pos(
                        up * share,
                        crate::flow::UNIT as int,
                    );
                }
            }
        }
    }

    /// Every cell holds itself at least.
    pub proof fn lemma_shared_not_negative(&self, table: Seq<Vec<u32>>, i: int)
        ensures
            self.shared_upstream(table, i) >= 0,
            0 <= i < self.cells() ==> self.shared_upstream(table, i) >= crate::flow::UNIT,
    {
        self.lemma_inflow_not_negative(table, i, 8);
    }

    /// What the neighbour at place `k` around cell `c` gives toward it is
    /// what the sum of what reaches `c` grows by at that place.
    pub proof fn lemma_shared_step(&self, table: Seq<Vec<u32>>, c: int, k: int)
        requires
            self.dem.wf(),
            table.len() == self.cells(),
            forall|j: int|
                0 <= j < self.cells() ==> self.dem@.gives_downhill(j, (#[trigger] table[j])@),
            0 <= c < self.cells(),
            0 <= k < 8,
        ensures
            match self.dem@.neighbor(c, FlowDirection::spec_from_octant(k)) {
                Some(j) => {
                    &&& 0 <= j < self.cells()
                    &&& 0 <= table[j]@[(k + 4) % 8] <= crate::flow::UNIT
                    &&& table[j]@[(k + 4) % 8] > 0 ==> self.dem@.valid(j) && self.dem@.valid(c)
                        && self.dem.data@[j] > self.dem.data@[c]
                    &&& self.shared_inflow(table, c, k + 1) == self.shared_inflow(table, c, k)
                        + if table[j]@[(k + 4) % 8] > 0 {
                        self.shared_upstream(table, j) * table[j]@[(k + 4) % 8] / (
                        crate::flow::UNIT as int)
                    } else {
                        0
                    }
                },
                None => self.shared_inflow(table, c, k + 1) == self.shared_inflow(table, c, k),
            },
    {
        let direction = FlowDirection::spec_from_octant(k);
        if let Some(j) = self.dem@.neighbor(c, direction) {
            lemma_back_neighbor(self.dem@, c, direction, j);
            assert(self.dem@.gives_downhill(j, table[j]@));
            crate::mfd::lemma_share_within_sum(table[j]@, 8, (k + 4) % 8);
            assert(FlowDirection::spec_from_octant((k + 4) % 8) == direction.spec_opposite());
            let share = table[j]@[(k + 4) % 8] as int;
            if share > 0 {
                assert(self.dem@.fall(j, FlowDirection::spec_from_octant((k + 4) % 8)) > 0);
            } else {
                let up = self.shared_upstream(table, j);
                assert(up * 0 == 0) by (nonlinear_arith);
            }
        }
    }

    /// What passes through every cell when every cell shares its water by
    /// `table`, in millionths of a cell; `None` where that is too much to be
    /// held. The cells are worked on from the highest down, so that all
    /// that reaches a cell is known when its turn comes.
    fn gather(&self, table: &Vec<Vec<u32>>) -> (r: Option<Vec<u64>>)
        requires
            self.dem.wf(),
            table@.len() == self.cells(),
            forall|j: int|
                0 <= j < self.cells() ==> self.dem@.gives_downhill(j, (#[trigger] table@[j])@),
        ensures
            r is Some <==> forall|i: int|
                0 <= i < self.cells() ==> #[trigger] self.shared_upstream(table@, i) <= u64::MAX,
            r matches Some(acc) ==> {
                &&& acc@.len() == self.cells()
                &&& forall|i: int|
                    0 <= i < self.cells() ==> #[trigger] acc@[i] == self.shared_upstream(table@, i)
                &&& forall|i: int| 0 <= i < self.cells() ==> #[trigger] acc@[i] >= crate::flow::UNIT
            },
    {
        let n: usize = self.dem.data.len();
        let width: usize = self.dem.width;
        let height: usize = self.dem.height;
        let mut order: Vec<(u64, usize)> = Vec::new();
        let mut idx: usize = 0;
        while idx < n
            invariant
                self.dem.wf(),
                n == self.cells(),
                width == self.dem.width,
                height == self.dem.height,
                idx <= n,
                forall|a: int|
                    0 <= a < order@.len() ==> {
                        &&& (#[trigger] order@[a]).1 < idx
                        &&& self.dem@.valid(order@[a].1 as int)
                        &&& order@[a].0 == height_rank(self.dem.data@[order@[a].1 as int])
                    },
                forall|a: int, b: int|
                    0 <= a < b < order@.len() ==> (#[trigger] order@[a]).1 < (
                    #[trigger] order@[b]).1,
                forall|i: int|
                    0 <= i < idx && #[trigger] self.dem@.valid(i) ==> order@.contains(
                        (height_rank(self.dem.data@[i]), i as usize),
                    ),
            decreases n - idx,
        {
            let x: usize = idx % width;
            let y: usize = idx / width;
            proof {
                lemma_cell_coordinates(width as int, height as int, idx as int);
            }
            let ghost earlier = order@;
            if let Some(elev) = self.dem.get_elevation(x, y) {
                order.push(((i32::MAX as i64 - elev as i64) as u64, idx));
            }
            proof {
                assert forall|i: int|
                    0 <= i < idx + 1 && #[trigger] self.dem@.valid(i) implies order@.contains(
                    (height_rank(self.dem.data@[i]), i as usize),
                ) by {
                    let e = (height_rank(self.dem.data@[i]), i as usize);
                    if i < idx {
                        assert(earlier.contains(e));
                        let a = choose|a: int| 0 <= a < earlier.len() && earlier[a] == e;
                        assert(order@[a] == e);
                    } else {
                        assert(order@[earlier.len() as int] == e);
                    }
                }
            }
            idx += 1;
        }
        let ghost listed = order@;
        sort_entries(&mut order);
        proof {
            lemma_sorted_rearrangement(listed, order@);
            assert forall|a: int| 0 <= a < order@.len() implies {
                &&& (#[trigger] order@[a]).1 < self.cells()
                &&& self.dem@.valid(order@[a].1 as int)
                &&& order@[a].0 == height_rank(self.dem.data@[order@[a].1 as int])
            } by {
                assert(order@.contains(order@[a]));
                assert(listed.contains(order@[a]));
                let b = choose|b: int| 0 <= b < listed.len() && listed[b] == order@[a];
            }
            assert forall|i: int| 0 <= i < self.cells() && #[trigger] self.dem@.valid(
                i,
            ) implies order@.contains((height_rank(self.dem.data@[i]), i as usize)) by {
                assert(listed.contains((height_rank(self.dem.data@[i]), i as usize)));
            }
            assert(self.ordered(order@));
        }
        let mut acc: Vec<u64> = filled(crate::flow::UNIT as u64, n);
        let mut p: usize = 0;
        while p < order.len()
            invariant
                self.dem.wf(),
                n == self.cells(),
                width == self.dem.width,
                height == self.dem.height,
                table@.len() == n,
                forall|j: int| 0 <= j < n ==> self.dem@.gives_downhill(j, (#[trigger] table@[j])@),
                self.ordered(order@),
                p <= order@.len(),
                acc@.len() == n,
                forall|a: int|
                    0 <= a < p ==> acc@[(#[trigger] order@[a]).1 as int] == self.shared_upstream(
                        table@,
                        order@[a].1 as int,
                    ),
                forall|i: int|
                    0 <= i < n && !self.dem@.valid(i) ==> #[trigger] acc@[i] == crate::flow::UNIT,
            decreases order@.len() - p,
        {
            let c: usize = order[p].1;
            let x: usize = c % width;
            let y: usize = c / width;
            proof {
                lemma_cell_coordinates(width as int, height as int, c as int);
            }
            let mut sum: u128 = crate::flow::UNIT as u128;
            let mut k: usize = 0;
            while k < 8
                invariant
                    self.dem.wf(),
                    n == self.cells(),
                    width == self.dem.width,
                    height == self.dem.height,
                    table@.len() == n,
                    forall|j: int|
                        0 <= j < n ==> self.dem@.gives_downhill(j, (#[trigger] table@[j])@),
                    self.ordered(order@),
                    p < order@.len(),
                    c == order@[p as int].1,
                    c < n,
                    x == c % width,
                    y == c / width,
                    x < width,
                    y < height,
                    acc@.len() == n,
                    forall|a: int|
                        0 <= a < p ==> acc@[(#[trigger] order@[a]).1 as int]
                            == self.shared_upstream(table@, order@[a].1 as int),
                    k <= 8,
                    sum == crate::flow::UNIT + self.shared_inflow(table@, c as int, k as int),
                    sum <= crate::flow::UNIT + k * u64::MAX,
                decreases 8 - k,
            {
                proof {
                    self.lemma_shared_step(table@, c as int, k as int);
                }
                if let Some((nx, ny)) = self.dem.neighbor(x, y, FlowDirection::from_octant(k)) {
                    proof {
                        lemma_index_in_range(width as int, height as int, nx as int, ny as int);
                    }
                    let j: usize = ny * width + nx;
                    let place: usize = (k + 4) % 8;
                    assert(self.dem@.gives_downhill(j as int, table@[j as int]@));
                    let share: u32 = table[j][place];
                    if share > 0 {
                        proof {
                            let a = self.lemma_place(order@, j as int);
                            if a > p {
                                assert(in_order_at(order@, p as int, a));
                            }
                            assert(a < p);
                            assert(acc@[order@[a].1 as int] == self.shared_upstream(
                                table@,
                                order@[a].1 as int,
                            ));
                            let held = Seq::new(n as nat, |q: int| acc@[q] as int);
                            crate::mfd::lemma_part_of_held(
                                self.dem@,
                                table@,
                                held,
                                j as int,
                                place as int,
                            );
                            assert(acc@[j as int] * share <= u64::MAX * crate::flow::UNIT)
                                by (nonlinear_arith)
                                requires
                                    0 <= acc@[j as int] <= u64::MAX,
                                    0 <= share <= crate::flow::UNIT,
                            ;
                        }
                        let part: u128 = (acc[j] as u128) * (share as u128) / (
                        crate::flow::UNIT as u128);
                        proof {
                            assert((k + 1) * u64::MAX == k * u64::MAX + u64::MAX)
                                by (nonlinear_arith);
                        }
                        sum = sum + part;
                    }
                }
                proof {
                    assert((k + 1) * u64::MAX == k * u64::MAX + u64::MAX) by (nonlinear_arith);
                }
                k += 1;
            }
            if sum > u64::MAX as u128 {
                assert(self.shared_upstream(table@, c as int) > u64::MAX);
                return None;
            }
            let ghost before = acc@;
            acc.set(c, sum as u64);
            proof {
                assert forall|a: int| 0 <= a < p + 1 implies acc@[(#[trigger] order@[a]).1 as int]
                    == self.shared_upstream(table@, order@[a].1 as int) by {
                    if a < p {
                        if order@[a].1 == c {
                            assert(order@[a] == order@[p as int]);
                        }
                        assert(before[order@[a].1 as int] == self.shared_upstream(
                            table@,
                            order@[a].1 as int,
                        ));
                    }
                }
            }
            p += 1;
        }
        proof {
            assert forall|i: int| 0 <= i < n implies #[trigger] acc@[i] == self.shared_upstream(
                table@,
                i,
            ) by {
                if self.dem@.valid(i) {
                    let a = self.lemma_place(order@, i);
                    assert(acc@[order@[a].1 as int] == self.shared_upstream(
                        table@,
                        order@[a].1 as int,
                    ));
                } else {
                    self.lemma_nothing_reaches(table@, i, 8);
                }
            }
            assert forall|i: int| 0 <= i < n implies #[trigger] acc@[i] >= crate::flow::UNIT by {
                self.lemma_shared_not_negative(table@, i);
            }
            assert forall|i: int| 0 <= i < self.cells() implies #[trigger] self.shared_upstream(
                table@,
                i,
            ) <= u64::MAX by {
                assert(acc@[i] == self.shared_upstream(table@, i));
            }
        }
        Some(acc)
    }

    /// Nothing reaches a cell without data.
    proof fn lemma_nothing_reaches(&self, table: Seq<Vec<u32>>, i: int, k: int)
        requires
            self.dem.wf(),
            table.len() == self.cells(),
            forall|j: int|
                0 <= j < self.cells() ==> self.dem@.gives_downhill(j, (#[trigger] table[j])@),
            0 <= i < self.cells(),
            !self.dem@.valid(i),
            0 <= k <= 8,
        ensures
            self.shared_inflow(table, i, k) == 0,
        decreases k,
    {
        if k > 0 {
            self.lemma_nothing_reaches(table, i, k - 1);
            self.lemma_shared_step(table, i, k - 1);
        }
    }

    /// Counts for every cell how much water passes through it when flow is
    /// routed by angle: the cells are worked on from the highest down, and
    /// each takes from its higher neighbours the shares that they give
    /// toward it. The result is given in millionths of a cell, each share
    /// rounded down.
    ///
    /// The model is examined first: one that is not well formed is
    /// reported as `IllFormedRouting`; one in which no shares are stored,
    /// or a count is too large to be held, as `NotCountable`. Either way
    /// it stays as it is.
    pub fn compute_flow_accumulation_dinf(&mut self) -> (r: Result<(), ModelError>)
        ensures
            r is Ok <==> old(self).wf() && old(self).fits_by_angle(),
            r matches Err(e) ==> *final(self) == *old(self) && e == old(self).refusal(),
            r is Ok ==> final(self).wf(),
            final(self).dem == old(self).dem,
            final(self).flow_directions == old(self).flow_directions,
            final(self).slopes == old(self).slopes,
            final(self).flow_method == old(self).flow_method,
            final(self).dinf_flow_angles == old(self).dinf_flow_angles,
            final(self).dinf_flow_proportions == old(self).dinf_flow_proportions,
            final(self).mfd_flow_proportions == old(self).mfd_flow_proportions,
            r is Ok ==> final(self).holds_by_angle(),
            r is Ok ==> forall|i: int|
                0 <= i < old(self).cells() ==> #[trigger] final(self).flow_accumulation@[i]
                    == old(self).shared_upstream(old(self).dinf_flow_proportions->Some_0@, i),
            r is Ok ==> forall|i: int|
                0 <= i < old(self).cells() ==> #[trigger] final(self).flow_accumulation@[i]
                    <= old(self).cells() * crate::flow::UNIT,
            old(self).wf() && old(self).dinf_flow_proportions is Some && old(self).cells()
                * crate::flow::UNIT <= u64::MAX ==> r is Ok,
    {
        if !self.is_well_formed() {
            return Err(ModelError::IllFormedRouting);
        }
        proof {
            if self.dinf_flow_proportions is Some {
                let table = self.dinf_flow_proportions->Some_0@;
                assert forall|i: int| 0 <= i < self.cells() implies #[trigger] self.shared_upstream(
                    table,
                    i,
                ) <= self.cells() * crate::flow::UNIT by {
                    self.lemma_shared_holds_no_more(table, i);
                }
            }
        }
        let counted: Option<Vec<u64>> = match &self.dinf_flow_proportions {
            Some(table) => self.gather(table),
            None => None,
        };
        match counted {
            Some(accumulation) => {
                let ghost routed = *self;
                self.flow_accumulation = accumulation;
                proof {
                    let table = self.dinf_flow_proportions->Some_0@;
                    assert forall|i: int| 0 <= i < self.cells() implies routed.shared_upstream(
                        table,
                        i,
                    ) == self.shared_upstream(table, i) by {
                        routed.lemma_shared_frame(self, table, i, 8);
                    }
                }
                Ok(())
            },
            None => Err(ModelError::NotCountable),
        }
    }

    /// What passes through a cell under given shares depends on the grid
    /// alone.
    pub proof fn lemma_shared_frame(
        &self,
        other: &FlowModel,
        table: Seq<Vec<u32>>,
        i: int,
        k: int,
    )
        requires
            self.dem == other.dem,
        ensures
            self.shared_inflow(table, i, k) == other.shared_inflow(table, i, k),
        decreases self.rank(i), k,
    {
        if 0 < k <= 8 {
            self.lemma_shared_frame(other, table, i, k - 1);
            if let Some(j) = self.dem@.neighbor(i, FlowDirection::spec_from_octant(k - 1)) {
                if 0 <= j < self.cells() && 0 <= i < self.cells() && self.dem.data@[j]
                    > self.dem.data@[i] {
                    self.lemma_shared_frame(other, table, j, 8);
                    assert(self.shared_upstream(table, j) == other.shared_upstream(table, j));
                }
            }
        }
    }

    /// What the neighbours at the first `k` places around cell `i` that
    /// pour into it hold, taken together.
    pub open spec fn gathered(&self, i: int, k: int) -> int
        decreases k,
    {
        if k <= 0 {
            0
        } else {
            self.gathered(i, k - 1) + match self.source(i, k - 1) {
                Some(j) => self.flow_accumulation@[j] as int,
                None => 0,
            }
        }
    }

    /// Where every cell holds what is upstream of it, the neighbours that
    /// pour into a cell hold together what flows into it.
    proof fn lemma_gathered_is_inflow(&self, i: int, k: int)
        requires
            self.wf(),
            0 <= i < self.cells(),
            0 <= k <= 8,
            forall|j: int|
                0 <= j < self.cells() ==> #[trigger] self.flow_accumulation@[j] == self.upstream(j),
        ensures
            self.gathered(i, k) == self.inflow(i, k),
        decreases k,
    {
        if k > 0 {
            self.lemma_gathered_is_inflow(i, k - 1);
        }
    }

    /// Water is neither made nor lost on its way: where every cell holds
    /// what is upstream of it, a cell holds itself and what the neighbours
    /// that pour into it hold.
    pub proof fn lemma_accumulation_balance(&self, i: int)
        requires
            self.wf(),
            0 <= i < self.cells(),
            forall|j: int|
                0 <= j < self.cells() ==> #[trigger] self.flow_accumulation@[j] == self.upstream(j),
        ensures
            self.flow_accumulation@[i] == 1 + self.gathered(i, 8),
    {
        self.lemma_gathered_is_inflow(i, 8);
    }

    /// Every cell either hands its water to a strictly lower neighbour
    /// with data or keeps it; and where shares are stored, the shares of a
    /// cell go to strictly lower neighbours only and add up to a whole at
    /// most.
    pub proof fn lemma_routing_is_total(&self, i: int)
        requires
            self.wf(),
            0 <= i < self.cells(),
        ensures
            self.outflow(i) == FlowDirection::NoFlow <==> self.downstream(i) is None,
            self.downstream(i) matches Some(j) ==> {
                &&& self.dem@.valid(i)
                &&& self.dem@.valid(j)
                &&& self.dem@.adjacent(i, j)
                &&& self.dem@.elev(j) < self.dem@.elev(i)
            },
            self.dinf_flow_proportions matches Some(table) ==> self.dem@.gives_downhill(
                i,
                table@[i]@,
            ),
            self.mfd_flow_proportions matches Some(table) ==> self.dem@.gives_downhill(
                i,
                table@[i]@,
            ),
    {
        if self.downstream(i) is Some {
            self.lemma_flow_descends(i);
            let j = self.downstream(i)->Some_0;
            lemma_back_neighbor(self.dem@, i, self.outflow(i), j);
            lemma_neighbors_touch(self.dem@, i, self.outflow(i), j);
        } else if self.outflow(i) != FlowDirection::NoFlow {
            match (self.flow_method, self.dinf_flow_proportions) {
                (FlowMethod::DInf, Some(table)) => {
                    assert(self.dem@.gives_downhill(i, table@[i]@));
                    crate::flow::lemma_strongest_positive(table@[i]@, 8);
                },
                _ => {
                    assert(self.routed_at(i));
                },
            }
        }
        if self.dinf_flow_proportions is Some {
            let table = self.dinf_flow_proportions->Some_0;
            assert(self.dem@.gives_downhill(i, table@[i]@));
        }
        if self.mfd_flow_proportions is Some {
            let table = self.mfd_flow_proportions->Some_0;
            assert(self.dem@.gives_downhill(i, table@[i]@));
        }
    }

    /// The model holds a finished analysis by steepest descent: every cell
    /// is routed toward its steepest lower neighbour, its slope is the
    /// slope that way, and its accumulation counts the cells that drain
    /// through it.
    pub open spec fn analysed(&self) -> bool {
        &&& self.wf()
        &&& self.flow_method == FlowMethod::D8
        &&& forall|i: int|
            0 <= i < self.cells() ==> self.dem@.is_d8_choice(i, #[trigger] self.flow_directions@[i])
        &&& forall|i: int|
            0 <= i < self.cells() ==> #[trigger] self.slopes@[i] == self.slope_toward(
                i,
                self.flow_directions@[i],
            )
        &&& forall|i: int|
            0 <= i < self.cells() ==> #[trigger] self.flow_accumulation@[i] == self.upstream(i)
    }

    /// Whether the flow can be counted for the model's method of routing:
    /// always for steepest descent; for the two methods that share the flow
    /// once the shares are stored, where what passes through each cell can
    /// be held.
    pub open spec fn countable(&self) -> bool {
        match self.flow_method {
            FlowMethod::D8 => true,
            FlowMethod::DInf => self.fits_by_angle(),
            FlowMethod::MFD => self.fits_rounds(crate::mfd::MFD_PASSES as nat),
        }
    }

    /// The shares that the model's method of routing needs are stored,
    /// and the grid is small enough for its flow to be counted: under the
    /// methods that share the flow, for its cells, as often as water is
    /// handed on, to be counted in millionths.
    pub open spec fn ready_to_count(&self) -> bool {
        match self.flow_method {
            FlowMethod::D8 => true,
            FlowMethod::DInf => self.dinf_flow_proportions is Some && self.cells()
                * crate::flow::UNIT <= u64::MAX,
            FlowMethod::MFD => self.mfd_flow_proportions is Some && (crate::mfd::MFD_PASSES + 1)
                * self.cells() * crate::flow::UNIT <= u64::MAX,
        }
    }

    /// The flow of a well-formed model that is ready to be counted can be
    /// counted.
    pub proof fn lemma_ready_is_countable(&self)
        requires
            self.wf(),
            self.ready_to_count(),
        ensures
            self.countable(),
    {
        match self.flow_method {
            FlowMethod::D8 => {},
            FlowMethod::DInf => {
                self.lemma_angles_fit();
            },
            FlowMethod::MFD => {
                self.lemma_rounds_fit(crate::mfd::MFD_PASSES as nat);
            },
        }
    }

    /// The amount that stands for one cell in the accumulation: 1 under
    /// steepest descent, which counts whole cells, and a million under the
    /// methods that share the flow, which count millionths.
    pub open spec fn spec_accumulation_unit(&self) -> u64 {
        match self.flow_method {
            FlowMethod::D8 => 1,
            _ => crate::flow::UNIT as u64,
        }
    }

    /// The amount that stands for one cell in the accumulation.
    pub fn accumulation_unit(&self) -> (unit: u64)
        ensures
            unit == self.spec_accumulation_unit(),
    {
        match self.flow_method {
            FlowMethod::D8 => 1,
            _ => crate::flow::UNIT as u64,
        }
    }

    /// The accumulation is what the model's method of routing gives: the
    /// number of cells upstream under steepest descent; what passes
    /// through each cell by the stored shares under routing by angle; what
    /// the rounds of handing on leave in each cell where flow is shared
    /// among all lower neighbours.
    pub open spec fn accumulated(&self) -> bool {
        match self.flow_method {
            FlowMethod::D8 => self.counts_upstream(),
            FlowMethod::DInf => self.holds_by_angle(),
            FlowMethod::MFD => self.holds_rounds(crate::mfd::MFD_PASSES as nat),
        }
    }

    /// Why the flow of a model is not counted: its routing is not well
    /// formed; or, where it is, the shares for its method of routing are
    /// not stored or a count is too large to be held.
    pub open spec fn refusal(&self) -> ModelError {
        if self.wf() {
            ModelError::NotCountable
        } else {
            ModelError::IllFormedRouting
        }
    }

    /// Counts for every cell the water that passes through it, by the
    /// model's method of routing.
    ///
    /// The model is examined first: one that is not well formed, in which
    /// water would flow uphill, in a circle or off the grid, is reported
    /// as `IllFormedRouting`; one for whose method of routing the flow
    /// cannot be counted, as `NotCountable`. Either way it stays as it is.
    pub fn compute_flow_accumulation(&mut self) -> (r: Result<(), ModelError>)
        ensures
            r is Ok <==> old(self).wf() && old(self).countable(),
            old(self).ready_to_count() ==> (r is Ok <==> old(self).wf()),
            r matches Err(e) ==> *final(self) == *old(self) && e == old(self).refusal(),
            r is Ok ==> final(self).wf() && final(self).accumulated(),
            r is Ok ==> forall|i: int|
                0 <= i < final(self).cells() ==> #[trigger] final(self).flow_accumulation@[i]
                    >= final(self).spec_accumulation_unit(),
            final(self).dem == old(self).dem,
            final(self).flow_directions == old(self).flow_directions,
            final(self).slopes == old(self).slopes,
            final(self).flow_method == old(self).flow_method,
            final(self).dinf_flow_angles == old(self).dinf_flow_angles,
            final(self).dinf_flow_proportions == old(self).dinf_flow_proportions,
            final(self).mfd_flow_proportions == old(self).mfd_flow_proportions,
    {
        proof {
            if self.wf() && self.ready_to_count() {
                self.lemma_ready_is_countable();
            }
        }
        match self.flow_method {
            FlowMethod::D8 => self.compute_flow_accumulation_d8(),
            FlowMethod::DInf => self.compute_flow_accumulation_dinf(),
            FlowMethod::MFD => self.compute_flow_accumulation_mfd(),
        }
    }
}

/// Entry `a` may stand before entry `b`.
spec fn in_order_at(order: Seq<(u64, usize)>, a: int, b: int) -> bool {
    crate::sorting::in_order(order[a], order[b])
}

/// A cell and its neighbour touch.
proof fn lemma_neighbors_touch(t: Terrain, i: int, direction: FlowDirection, j: int)
    requires
        t.wf(),
        t.neighbor(i, direction) == Some(j),
    ensures
        t.adjacent(i, j),
{
    let w = t.width as int;
    let h = t.height as int;
    lemma_cell_coordinates(w, h, i);
    lemma_index_in_range(
        w,
        h,
        t.col(i) + direction.spec_offset().0,
        t.row(i) + direction.spec_offset().1,
    );
}

} // verus!
