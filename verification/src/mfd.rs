//! Sharing the flow of a cell among all its lower neighbours.

use crate::conservation::{lemma_relaxed_bounds, lemma_rounds_hold_no_more};
use crate::dem::{lemma_cell_coordinates, lemma_index_in_range, Terrain};
use crate::direction::{FlowDirection, FlowMethod};
use crate::flow::{filled, shares_sum, FlowModel, Slope, UNIT};
use crate::model::ModelError;
use vstd::prelude::*;

verus! {

/// How often the counts are handed on when flow is shared among all lower
/// neighbours, unless the caller asks otherwise.
pub const MFD_PASSES: usize = 20;

/// The most rounds of handing on that are counted.
pub const MFD_MAX_PASSES: usize = 1_000_000;

/// The weight of the neighbour at place `k` around cell `i` where the
/// ground falls toward it, else 0.
pub open spec fn downhill_weight(t: Terrain, i: int, weights: Seq<u32>, k: int) -> int {
    if t.fall(i, FlowDirection::spec_from_octant(k)) > 0 {
        weights[k] as int
    } else {
        0
    }
}

/// The weights of the lower neighbours at the first `k` places around cell
/// `i`, added up.
pub open spec fn downhill_total(t: Terrain, i: int, weights: Seq<u32>, k: int) -> int
    decreases k,
{
    if k <= 0 {
        0
    } else {
        downhill_total(t, i, weights, k - 1) + downhill_weight(t, i, weights, k - 1)
    }
}

/// The share of the neighbour at place `k` around cell `i`: its weight
/// among the weights of all lower neighbours, in millionths, rounded down;
/// 0 where the ground does not fall toward it.
pub open spec fn downhill_share(t: Terrain, i: int, weights: Seq<u32>, k: int) -> int {
    if downhill_total(t, i, weights, 8) > 0 {
        downhill_weight(t, i, weights, k) * UNIT / downhill_total(t, i, weights, 8)
    } else {
        0
    }
}

/// The shares of a cell add up to a whole at most, and fall short of it by
/// less than eight millionths where any lower neighbour has a weight: each
/// of the eight shares loses less than a millionth to rounding.
pub proof fn lemma_shares_add_up(t: Terrain, i: int, weights: Seq<u32>, k: int)
    requires
        0 <= k <= 8,
    ensures
        ({
            let total = downhill_total(t, i, weights, 8);
            let given = shared_out(t, i, weights, k);
            &&& 0 <= downhill_total(t, i, weights, k)
            &&& total > 0 ==> given * total <= downhill_total(t, i, weights, k) * UNIT
            &&& total > 0 ==> given * total >= downhill_total(t, i, weights, k) * UNIT - k * (
            total - 1)
            &&& total <= 0 ==> given == 0
        }),
    decreases k,
{
    if k > 0 {
        lemma_shares_add_up(t, i, weights, k - 1);
        let total = downhill_total(t, i, weights, 8);
        if total > 0 {
            let w = downhill_weight(t, i, weights, k - 1);
            let s = downhill_share(t, i, weights, k - 1);
            vstd::arithmetic::div_mod::lemma_fundamental_div_mod(w * UNIT, total);
            vstd::arithmetic::div_mod::lemma_mod_bound(w * UNIT, total);
            let before = shared_out(t, i, weights, k - 1);
            let sum = downhill_total(t, i, weights, k - 1);
            let unit = UNIT as int;
            assert(s == (w * unit) / total);
            assert(w * unit == total * s + (w * unit) % total);
            assert((before + s) * total == before * total + s * total) by (nonlinear_arith);
            assert((sum + w) * unit == sum * unit + w * unit) by (nonlinear_arith);
            assert(k * (total - 1) == (k - 1) * (total - 1) + (total - 1)) by (nonlinear_arith);
            assert(s * total == total * s) by (nonlinear_arith);
            assert(shared_out(t, i, weights, k) == before + s);
            assert(downhill_total(t, i, weights, k) == sum + w);
            assert(before * total <= sum * unit);
            assert(before * total >= sum * unit - (k - 1) * (total - 1));
        }
    }
}

/// The shares of a cell add up to a whole at most; they fall short of it
/// by less than eight millionths where any lower neighbour has a weight,
/// and are all 0 where none has.
pub proof fn lemma_shares_of_a_cell(t: Terrain, i: int, weights: Seq<u32>)
    ensures
        0 <= shared_out(t, i, weights, 8) <= UNIT,
        downhill_total(t, i, weights, 8) > 0 ==> shared_out(t, i, weights, 8) > UNIT - 8,
        downhill_total(t, i, weights, 8) <= 0 ==> shared_out(t, i, weights, 8) == 0,
{
    lemma_shares_add_up(t, i, weights, 8);
    let total = downhill_total(t, i, weights, 8);
    let given = shared_out(t, i, weights, 8);
    if total > 0 {
        assert(given <= UNIT && given > UNIT - 8) by (nonlinear_arith)
            requires
                total > 0,
                given * total <= total * UNIT,
                given * total >= total * UNIT - 8 * (total - 1),
        ;
    }
}

/// The shares of the neighbours at the first `k` places around cell `i`,
/// added up.
pub open spec fn shared_out(t: Terrain, i: int, weights: Seq<u32>, k: int) -> int
    decreases k,
{
    if k <= 0 {
        0
    } else {
        shared_out(t, i, weights, k - 1) + downhill_share(t, i, weights, k - 1)
    }
}

/// One share is no more than all of them.
pub proof fn lemma_share_within_sum(shares: Seq<u32>, k: int, at: int)
    requires
        0 <= at < k <= shares.len(),
    ensures
        0 <= shares[at] <= shares_sum(shares, k),
    decreases k,
{
    lemma_sum_not_negative(shares, k - 1);
    if at < k - 1 {
        lemma_share_within_sum(shares, k - 1, at);
    }
}

proof fn lemma_sum_not_negative(shares: Seq<u32>, k: int)
    ensures
        shares_sum(shares, k) >= 0,
    decreases k,
{
    if k > 0 {
        lemma_sum_not_negative(shares, k - 1);
    }
}

impl FlowModel {
    /// The slopes from `(x, y)` toward its eight neighbours, east first and
    /// then clockwise; level where the ground does not fall.
    pub fn slopes_around(&self, x: usize, y: usize) -> (r: Vec<Slope>)
        requires
            self.dem.wf(),
            x < self.dem.width,
            y < self.dem.height,
        ensures
            r@.len() == 8,
            forall|k: int|
                0 <= k < 8 ==> #[trigger] r@[k] == self.slope_toward(
                    self.dem@.index(x as int, y as int),
                    FlowDirection::spec_from_octant(k),
                ),
    {
        let width: usize = self.dem.width;
        let height: usize = self.dem.height;
        proof {
            lemma_index_in_range(width as int, height as int, x as int, y as int);
        }
        let ghost idx = self.dem@.index(x as int, y as int);
        let here: Option<i32> = self.dem.get_elevation(x, y);
        let mut slopes: Vec<Slope> = Vec::new();
        let mut k: usize = 0;
        while k < 8
            invariant
                self.dem.wf(),
                width == self.dem.width,
                height == self.dem.height,
                x < width,
                y < height,
                idx == y * width + x,
                idx % (width as int) == x,
                idx / (width as int) == y,
                0 <= idx < self.cells(),
                here == self.dem.spec_elevation(x as int, y as int),
                k <= 8,
                slopes@.len() == k,
                forall|j: int|
                    0 <= j < k ==> #[trigger] slopes@[j] == self.slope_toward(
                        idx,
                        FlowDirection::spec_from_octant(j),
                    ),
            decreases 8 - k,
        {
            let direction: FlowDirection = FlowDirection::from_octant(k);
            let mut slope: Slope = Slope::flat();
            if let Some(elev) = here {
                if let Some((nx, ny)) = self.dem.neighbor(x, y, direction) {
                    proof {
                        lemma_index_in_range(width as int, height as int, nx as int, ny as int);
                    }
                    if let Some(n_elev) = self.dem.get_elevation(nx, ny) {
                        if n_elev < elev {
                            slope =
                            Slope {
                                drop: (elev as i64 - n_elev as i64) as u32,
                                diagonal: direction.is_diagonal(),
                            };
                        }
                    }
                }
            }
            slopes.push(slope);
            k += 1;
        }
        slopes
    }

    /// `weights` holds eight weights for every cell.
    pub open spec fn weighs_every_neighbor(&self, weights: Seq<Vec<u32>>) -> bool {
        &&& weights.len() == self.cells()
        &&& forall|i: int| 0 <= i < weights.len() ==> (#[trigger] weights[i])@.len() == 8
    }

    /// The stored shares are those that `weights` give.
    pub open spec fn shares_weights(&self, weights: Seq<Vec<u32>>) -> bool {
        forall|i: int, k: int|
            0 <= i < self.cells() && 0 <= k < 8 ==> #[trigger] self.mfd_flow_proportions->Some_0@[i]@[k]
                == downhill_share(self.dem@, i, weights[i]@, k)
    }

    /// Where the stored shares are those that `weights` give, the shares of
    /// a cell add up to a whole at most; they fall short of it by less
    /// than eight millionths where a lower neighbour has a weight, and are
    /// all 0 where none has.
    pub proof fn lemma_mfd_shares_total(&self, weights: Seq<Vec<u32>>, i: int)
        requires
            self.wf(),
            self.mfd_flow_proportions is Some,
            self.shares_weights(weights),
            0 <= i < self.cells(),
        ensures
            ({
                let given = shares_sum(self.mfd_flow_proportions->Some_0@[i]@, 8);
                let total = downhill_total(self.dem@, i, weights[i]@, 8);
                &&& 0 <= given <= UNIT
                &&& total > 0 ==> given > UNIT - 8
                &&& total <= 0 ==> given == 0
            }),
    {
        let row = self.mfd_flow_proportions->Some_0@[i]@;
        assert(self.dem@.gives_downhill(i, row));
        lemma_shares_of_a_cell(self.dem@, i, weights[i]@);
        lemma_sum_is_shared_out(self.dem@, i, weights[i]@, row, 8);
    }

    /// Shares the water of every cell among its strictly lower neighbours
    /// with data, in proportion to the weights given for them, and says
    /// whether it did: it does nothing unless there are eight weights for
    /// every cell. The weight of a neighbour that does not lie lower counts
    /// for nothing.
    pub fn compute_flow_directions_mfd(&mut self, weights: &Vec<Vec<u32>>) -> (done: bool)
        requires
            old(self).wf(),
        ensures
            final(self).wf(),
            done == old(self).weighs_every_neighbor(weights@),
            final(self).dem == old(self).dem,
            final(self).flow_directions == old(self).flow_directions,
            final(self).flow_accumulation == old(self).flow_accumulation,
            final(self).slopes == old(self).slopes,
            final(self).dinf_flow_angles == old(self).dinf_flow_angles,
            final(self).dinf_flow_proportions == old(self).dinf_flow_proportions,
            !done ==> final(self).flow_method == old(self).flow_method,
            !done ==> final(self).mfd_flow_proportions == old(self).mfd_flow_proportions,
            done ==> {
                &&& final(self).flow_method == FlowMethod::MFD
                &&& final(self).mfd_flow_proportions is Some
                &&& final(self).shares_weights(weights@)
            },
    {
        let n: usize = self.dem.data.len();
        let width: usize = self.dem.width;
        let height: usize = self.dem.height;
        if weights.len() != n {
            return false;
        }
        let mut table: Vec<Vec<u32>> = Vec::new();
        let mut idx: usize = 0;
        while idx < n
            invariant
                self.wf(),
                *self == *old(self),
                n == self.cells(),
                width == self.dem.width,
                height == self.dem.height,
                weights@.len() == n,
                idx <= n,
                table@.len() == idx,
                forall|i: int| 0 <= i < idx ==> (#[trigger] weights@[i])@.len() == 8,
                forall|i: int|
                    0 <= i < idx ==> self.dem@.gives_downhill(i, (#[trigger] table@[i])@),
                forall|i: int, k: int|
                    0 <= i < idx && 0 <= k < 8 ==> #[trigger] table@[i]@[k] == downhill_share(
                        self.dem@,
                        i,
                        weights@[i]@,
                        k,
                    ),
            decreases n - idx,
        {
            if weights[idx].len() != 8 {
                return false;
            }
            let x: usize = idx % width;
            let y: usize = idx / width;
            proof {
                lemma_cell_coordinates(width as int, height as int, idx as int);
            }
            let row: Vec<u32> = self.shares_of_weights(x, y, &weights[idx]);
            table.push(row);
            idx += 1;
        }
        self.mfd_flow_proportions = Some(table);
        self.flow_method = FlowMethod::MFD;
        true
    }

    /// The shares of the eight neighbours of `(x, y)` for the weights
    /// given.
    fn shares_of_weights(&self, x: usize, y: usize, weights: &Vec<u32>) -> (row: Vec<u32>)
        requires
            self.dem.wf(),
            x < self.dem.width,
            y < self.dem.height,
            weights@.len() == 8,
        ensures
            self.dem@.gives_downhill(self.dem@.index(x as int, y as int), row@),
            forall|k: int|
                0 <= k < 8 ==> #[trigger] row@[k] == downhill_share(
                    self.dem@,
                    self.dem@.index(x as int, y as int),
                    weights@,
                    k,
                ),
    {
        let ghost i = self.dem@.index(x as int, y as int);
        let mut lower: Vec<bool> = Vec::new();
        let mut total: u64 = 0;
        let mut k: usize = 0;
        while k < 8
            invariant
                self.dem.wf(),
                x < self.dem.width,
                y < self.dem.height,
                i == self.dem@.index(x as int, y as int),
                weights@.len() == 8,
                k <= 8,
                lower@.len() == k,
                forall|j: int|
                    0 <= j < k ==> lower@[j] == (self.dem@.fall(
                        i,
                        FlowDirection::spec_from_octant(j),
                    ) > 0),
                total == downhill_total(self.dem@, i, weights@, k as int),
                total <= k * u32::MAX,
            decreases 8 - k,
        {
            let falls: bool = self.falls_toward(x, y, FlowDirection::from_octant(k));
            if falls {
                total = total + weights[k] as u64;
            }
            lower.push(falls);
            k += 1;
        }
        let mut row: Vec<u32> = Vec::new();
        let mut given: u64 = 0;
        k = 0;
        while k < 8
            invariant
                weights@.len() == 8,
                lower@.len() == 8,
                k <= 8,
                row@.len() == k,
                forall|j: int|
                    0 <= j < 8 ==> lower@[j] == (self.dem@.fall(
                        i,
                        FlowDirection::spec_from_octant(j),
                    ) > 0),
                total == downhill_total(self.dem@, i, weights@, 8),
                forall|j: int|
                    0 <= j < k ==> #[trigger] row@[j] == downhill_share(self.dem@, i, weights@, j),
                forall|j: int|
                    0 <= j < k && #[trigger] row@[j] > 0 ==> self.dem@.fall(
                        i,
                        FlowDirection::spec_from_octant(j),
                    ) > 0,
                shares_sum(row@, k as int) == shared_out(self.dem@, i, weights@, k as int),
            decreases 8 - k,
        {
            let mut share: u32 = 0;
            if lower[k] && total > 0 {
                proof {
                    lemma_weight_within_total(self.dem@, i, weights@, 8, k as int);
                    let w = weights@[k as int] as int;
                    assert(w * UNIT <= total * UNIT) by (nonlinear_arith)
                        requires
                            0 <= w <= total,
                    ;
                    assert(w * UNIT <= u32::MAX * UNIT) by (nonlinear_arith)
                        requires
                            0 <= w <= u32::MAX,
                    ;
                    vstd::arithmetic::div_mod::lemma_div_is_ordered(
                        w * UNIT,
                        total * UNIT,
                        total as int,
                    );
                    vstd::arithmetic::div_mod::lemma_div_multiples_vanish(UNIT as int, total as int);
                    assert(total * UNIT == total as int * UNIT) by (nonlinear_arith);
                    vstd::arithmetic::div_mod::lemma_div_pos_is_pos(w * UNIT, total as int);
                }
                share = ((weights[k] as u64) * (UNIT as u64) / total) as u32;
            } else {
                proof {
                    if total > 0 {
                        assert(0int * UNIT / (total as int) == 0);
                    }
                }
            }
            let ghost before = row@;
            row.push(share);
            proof {
                assert forall|j: int| 0 <= j <= k implies shares_sum(row@, j) == shares_sum(
                    before,
                    j,
                ) by {
                    lemma_sum_of_prefix(before, row@, j);
                }
            }
            k += 1;
        }
        proof {
            lemma_shares_add_up(self.dem@, i, weights@, 8);
            let total = downhill_total(self.dem@, i, weights@, 8);
            let given = shared_out(self.dem@, i, weights@, 8);
            if total > 0 {
                assert(given <= UNIT) by (nonlinear_arith)
                    requires
                        total > 0,
                        given * total <= total * UNIT,
                ;
            }
        }
        row
    }
}

/// The sum of the first `k` shares depends on those shares alone.
proof fn lemma_sum_of_prefix(a: Seq<u32>, b: Seq<u32>, k: int)
    requires
        0 <= k <= a.len(),
        k <= b.len(),
        forall|j: int| 0 <= j < k ==> a[j] == b[j],
    ensures
        shares_sum(a, k) == shares_sum(b, k),
    decreases k,
{
    if k > 0 {
        lemma_sum_of_prefix(a, b, k - 1);
    }
}

/// One weight is no more than the total of the weights.
proof fn lemma_weight_within_total(t: Terrain, i: int, weights: Seq<u32>, k: int, at: int)
    requires
        0 <= at < k <= 8,
    ensures
        0 <= downhill_weight(t, i, weights, at) <= downhill_total(t, i, weights, k),
    decreases k,
{
    lemma_total_not_negative(t, i, weights, k - 1);
    if at < k - 1 {
        lemma_weight_within_total(t, i, weights, k - 1, at);
    }
}

proof fn lemma_total_not_negative(t: Terrain, i: int, weights: Seq<u32>, k: int)
    ensures
        downhill_total(t, i, weights, k) >= 0,
    decreases k,
{
    if k > 0 {
        lemma_total_not_negative(t, i, weights, k - 1);
    }
}

/// What reaches cell `i` in one round from the neighbours at the first `k`
/// places around it: of what each neighbour holds, the share that it gives
/// toward cell `i`, rounded down to millionths of a cell.
pub open spec fn arriving(t: Terrain, table: Seq<Vec<u32>>, held: Seq<int>, i: int, k: int) -> int
    decreases k,
{
    if k <= 0 {
        0
    } else {
        arriving(t, table, held, i, k - 1) + match t.neighbor(
            i,
            FlowDirection::spec_from_octant(k - 1),
        ) {
            Some(j) => held[j] * table[j]@[(k - 1 + 4) % 8] / (UNIT as int),
            None => 0,
        }
    }
}

/// What every cell holds after `passes` rounds, in millionths of a cell.
/// Before the first round every cell holds itself; in every round it
/// holds itself again and what reaches it of what its neighbours held
/// before.
pub open spec fn relaxed(t: Terrain, table: Seq<Vec<u32>>, passes: nat) -> Seq<int>
    decreases passes,
{
    if passes == 0 {
        Seq::new(t.cells.len(), |i: int| UNIT as int)
    } else {
        Seq::new(
            t.cells.len(),
            |i: int| UNIT + arriving(t, table, relaxed(t, table, (passes - 1) as nat), i, 8),
        )
    }
}

/// The part that a cell gives toward one neighbour is no more than what
/// it holds.
pub proof fn lemma_part_of_held(t: Terrain, table: Seq<Vec<u32>>, held: Seq<int>, j: int, place: int)
    requires
        0 <= j < table.len(),
        0 <= place < 8,
        t.gives_downhill(j, table[j]@),
        held[j] >= 0,
    ensures
        0 <= table[j]@[place] <= UNIT,
        0 <= held[j] * table[j]@[place] / (UNIT as int) <= held[j],
{
    lemma_share_within_sum(table[j]@, 8, place);
    let share = table[j]@[place] as int;
    let unit = UNIT as int;
    assert(0 <= held[j] * share <= held[j] * unit) by (nonlinear_arith)
        requires
            held[j] >= 0,
            0 <= share <= unit,
    ;
    vstd::arithmetic::div_mod::lemma_div_is_ordered(held[j] * share, held[j] * unit, unit);
    vstd::arithmetic::div_mod::lemma_div_multiples_vanish(held[j], unit);
    assert(held[j] * unit == unit * held[j]) by (nonlinear_arith);
    vstd::arithmetic::div_mod::lemma_div_pos_is_pos(held[j] * share, unit);
}

/// What a cell that holds `held` sends to the neighbours at the first `k`
/// places around it, in millionths of a cell.
pub open spec fn sent(held: int, shares: Seq<u32>, k: int) -> int
    decreases k,
{
    if k <= 0 {
        0
    } else {
        sent(held, shares, k - 1) + held * shares[k - 1] / (UNIT as int)
    }
}

/// A cell sends no more than it holds: where its shares add up to a whole
/// at most, what it sends to its neighbours in a round adds up to what it
/// holds at most.
pub proof fn lemma_sends_no_more(held: int, shares: Seq<u32>, k: int)
    requires
        held >= 0,
        0 <= k <= shares.len(),
    ensures
        0 <= sent(held, shares, k),
        sent(held, shares, k) * UNIT <= held * shares_sum(shares, k),
        shares_sum(shares, k) <= UNIT ==> sent(held, shares, k) <= held,
    decreases k,
{
    let unit = UNIT as int;
    if k > 0 {
        lemma_sends_no_more(held, shares, k - 1);
        let share = shares[k - 1] as int;
        let part = held * share / unit;
        vstd::arithmetic::div_mod::lemma_fundamental_div_mod(held * share, unit);
        vstd::arithmetic::div_mod::lemma_mod_bound(held * share, unit);
        assert(held * share >= 0) by (nonlinear_arith)
            requires
                held >= 0,
                share >= 0,
        ;
        vstd::arithmetic::div_mod::lemma_div_pos_is_pos(held * share, unit);
        assert(part * unit == unit * part) by (nonlinear_arith);
        assert((sent(held, shares, k - 1) + part) * unit == sent(held, shares, k - 1) * unit + part
            * unit) by (nonlinear_arith);
        assert(held * (shares_sum(shares, k - 1) + share) == held * shares_sum(shares, k - 1)
            + held * share) by (nonlinear_arith);
    }
    if shares_sum(shares, k) <= UNIT {
        assert(sent(held, shares, k) <= held) by (nonlinear_arith)
            requires
                sent(held, shares, k) * unit <= held * shares_sum(shares, k),
                shares_sum(shares, k) <= unit,
                held >= 0,
                unit > 0,
        ;
    }
}

/// Once a round of handing on changes nothing, no later round does: the
/// counts have settled.
pub proof fn lemma_settled_stays(t: Terrain, table: Seq<Vec<u32>>, settled: nat, later: nat)
    requires
        relaxed(t, table, settled + 1) == relaxed(t, table, settled),
        settled <= later,
    ensures
        relaxed(t, table, later) == relaxed(t, table, settled),
    decreases later,
{
    if later > settled {
        lemma_settled_stays(t, table, settled, (later - 1) as nat);
        assert(relaxed(t, table, later) =~= relaxed(t, table, settled + 1));
    }
}

impl FlowModel {
    /// What every cell holds after the rounds of handing on, in millionths
    /// of a cell; `None` where that is too much to be held.
    fn relax(&self, table: &Vec<Vec<u32>>, passes: usize) -> (r: Option<Vec<u64>>)
        requires
            self.dem.wf(),
            passes <= MFD_MAX_PASSES,
            table@.len() == self.cells(),
            forall|j: int|
                0 <= j < self.cells() ==> self.dem@.gives_downhill(j, (#[trigger] table@[j])@),
        ensures
            r is Some <==> forall|i: int|
                0 <= i < self.cells() ==> #[trigger] relaxed(self.dem@, table@, passes as nat)[i]
                    <= u64::MAX,
            r matches Some(held) ==> {
                &&& held@.len() == self.cells()
                &&& forall|i: int|
                    0 <= i < self.cells() ==> #[trigger] held@[i] == relaxed(
                        self.dem@,
                        table@,
                        passes as nat,
                    )[i]
                &&& forall|i: int| 0 <= i < self.cells() ==> #[trigger] held@[i] >= UNIT
            },
    {
        let n: usize = self.dem.data.len();
        let width: usize = self.dem.width;
        let height: usize = self.dem.height;
        let ghost t = self.dem@;
        let mut held: Vec<u128> = filled(UNIT as u128, n);
        let mut pass: usize = 0;
        while pass < passes
            invariant
                passes <= MFD_MAX_PASSES,
                self.dem.wf(),
                t == self.dem@,
                n == self.cells(),
                width == self.dem.width,
                height == self.dem.height,
                table@.len() == n,
                forall|j: int| 0 <= j < n ==> t.gives_downhill(j, (#[trigger] table@[j])@),
                pass <= passes,
                held@.len() == n,
                forall|i: int|
                    0 <= i < n ==> #[trigger] held@[i] == relaxed(t, table@, pass as nat)[i],
            decreases passes - pass,
        {
            let ghost before = relaxed(t, table@, pass as nat);
            let ghost cap: int = (pass + 1) * n * UNIT;
            proof {
                lemma_relaxed_bounds(t, table@, pass as nat);
                lemma_rounds_hold_no_more(t, table@, pass as nat);
                assert(0 <= cap <= 18446762520453625324551615000000) by (nonlinear_arith)
                    requires
                        cap == (pass + 1) * n * 1000000,
                        0 <= pass < 1000000,
                        0 <= n <= 18446744073709551615,
                ;
            }
            let mut next: Vec<u128> = Vec::new();
            let mut idx: usize = 0;
            while idx < n
                invariant
                    self.dem.wf(),
                    t == self.dem@,
                    n == self.cells(),
                    width == self.dem.width,
                    height == self.dem.height,
                    table@.len() == n,
                    forall|j: int| 0 <= j < n ==> t.gives_downhill(j, (#[trigger] table@[j])@),
                    pass < passes,
                    held@.len() == n,
                    before == relaxed(t, table@, pass as nat),
                    before.len() == n,
                    forall|i: int| 0 <= i < n ==> #[trigger] held@[i] == before[i],
                    forall|i: int| 0 <= i < n ==> 0 <= #[trigger] before[i] <= cap,
                    0 <= cap <= 18446762520453625324551615000000,
                    idx <= n,
                    next@.len() == idx,
                    forall|i: int|
                        0 <= i < idx ==> #[trigger] next@[i] == UNIT + arriving(
                            t,
                            table@,
                            before,
                            i,
                            8,
                        ),
                decreases n - idx,
            {
                let x: usize = idx % width;
                let y: usize = idx / width;
                proof {
                    lemma_cell_coordinates(width as int, height as int, idx as int);
                }
                let mut sum: u128 = UNIT as u128;
                let mut k: usize = 0;
                while k < 8
                    invariant
                        self.dem.wf(),
                        t == self.dem@,
                        n == self.cells(),
                        width == self.dem.width,
                        height == self.dem.height,
                        x == idx % width,
                        y == idx / width,
                        x < width,
                        y < height,
                        idx < n,
                        table@.len() == n,
                        forall|j: int| 0 <= j < n ==> t.gives_downhill(j, (#[trigger] table@[j])@),
                        held@.len() == n,
                        before.len() == n,
                        forall|i: int| 0 <= i < n ==> #[trigger] held@[i] == before[i],
                        forall|i: int|
                            0 <= i < n ==> 0 <= #[trigger] before[i] <= cap,
                        0 <= cap <= 18446762520453625324551615000000,
                        k <= 8,
                        sum == UNIT + arriving(t, table@, before, idx as int, k as int),
                        sum <= UNIT + k * cap,
                    decreases 8 - k,
                {
                    if let Some((nx, ny)) = self.dem.neighbor(x, y, FlowDirection::from_octant(k)) {
                        proof {
                            lemma_index_in_range(width as int, height as int, nx as int, ny as int);
                        }
                        let j: usize = ny * width + nx;
                        let place: usize = (k + 4) % 8;
                        proof {
                            lemma_part_of_held(t, table@, before, j as int, place as int);
                            assert(before[j as int] * table@[j as int]@[place as int]
                                <= 18446762520453625324551615000000 * 1000000) by (nonlinear_arith)
                                requires
                                    0 <= before[j as int] <= 18446762520453625324551615000000,
                                    0 <= table@[j as int]@[place as int] <= 1000000,
                            ;
                            assert(held@[j as int] == before[j as int]);
                            assert(0 <= before[j as int] <= cap);
                        }
                        let share: u32 = table[j][place];
                        let part: u128 = held[j] * (share as u128) / (UNIT as u128);
                        proof {
                            assert((k + 1) * cap == k * cap
                                + cap) by (nonlinear_arith);
                            assert(k * cap <= 8 * 18446762520453625324551615000000)
                                by (nonlinear_arith)
                                requires
                                    0 <= k <= 8,
                                    0 <= cap <= 18446762520453625324551615000000,
                            ;
                        }
                        sum = sum + part;
                    } else {
                        proof {
                            assert((k + 1) * cap == k * cap
                                + cap) by (nonlinear_arith);
                        }
                    }
                    k += 1;
                }
                next.push(sum);
                idx += 1;
            }
            held = next;
            pass += 1;
        }
        proof {
            lemma_relaxed_bounds(t, table@, passes as nat);
        }
        let mut fine: Vec<u64> = Vec::new();
        let mut idx: usize = 0;
        while idx < n
            invariant
                idx <= n,
                n == self.cells(),
                t == self.dem@,
                held@.len() == n,
                fine@.len() == idx,
                forall|i: int|
                    0 <= i < n ==> #[trigger] held@[i] == relaxed(t, table@, passes as nat)[i],
                forall|i: int| 0 <= i < n ==> UNIT <= #[trigger] held@[i],
                forall|i: int| 0 <= i < idx ==> #[trigger] fine@[i] == held@[i],
            decreases n - idx,
        {
            if held[idx] > u64::MAX as u128 {
                assert(relaxed(t, table@, passes as nat)[idx as int] > u64::MAX);
                return None;
            }
            fine.push(held[idx] as u64);
            idx += 1;
        }
        assert forall|i: int| 0 <= i < n implies #[trigger] relaxed(t, table@, passes as nat)[i]
            <= u64::MAX by {
            assert(fine@[i] == held@[i]);
        }
        Some(fine)
    }

    /// The shares are stored, and what `passes` rounds of handing on leave
    /// in each cell can be held.
    pub open spec fn fits_rounds(&self, passes: nat) -> bool {
        &&& self.mfd_flow_proportions is Some
        &&& forall|i: int|
            0 <= i < self.cells() ==> #[trigger] relaxed(
                self.dem@,
                self.mfd_flow_proportions->Some_0@,
                passes,
            )[i] <= u64::MAX
    }

    /// The accumulation is what `passes` rounds of handing on leave in each
    /// cell, in millionths of a cell; every cell holds itself at least.
    pub open spec fn holds_rounds(&self, passes: nat) -> bool {
        &&& forall|i: int|
            0 <= i < self.cells() ==> #[trigger] self.flow_accumulation@[i] == relaxed(
                self.dem@,
                self.mfd_flow_proportions->Some_0@,
                passes,
            )[i]
        &&& forall|i: int| 0 <= i < self.cells() ==> #[trigger] self.flow_accumulation@[i] >= UNIT
    }

    /// Counts for every cell how much water passes through it when flow is
    /// shared among all lower neighbours: for `MFD_PASSES` rounds every
    /// cell hands what it holds to its neighbours by their shares. The
    /// result is an approximation that the number of rounds bounds. It is
    /// given in millionths of a cell, each handing on rounded down.
    ///
    /// The model is examined first: one that is not well formed is
    /// reported as `IllFormedRouting`; one in which no shares are stored,
    /// or a count is too large to be held, as `NotCountable`. Either way
    /// it stays as it is.
    pub fn compute_flow_accumulation_mfd(&mut self) -> (r: Result<(), ModelError>)
        ensures
            r is Ok <==> old(self).wf() && old(self).fits_rounds(MFD_PASSES as nat),
            r matches Err(e) ==> *final(self) == *old(self) && e == old(self).refusal(),
            r is Ok ==> final(self).wf(),
            final(self).dem == old(self).dem,
            final(self).flow_directions == old(self).flow_directions,
            final(self).slopes == old(self).slopes,
            final(self).flow_method == old(self).flow_method,
            final(self).dinf_flow_angles == old(self).dinf_flow_angles,
            final(self).dinf_flow_proportions == old(self).dinf_flow_proportions,
            final(self).mfd_flow_proportions == old(self).mfd_flow_proportions,
            old(self).wf() && old(self).mfd_flow_proportions is Some && (MFD_PASSES + 1)
                * old(self).cells() * UNIT <= u64::MAX ==> r is Ok,
            r is Ok ==> final(self).holds_rounds(MFD_PASSES as nat),
            r is Ok ==> forall|i: int|
                0 <= i < old(self).cells() ==> #[trigger] final(self).flow_accumulation@[i] <= (
                MFD_PASSES + 1) * old(self).cells() * UNIT,
    {
        self.compute_flow_accumulation_mfd_in(MFD_PASSES)
    }

    /// As `compute_flow_accumulation_mfd`, with the number of rounds as the
    /// caller chooses it: more rounds follow the water further, at more
    /// cost. More than `MFD_MAX_PASSES` rounds are reported as
    /// `NotCountable`, as are missing shares and a count that is too
    /// large to be held.
    pub fn compute_flow_accumulation_mfd_in(&mut self, passes: usize) -> (r: Result<
        (),
        ModelError,
    >)
        ensures
            r is Ok <==> old(self).wf() && passes <= MFD_MAX_PASSES && old(self).fits_rounds(
                passes as nat,
            ),
            r matches Err(e) ==> *final(self) == *old(self) && e == old(self).refusal(),
            r is Ok ==> final(self).wf(),
            final(self).dem == old(self).dem,
            final(self).flow_directions == old(self).flow_directions,
            final(self).slopes == old(self).slopes,
            final(self).flow_method == old(self).flow_method,
            final(self).dinf_flow_angles == old(self).dinf_flow_angles,
            final(self).dinf_flow_proportions == old(self).dinf_flow_proportions,
            final(self).mfd_flow_proportions == old(self).mfd_flow_proportions,
            old(self).wf() && old(self).mfd_flow_proportions is Some && passes <= MFD_MAX_PASSES
                && (passes + 1) * old(self).cells() * UNIT <= u64::MAX ==> r is Ok,
            r is Ok ==> final(self).holds_rounds(passes as nat),
            r is Ok ==> forall|i: int|
                0 <= i < old(self).cells() ==> #[trigger] final(self).flow_accumulation@[i] <= (
                passes + 1) * old(self).cells() * UNIT,
    {
        if !self.is_well_formed() {
            return Err(ModelError::IllFormedRouting);
        }
        if passes > MFD_MAX_PASSES {
            return Err(ModelError::NotCountable);
        }
        proof {
            if self.mfd_flow_proportions is Some {
                lemma_rounds_hold_no_more(
                    self.dem@,
                    self.mfd_flow_proportions->Some_0@,
                    passes as nat,
                );
            }
        }
        let counted: Option<Vec<u64>> = match &self.mfd_flow_proportions {
            Some(table) => self.relax(table, passes),
            None => None,
        };
        match counted {
            Some(accumulation) => {
                self.flow_accumulation = accumulation;
                Ok(())
            },
            None => Err(ModelError::NotCountable),
        }
    }
}

/// Shares that are those that the weights give add up to what the
/// weights give out.
proof fn lemma_sum_is_shared_out(t: Terrain, i: int, weights: Seq<u32>, row: Seq<u32>, k: int)
    requires
        0 <= k <= 8,
        row.len() == 8,
        forall|j: int| 0 <= j < 8 ==> #[trigger] row[j] == downhill_share(t, i, weights, j),
    ensures
        shares_sum(row, k) == shared_out(t, i, weights, k),
    decreases k,
{
    if k > 0 {
        lemma_sum_is_shared_out(t, i, weights, row, k - 1);
    }
}

} // verus!
