//! Water is not made on its way: what arrives at the cells of a grid is no
//! more than what its cells send, and so no cell ever holds more than
//! there is.

use crate::dem::{lemma_cell_coordinates, lemma_index_in_range, Terrain};
use crate::direction::FlowDirection;
use crate::flow::{shares_sum, FlowModel, UNIT};
use crate::mfd::{arriving, lemma_sends_no_more, relaxed, sent};
use vstd::prelude::*;

verus! {

/// The sum of the first `n` amounts.
pub open spec fn total(held: Seq<int>, n: int) -> int
    decreases n,
{
    if n <= 0 {
        0
    } else {
        total(held, n - 1) + held[n - 1]
    }
}

/// What arrives in one round at the first `n` cells, taken together.
pub open spec fn total_arriving(t: Terrain, table: Seq<Vec<u32>>, held: Seq<int>, n: int) -> int
    decreases n,
{
    if n <= 0 {
        0
    } else {
        total_arriving(t, table, held, n - 1) + arriving(t, table, held, n - 1, 8)
    }
}

/// What the first `n` cells send in one round, taken together.
pub open spec fn total_sent(table: Seq<Vec<u32>>, held: Seq<int>, n: int) -> int
    decreases n,
{
    if n <= 0 {
        0
    } else {
        total_sent(table, held, n - 1) + sent(held[n - 1], table[n - 1]@, 8)
    }
}

/// There is one row of eight shares and one amount for every cell, and no
/// amount is negative.
pub open spec fn shaped(t: Terrain, table: Seq<Vec<u32>>, held: Seq<int>) -> bool {
    &&& t.wf()
    &&& table.len() == t.cells.len()
    &&& held.len() == t.cells.len()
    &&& forall|j: int| 0 <= j < t.cells.len() ==> (#[trigger] table[j])@.len() == 8
    &&& forall|j: int| 0 <= j < t.cells.len() ==> #[trigger] held[j] >= 0
}

/// What cell `j` sends toward the neighbour at place `k` around it.
spec fn part(table: Seq<Vec<u32>>, held: Seq<int>, j: int, k: int) -> int {
    held[j] * table[j]@[k] / (UNIT as int)
}

/// What reaches cell `i` from the neighbour at place `k` around it.
spec fn from_side(t: Terrain, table: Seq<Vec<u32>>, held: Seq<int>, i: int, k: int) -> int {
    match t.neighbor(i, FlowDirection::spec_from_octant(k)) {
        Some(j) => part(table, held, j, (k + 4) % 8),
        None => 0,
    }
}

/// What reaches the first `n` cells from the neighbours at place `k`
/// around them.
spec fn side_total(t: Terrain, table: Seq<Vec<u32>>, held: Seq<int>, k: int, n: int) -> int
    decreases n,
{
    if n <= 0 {
        0
    } else {
        side_total(t, table, held, k, n - 1) + from_side(t, table, held, n - 1, k)
    }
}

/// What the first `n` cells send toward the neighbours at place `k`
/// around them.
spec fn part_total(table: Seq<Vec<u32>>, held: Seq<int>, k: int, n: int) -> int
    decreases n,
{
    if n <= 0 {
        0
    } else {
        part_total(table, held, k, n - 1) + part(table, held, n - 1, k)
    }
}

/// How far the index of the neighbour at place `k` lies from a cell's own.
spec fn stride(t: Terrain, k: int) -> int {
    let offset = FlowDirection::spec_from_octant(k).spec_offset();
    offset.1 * t.width + offset.0
}

/// `x`, held within 0 and `n`.
spec fn within(x: int, n: int) -> int {
    if x < 0 {
        0
    } else if x > n {
        n
    } else {
        x
    }
}

/// What arrives at the first `n` cells arrives from one of the eight sides.
proof fn lemma_arriving_by_sides(t: Terrain, table: Seq<Vec<u32>>, held: Seq<int>, n: int)
    requires
        n >= 0,
    ensures
        total_arriving(t, table, held, n) == side_total(t, table, held, 0, n) + side_total(
            t,
            table,
            held,
            1,
            n,
        ) + side_total(t, table, held, 2, n) + side_total(t, table, held, 3, n) + side_total(
            t,
            table,
            held,
            4,
            n,
        ) + side_total(t, table, held, 5, n) + side_total(t, table, held, 6, n) + side_total(
            t,
            table,
            held,
            7,
            n,
        ),
    decreases n,
{
    if n > 0 {
        lemma_arriving_by_sides(t, table, held, n - 1);
        reveal_with_fuel(arriving, 9);
        let i = n - 1;
        assert(arriving(t, table, held, i, 8) == from_side(t, table, held, i, 0) + from_side(
            t,
            table,
            held,
            i,
            1,
        ) + from_side(t, table, held, i, 2) + from_side(t, table, held, i, 3) + from_side(
            t,
            table,
            held,
            i,
            4,
        ) + from_side(t, table, held, i, 5) + from_side(t, table, held, i, 6) + from_side(
            t,
            table,
            held,
            i,
            7,
        ));
    }
}

/// What the first `n` cells send, they send toward one of the eight sides.
proof fn lemma_sent_by_sides(table: Seq<Vec<u32>>, held: Seq<int>, n: int)
    requires
        n >= 0,
    ensures
        total_sent(table, held, n) == part_total(table, held, 0, n) + part_total(
            table,
            held,
            1,
            n,
        ) + part_total(table, held, 2, n) + part_total(table, held, 3, n) + part_total(
            table,
            held,
            4,
            n,
        ) + part_total(table, held, 5, n) + part_total(table, held, 6, n) + part_total(
            table,
            held,
            7,
            n,
        ),
    decreases n,
{
    if n > 0 {
        lemma_sent_by_sides(table, held, n - 1);
        reveal_with_fuel(sent, 9);
        let j = n - 1;
        assert(sent(held[j], table[j]@, 8) == part(table, held, j, 0) + part(table, held, j, 1)
            + part(table, held, j, 2) + part(table, held, j, 3) + part(table, held, j, 4) + part(
            table,
            held,
            j,
            5,
        ) + part(table, held, j, 6) + part(table, held, j, 7));
    }
}

/// No cell sends less than nothing.
proof fn lemma_part_not_negative(t: Terrain, table: Seq<Vec<u32>>, held: Seq<int>, j: int, k: int)
    requires
        shaped(t, table, held),
        0 <= j < t.cells.len(),
        0 <= k < 8,
    ensures
        part(table, held, j, k) >= 0,
{
    let amount = held[j];
    let share = table[j]@[k] as int;
    assert(amount >= 0);
    assert(amount * share >= 0) by (nonlinear_arith)
        requires
            amount >= 0,
            share >= 0,
    ;
    vstd::arithmetic::div_mod::lemma_div_pos_is_pos(amount * share, UNIT as int);
}

/// What more cells send toward a side is not less.
proof fn lemma_part_total_grows(
    t: Terrain,
    table: Seq<Vec<u32>>,
    held: Seq<int>,
    k: int,
    fewer: int,
    more: int,
)
    requires
        shaped(t, table, held),
        0 <= k < 8,
        0 <= fewer <= more <= t.cells.len(),
    ensures
        0 <= part_total(table, held, k, fewer) <= part_total(table, held, k, more),
    decreases more,
{
    if more > 0 {
        lemma_part_not_negative(t, table, held, more - 1, k);
        if fewer < more {
            lemma_part_total_grows(t, table, held, k, fewer, more - 1);
        } else {
            lemma_part_total_grows(t, table, held, k, fewer - 1, more - 1);
        }
    }
}

/// The neighbour at place `k` around a cell lies a fixed number of cells
/// from it in the row-major order.
proof fn lemma_neighbor_by_stride(t: Terrain, i: int, k: int)
    requires
        t.wf(),
        0 <= i < t.cells.len(),
        0 <= k < 8,
    ensures
        t.neighbor(i, FlowDirection::spec_from_octant(k)) matches Some(j) ==> j == i + stride(t, k)
            && 0 <= j < t.cells.len(),
{
    let w = t.width as int;
    let h = t.height as int;
    let direction = FlowDirection::spec_from_octant(k);
    lemma_cell_coordinates(w, h, i);
    if t.neighbor(i, direction) is Some {
        let x = t.col(i);
        let y = t.row(i);
        let dx = direction.spec_offset().0;
        let dy = direction.spec_offset().1;
        lemma_index_in_range(w, h, x + dx, y + dy);
        assert((y + dy) * w == y * w + dy * w) by (nonlinear_arith);
    }
}

/// What reaches the first `n` cells from one side was sent toward the
/// opposite side by cells that lie a fixed number of cells from them.
proof fn lemma_side_was_sent(t: Terrain, table: Seq<Vec<u32>>, held: Seq<int>, k: int, n: int)
    requires
        shaped(t, table, held),
        0 <= k < 8,
        0 <= n <= t.cells.len(),
    ensures
        side_total(t, table, held, k, n) <= part_total(
            table,
            held,
            (k + 4) % 8,
            within(n + stride(t, k), t.cells.len() as int),
        ),
    decreases n,
{
    let cells = t.cells.len() as int;
    let back = (k + 4) % 8;
    let reach = within(n + stride(t, k), cells);
    if n == 0 {
        lemma_part_total_grows(t, table, held, back, reach, reach);
    } else {
        let before = within(n - 1 + stride(t, k), cells);
        lemma_side_was_sent(t, table, held, k, n - 1);
        lemma_neighbor_by_stride(t, n - 1, k);
        lemma_part_total_grows(t, table, held, back, before, reach);
        if let Some(j) = t.neighbor(n - 1, FlowDirection::spec_from_octant(k)) {
            assert(before == j && reach == j + 1);
            assert(part_total(table, held, back, reach) == part_total(table, held, back, before)
                + part(table, held, j, back));
        }
    }
}

/// What reaches the cells of a grid from one side is no more than what the
/// cells of the grid send toward the opposite side.
proof fn lemma_side_within_sent(t: Terrain, table: Seq<Vec<u32>>, held: Seq<int>, k: int)
    requires
        shaped(t, table, held),
        0 <= k < 8,
    ensures
        side_total(t, table, held, k, t.cells.len() as int) <= part_total(
            table,
            held,
            (k + 4) % 8,
            t.cells.len() as int,
        ),
{
    let cells = t.cells.len() as int;
    lemma_side_was_sent(t, table, held, k, cells);
    lemma_part_total_grows(
        t,
        table,
        held,
        (k + 4) % 8,
        within(cells + stride(t, k), cells),
        cells,
    );
}

/// In one round no more arrives at the cells of a grid than they send.
pub proof fn lemma_arrives_no_more_than_sent(t: Terrain, table: Seq<Vec<u32>>, held: Seq<int>)
    requires
        shaped(t, table, held),
    ensures
        total_arriving(t, table, held, t.cells.len() as int) <= total_sent(
            table,
            held,
            t.cells.len() as int,
        ),
{
    let cells = t.cells.len() as int;
    lemma_arriving_by_sides(t, table, held, cells);
    lemma_sent_by_sides(table, held, cells);
    lemma_side_within_sent(t, table, held, 0);
    lemma_side_within_sent(t, table, held, 1);
    lemma_side_within_sent(t, table, held, 2);
    lemma_side_within_sent(t, table, held, 3);
    lemma_side_within_sent(t, table, held, 4);
    lemma_side_within_sent(t, table, held, 5);
    lemma_side_within_sent(t, table, held, 6);
    lemma_side_within_sent(t, table, held, 7);
}

/// Cells whose shares add up to a whole at most send no more than they
/// hold.
pub proof fn lemma_sent_no_more_than_held(
    t: Terrain,
    table: Seq<Vec<u32>>,
    held: Seq<int>,
    n: int,
)
    requires
        shaped(t, table, held),
        forall|j: int| 0 <= j < t.cells.len() ==> shares_sum((#[trigger] table[j])@, 8) <= UNIT,
        0 <= n <= t.cells.len(),
    ensures
        total_sent(table, held, n) <= total(held, n),
    decreases n,
{
    if n > 0 {
        lemma_sent_no_more_than_held(t, table, held, n - 1);
        assert(held[n - 1] >= 0);
        assert(shares_sum(table[n - 1]@, 8) <= UNIT);
        lemma_sends_no_more(held[n - 1], table[n - 1]@, 8);
    }
}

/// Where no amount is negative, no amount is more than all together.
pub proof fn lemma_entry_within_total(held: Seq<int>, n: int, i: int)
    requires
        0 <= n <= held.len(),
        forall|j: int| 0 <= j < n ==> #[trigger] held[j] >= 0,
    ensures
        total(held, n) >= 0,
        0 <= i < n ==> held[i] <= total(held, n),
    decreases n,
{
    if n > 0 {
        lemma_entry_within_total(held, n - 1, i);
        assert(held[n - 1] >= 0);
    }
}

/// After a round the cells hold themselves and what arrived.
proof fn lemma_total_of_round(
    t: Terrain,
    table: Seq<Vec<u32>>,
    before: Seq<int>,
    after: Seq<int>,
    n: int,
)
    requires
        0 <= n <= after.len(),
        forall|i: int|
            0 <= i < after.len() ==> #[trigger] after[i] == UNIT + arriving(t, table, before, i, 8),
    ensures
        total(after, n) == n * UNIT + total_arriving(t, table, before, n),
    decreases n,
{
    if n > 0 {
        lemma_total_of_round(t, table, before, after, n - 1);
        assert(after[n - 1] == UNIT + arriving(t, table, before, n - 1, 8));
        assert(n * UNIT == (n - 1) * UNIT + UNIT) by (nonlinear_arith);
    }
}

/// Cells that hold one cell each hold as many cells as they are.
proof fn lemma_total_of_ones(held: Seq<int>, n: int)
    requires
        0 <= n <= held.len(),
        forall|i: int| 0 <= i < held.len() ==> #[trigger] held[i] == UNIT,
    ensures
        total(held, n) == n * UNIT,
    decreases n,
{
    if n > 0 {
        lemma_total_of_ones(held, n - 1);
        assert(held[n - 1] == UNIT);
        assert(n * UNIT == (n - 1) * UNIT + UNIT) by (nonlinear_arith);
    }
}

/// After every round every cell holds itself at least.
pub proof fn lemma_relaxed_bounds(t: Terrain, table: Seq<Vec<u32>>, passes: nat)
    requires
        t.wf(),
        table.len() == t.cells.len(),
        forall|j: int| 0 <= j < t.cells.len() ==> t.gives_downhill(j, (#[trigger] table[j])@),
    ensures
        relaxed(t, table, passes).len() == t.cells.len(),
        forall|i: int| 0 <= i < t.cells.len() ==> UNIT <= #[trigger] relaxed(t, table, passes)[i],
    decreases passes,
{
    if passes > 0 {
        let before = relaxed(t, table, (passes - 1) as nat);
        lemma_relaxed_bounds(t, table, (passes - 1) as nat);
        assert(shaped(t, table, before)) by {
            assert forall|j: int| 0 <= j < t.cells.len() implies (#[trigger] table[j])@.len()
                == 8 by {
                assert(t.gives_downhill(j, table[j]@));
            }
        }
        assert forall|i: int| 0 <= i < t.cells.len() implies UNIT <= #[trigger] relaxed(
            t,
            table,
            passes,
        )[i] by {
            lemma_arriving_not_negative(t, table, before, i, 8);
        }
    }
}

/// Every round of handing on adds one cell for every cell of the grid at
/// most: after `passes` rounds the cells hold between them no more than
/// `passes + 1` times the cells of the grid, and so does each.
pub proof fn lemma_rounds_hold_no_more(t: Terrain, table: Seq<Vec<u32>>, passes: nat)
    requires
        t.wf(),
        table.len() == t.cells.len(),
        forall|j: int| 0 <= j < t.cells.len() ==> t.gives_downhill(j, (#[trigger] table[j])@),
    ensures
        total(relaxed(t, table, passes), t.cells.len() as int) <= (passes + 1) * t.cells.len()
            * UNIT,
        forall|i: int|
            0 <= i < t.cells.len() ==> #[trigger] relaxed(t, table, passes)[i] <= (passes + 1)
                * t.cells.len() * UNIT,
    decreases passes,
{
    let cells = t.cells.len() as int;
    let after = relaxed(t, table, passes);
    lemma_relaxed_bounds(t, table, passes);
    if passes == 0 {
        lemma_total_of_ones(after, cells);
        assert((passes + 1) * cells * UNIT == cells * UNIT) by (nonlinear_arith)
            requires
                passes == 0,
        ;
    } else {
        let before = relaxed(t, table, (passes - 1) as nat);
        lemma_rounds_hold_no_more(t, table, (passes - 1) as nat);
        lemma_relaxed_bounds(t, table, (passes - 1) as nat);
        assert(shaped(t, table, before)) by {
            assert forall|j: int| 0 <= j < cells implies (#[trigger] table[j])@.len() == 8 by {
                assert(t.gives_downhill(j, table[j]@));
            }
        }
        assert forall|j: int| 0 <= j < cells implies shares_sum((#[trigger] table[j])@, 8)
            <= UNIT by {
            assert(t.gives_downhill(j, table[j]@));
        }
        lemma_arrives_no_more_than_sent(t, table, before);
        lemma_sent_no_more_than_held(t, table, before, cells);
        lemma_total_of_round(t, table, before, after, cells);
        assert((passes + 1) * cells * UNIT == (passes - 1 + 1) * cells * UNIT + cells * UNIT)
            by (nonlinear_arith);
    }
    assert forall|i: int| 0 <= i < cells implies #[trigger] after[i] <= (passes + 1) * cells
        * UNIT by {
        lemma_entry_within_total(after, cells, i);
    }
}

/// What arrives at a cell is not negative.
proof fn lemma_arriving_not_negative(
    t: Terrain,
    table: Seq<Vec<u32>>,
    held: Seq<int>,
    i: int,
    k: int,
)
    requires
        shaped(t, table, held),
        0 <= i < t.cells.len(),
        0 <= k <= 8,
    ensures
        arriving(t, table, held, i, k) >= 0,
    decreases k,
{
    if k > 0 {
        lemma_arriving_not_negative(t, table, held, i, k - 1);
        lemma_neighbor_by_stride(t, i, k - 1);
        if let Some(j) = t.neighbor(i, FlowDirection::spec_from_octant(k - 1)) {
            lemma_part_not_negative(t, table, held, j, (k - 1 + 4) % 8);
        }
    }
}

impl FlowModel {
    /// What passes through the cells that lie higher than cell `i`, and
    /// nothing for every other cell.
    spec fn held_above(&self, table: Seq<Vec<u32>>, i: int) -> Seq<int> {
        Seq::new(
            self.cells() as nat,
            |j: int|
                if self.dem.data@[j] > self.dem.data@[i] {
                    self.shared_upstream(table, j)
                } else {
                    0
                },
        )
    }

    /// The shares are of a kind that water can be divided by: one row for
    /// every cell, which gives to lower neighbours only and a whole at
    /// most.
    pub open spec fn divides_by(&self, table: Seq<Vec<u32>>) -> bool {
        &&& self.dem.wf()
        &&& table.len() == self.cells()
        &&& forall|j: int|
            0 <= j < self.cells() ==> self.dem@.gives_downhill(j, (#[trigger] table[j])@)
    }

    /// What reaches a cell that lies no lower than cell `i` comes from
    /// cells that lie higher than cell `i`.
    proof fn lemma_arrives_from_above(&self, table: Seq<Vec<u32>>, i: int, c: int, k: int)
        requires
            self.divides_by(table),
            0 <= i < self.cells(),
            0 <= c < self.cells(),
            self.dem.data@[c] >= self.dem.data@[i],
            0 <= k <= 8,
        ensures
            arriving(self.dem@, table, self.held_above(table, i), c, k) == self.shared_inflow(
                table,
                c,
                k,
            ),
        decreases k,
    {
        if k > 0 {
            self.lemma_arrives_from_above(table, i, c, k - 1);
            self.lemma_shared_step(table, c, k - 1);
            if let Some(j) = self.dem@.neighbor(c, FlowDirection::spec_from_octant(k - 1)) {
                let share = table[j]@[(k - 1 + 4) % 8] as int;
                let amount = self.held_above(table, i)[j];
                if share > 0 {
                    assert(self.dem.data@[j] > self.dem.data@[c]);
                    assert(amount == self.shared_upstream(table, j));
                } else {
                    assert(amount * share == 0) by (nonlinear_arith)
                        requires
                            share == 0,
                    ;
                }
            }
        }
    }

    /// The amounts above a cell are of the shape that conservation asks.
    proof fn lemma_held_above_shaped(&self, table: Seq<Vec<u32>>, i: int)
        requires
            self.divides_by(table),
        ensures
            shaped(self.dem@, table, self.held_above(table, i)),
            forall|j: int| 0 <= j < self.cells() ==> shares_sum((#[trigger] table[j])@, 8) <= UNIT,
    {
        let held = self.held_above(table, i);
        assert forall|j: int| 0 <= j < self.cells() implies (#[trigger] table[j])@.len() == 8
            && shares_sum(table[j]@, 8) <= UNIT by {
            assert(self.dem@.gives_downhill(j, table[j]@));
        }
        assert forall|j: int| 0 <= j < self.cells() implies #[trigger] held[j] >= 0 by {
            self.lemma_shared_not_negative(table, j);
        }
    }

    /// Among the first `n` cells, those above cell `i` hold one cell each
    /// more than arrives at them, cell `i` holds nothing of what arrives
    /// at it, and no other cell holds anything.
    proof fn lemma_held_and_arriving(&self, table: Seq<Vec<u32>>, i: int, n: int)
        requires
            self.divides_by(table),
            0 <= i < self.cells(),
            0 <= n <= self.cells(),
        ensures
            total(self.held_above(table, i), n) - total_arriving(
                self.dem@,
                table,
                self.held_above(table, i),
                n,
            ) <= if i < n {
                (n - 1) * UNIT - self.shared_inflow(table, i, 8)
            } else {
                n * UNIT
            },
        decreases n,
    {
        if n > 0 {
            let c = n - 1;
            let held = self.held_above(table, i);
            self.lemma_held_and_arriving(table, i, c);
            self.lemma_held_above_shaped(table, i);
            let arrives = arriving(self.dem@, table, held, c, 8);
            assert(total(held, n) == total(held, c) + held[c]);
            assert(total_arriving(self.dem@, table, held, n) == total_arriving(
                self.dem@,
                table,
                held,
                c,
            ) + arrives);
            if self.dem.data@[c] > self.dem.data@[i] {
                self.lemma_arrives_from_above(table, i, c, 8);
                assert(held[c] == self.shared_upstream(table, c));
                assert(held[c] - arrives == UNIT);
            } else if c == i {
                self.lemma_arrives_from_above(table, i, c, 8);
                assert(held[c] == 0);
            } else {
                lemma_arriving_not_negative(self.dem@, table, held, c, 8);
                assert(held[c] == 0);
            }
            assert(n * UNIT == c * UNIT + UNIT) by (nonlinear_arith)
                requires
                    c == n - 1,
            ;
            assert(c * UNIT == (c - 1) * UNIT + UNIT) by (nonlinear_arith);
        }
    }

    /// Water is not made on its way: where every cell shares its water by
    /// `table`, no more passes through a cell than the grid has cells.
    pub proof fn lemma_shared_holds_no_more(&self, table: Seq<Vec<u32>>, i: int)
        requires
            self.divides_by(table),
            0 <= i < self.cells(),
        ensures
            UNIT <= self.shared_upstream(table, i) <= self.cells() * UNIT,
    {
        let cells = self.cells();
        let held = self.held_above(table, i);
        self.lemma_shared_not_negative(table, i);
        self.lemma_held_above_shaped(table, i);
        self.lemma_held_and_arriving(table, i, cells);
        lemma_arrives_no_more_than_sent(self.dem@, table, held);
        lemma_sent_no_more_than_held(self.dem@, table, held, cells);
        assert(cells * UNIT == (cells - 1) * UNIT + UNIT) by (nonlinear_arith);
    }

    /// Where the shares by angle are stored and the grid is small enough
    /// for its cells to be counted in millionths, what passes through
    /// each cell can be held.
    pub proof fn lemma_angles_fit(&self)
        requires
            self.wf(),
            self.dinf_flow_proportions is Some,
            self.cells() * UNIT <= u64::MAX,
        ensures
            self.fits_by_angle(),
    {
        let table = self.dinf_flow_proportions->Some_0@;
        assert forall|i: int| 0 <= i < self.cells() implies #[trigger] self.shared_upstream(
            table,
            i,
        ) <= u64::MAX by {
            self.lemma_shared_holds_no_more(table, i);
        }
    }

    /// Where the shares among all lower neighbours are stored and the
    /// grid is small enough for `passes + 1` times its cells to be
    /// counted in millionths, the counts of `passes` rounds can be held.
    pub proof fn lemma_rounds_fit(&self, passes: nat)
        requires
            self.wf(),
            self.mfd_flow_proportions is Some,
            (passes + 1) * self.cells() * UNIT <= u64::MAX,
        ensures
            self.fits_rounds(passes),
    {
        let table = self.mfd_flow_proportions->Some_0@;
        lemma_rounds_hold_no_more(self.dem@, table, passes);
    }
}

} // verus!
