//! Ground that falls from west to east, every row alike.

use crate::accumulation::sum_where;
use crate::dem::{lemma_cell_coordinates, lemma_index_in_range, Terrain};
use crate::direction::{FlowDirection, FlowMethod};
use crate::flow::{lemma_d8_choice_is_unique, FlowModel};
use vstd::prelude::*;

verus! {

impl Terrain {
    /// Every cell has data, the cells of a column are level with each
    /// other, and a cell lies higher than every cell of a column further
    /// east.
    pub open spec fn is_ramp(self) -> bool {
        &&& self.wf()
        &&& forall|i: int| 0 <= i < self.cells.len() ==> (#[trigger] self.cells[i]) is Some
        &&& forall|i: int, j: int|
            0 <= i < self.cells.len() && 0 <= j < self.cells.len() ==> {
                &&& self.col(i) < self.col(j) ==> (#[trigger] self.elev(i)) > (
                #[trigger] self.elev(j))
                &&& self.col(i) == self.col(j) ==> self.elev(i) == self.elev(j)
            }
    }

    /// Cell `i` lies in the easternmost column.
    pub open spec fn in_last_column(self, i: int) -> bool {
        self.col(i) == self.width - 1
    }

    /// Where the water of cell `i` of a ramp goes: east, but for the last
    /// column, where it stays.
    pub open spec fn ramp_direction(self, i: int) -> FlowDirection {
        if self.in_last_column(i) {
            FlowDirection::NoFlow
        } else {
            FlowDirection::East
        }
    }
}

/// On a ramp the ground falls toward the three neighbours to the east, by
/// the same amount, and toward no other.
pub proof fn lemma_ramp_fall(t: Terrain, i: int, direction: FlowDirection)
    requires
        t.is_ramp(),
        0 <= i < t.cells.len(),
    ensures
        t.neighbor(i, direction) matches Some(j) ==> {
            &&& 0 <= j < t.cells.len()
            &&& t.col(j) == t.col(i) + direction.spec_offset().0
            &&& t.row(j) == t.row(i) + direction.spec_offset().1
        },
        t.in_last_column(i) <==> t.neighbor(i, FlowDirection::East) is None,
        t.in_last_column(i) ==> t.fall(i, direction) == 0,
        !t.in_last_column(i) ==> t.fall(i, FlowDirection::East) > 0,
        direction.spec_offset().0 != 1 ==> t.fall(i, direction) == 0,
        direction.spec_offset().0 == 1 && t.neighbor(i, direction) is Some ==> t.fall(i, direction)
            == t.fall(i, FlowDirection::East),
{
    let w = t.width as int;
    let h = t.height as int;
    lemma_cell_coordinates(w, h, i);
    let x = t.col(i);
    let y = t.row(i);
    assert(t.cells[i] is Some);
    if x < w - 1 {
        lemma_index_in_range(w, h, x + 1, y);
        let e = t.index(x + 1, y);
        assert(t.neighbor(i, FlowDirection::East) == Some(e));
        assert(t.cells[e] is Some);
        assert(t.elev(i) > t.elev(e));
    }
    if let Some(j) = t.neighbor(i, direction) {
        let nx = x + direction.spec_offset().0;
        let ny = y + direction.spec_offset().1;
        lemma_index_in_range(w, h, nx, ny);
        assert(t.cells[j] is Some);
        if nx == x + 1 {
            let e = t.index(x + 1, y);
            assert(t.elev(j) == t.elev(e));
        } else if nx == x {
            assert(t.elev(i) == t.elev(j));
        } else {
            assert(t.elev(j) > t.elev(i));
        }
    }
}

/// On a ramp steepest descent sends the water of every cell east, but for
/// the last column, where it stays.
pub proof fn lemma_ramp_choice(t: Terrain, i: int)
    requires
        t.is_ramp(),
        0 <= i < t.cells.len(),
    ensures
        t.is_d8_choice(i, t.ramp_direction(i)),
{
    lemma_ramp_fall(t, i, FlowDirection::East);
    let east = t.fall(i, FlowDirection::East);
    assert forall|k: int| 0 <= k < 8 implies {
        &&& t.in_last_column(i) ==> t.fall(i, #[trigger] FlowDirection::spec_from_octant(k)) == 0
        &&& !t.in_last_column(i) ==> t.steepness(i, FlowDirection::spec_from_octant(k))
            <= t.steepness(i, FlowDirection::East)
    } by {
        let direction = FlowDirection::spec_from_octant(k);
        lemma_ramp_fall(t, i, direction);
        if !t.in_last_column(i) {
            let fall = t.fall(i, direction);
            assert(fall == 0 || fall == east);
            assert(fall * fall <= 2 * (east * east)) by (nonlinear_arith)
                requires
                    fall == 0 || fall == east,
            ;
            assert(2 * (fall * fall) <= 2 * (east * east)) by (nonlinear_arith)
                requires
                    fall == 0 || fall == east,
            ;
        }
    }
}

impl FlowModel {
    /// Every cell is routed toward its steepest lower neighbour, and the
    /// stored directions are what leads the water on.
    pub open spec fn routed_by_descent(&self) -> bool {
        &&& self.wf()
        &&& self.flow_method == FlowMethod::D8
        &&& forall|i: int|
            0 <= i < self.cells() ==> self.dem@.is_d8_choice(i, #[trigger] self.flow_directions@[i])
    }

    /// The cells of the easternmost column.
    pub open spec fn last_column(&self) -> Seq<bool> {
        Seq::new(self.cells() as nat, |i: int| self.dem@.in_last_column(i))
    }

    /// On a ramp routed by steepest descent every cell but those of the
    /// last column hands its water to its neighbour in the east.
    pub proof fn lemma_ramp_flows_east(&self, i: int)
        requires
            self.routed_by_descent(),
            self.dem@.is_ramp(),
            0 <= i < self.cells(),
        ensures
            self.flow_directions@[i] == self.dem@.ramp_direction(i),
            self.dem@.in_last_column(i) <==> self.downstream(i) is None,
            !self.dem@.in_last_column(i) ==> self.downstream(i) == Some(i + 1),
    {
        let t = self.dem@;
        lemma_ramp_choice(t, i);
        lemma_d8_choice_is_unique(t, i, self.flow_directions@[i], t.ramp_direction(i));
        lemma_ramp_fall(t, i, FlowDirection::East);
        lemma_cell_coordinates(t.width as int, t.height as int, i);
    }

    /// What the neighbours at the first `k` places around a cell of a ramp
    /// bring in: only the neighbour in the west, the fifth to be looked
    /// at, brings anything, and it brings one cell for every column west
    /// of the cell.
    proof fn lemma_ramp_inflow(&self, i: int, k: int)
        requires
            self.routed_by_descent(),
            self.dem@.is_ramp(),
            0 <= i < self.cells(),
            0 <= k <= 8,
        ensures
            self.inflow(i, k) == if k > 4 {
                self.dem@.col(i)
            } else {
                0
            },
        decreases self.dem@.col(i), k,
    {
        let t = self.dem@;
        let w = t.width as int;
        let h = t.height as int;
        lemma_cell_coordinates(w, h, i);
        if k > 0 {
            self.lemma_ramp_inflow(i, k - 1);
            let direction = FlowDirection::spec_from_octant(k - 1);
            lemma_ramp_fall(t, i, direction);
            if let Some(j) = t.neighbor(i, direction) {
                self.lemma_ramp_flows_east(j);
                lemma_cell_coordinates(w, h, j);
                lemma_ramp_fall(t, j, FlowDirection::East);
                assert(t.cells[i] is Some);
                assert(t.cells[j] is Some);
                if k - 1 == 4 {
                    assert(t.col(j) == t.col(i) - 1);
                    assert(t.elev(j) > t.elev(i));
                    assert(self.downstream(j) == Some(i));
                    assert(self.pours(j, i));
                    self.lemma_ramp_inflow(j, 8);
                    assert(self.source(i, k - 1) == Some(j));
                    assert(self.upstream(j) == t.col(j) + 1);
                } else {
                    if self.downstream(j) == Some(i) {
                        assert(t.col(i) == t.col(j) + 1);
                        assert(t.row(i) == t.row(j));
                        assert(direction.spec_offset() == (-1int, 0int));
                        assert(false);
                    }
                    assert(self.source(i, k - 1) is None);
                }
            } else {
                assert(self.source(i, k - 1) is None);
                if k - 1 == 4 {
                    assert(direction == FlowDirection::West);
                    assert(t.col(i) == 0);
                }
            }
        }
    }

    /// On a ramp routed by steepest descent the water of a cell and of all
    /// cells west of it in its row passes through the cell.
    pub proof fn lemma_ramp_upstream(&self, i: int)
        requires
            self.routed_by_descent(),
            self.dem@.is_ramp(),
            0 <= i < self.cells(),
        ensures
            self.upstream(i) == self.dem@.col(i) + 1,
    {
        self.lemma_ramp_inflow(i, 8);
    }

    /// Once the flow over a ramp has been routed by steepest descent and
    /// counted, a cell in column `x` holds `x + 1` cells, and the cells of
    /// the last column hold between them every cell of the grid.
    pub proof fn lemma_ramp_accumulation(&self)
        requires
            self.routed_by_descent(),
            self.accumulated(),
            self.dem@.is_ramp(),
        ensures
            forall|i: int|
                0 <= i < self.cells() ==> #[trigger] self.flow_accumulation@[i] == self.dem@.col(i)
                    + 1,
            sum_where(self.flow_accumulation@, self.last_column(), self.cells())
                == self.dem@.width * self.dem@.height,
    {
        assert forall|i: int| 0 <= i < self.cells() implies #[trigger] self.flow_accumulation@[i]
            == self.dem@.col(i) + 1 by {
            self.lemma_ramp_upstream(i);
        }
        assert forall|i: int| 0 <= i < self.cells() implies self.outlets()[i]
            == self.last_column()[i] by {
            self.lemma_ramp_flows_east(i);
        }
        assert(self.outlets() =~= self.last_column());
    }
}

} // verus!
