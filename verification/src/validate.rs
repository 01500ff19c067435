//! Checking a flow model that was put together by hand.

use crate::dem::lemma_cell_coordinates;
use crate::direction::FlowDirection;
use crate::flow::{shares_sum, FlowModel, FULL_TURN, UNIT};
use vstd::prelude::*;

verus! {

impl FlowModel {
    /// Whether the model is well formed.
    pub fn is_well_formed(&self) -> (r: bool)
        ensures
            r == self.wf(),
    {
        if !self.dem.is_well_formed() {
            return false;
        }
        let n: usize = self.dem.data.len();
        if self.flow_directions.len() != n || self.flow_accumulation.len() != n
            || self.slopes.len() != n {
            return false;
        }
        if !self.directions_fall() {
            return false;
        }
        match &self.dinf_flow_angles {
            Some(angles) => {
                if angles.len() != n || !Self::within_a_turn(angles) {
                    return false;
                }
            },
            None => {},
        }
        match &self.dinf_flow_proportions {
            Some(table) => {
                if !self.rows_hold(table) {
                    return false;
                }
            },
            None => {},
        }
        match &self.mfd_flow_proportions {
            Some(table) => {
                if !self.rows_hold(table) {
                    return false;
                }
            },
            None => {},
        }
        true
    }

    /// Whether every angle is less than a full turn.
    fn within_a_turn(angles: &Vec<u32>) -> (r: bool)
        ensures
            r == (forall|i: int| 0 <= i < angles@.len() ==> #[trigger] angles@[i] < FULL_TURN),
    {
        let mut idx: usize = 0;
        while idx < angles.len()
            invariant
                idx <= angles@.len(),
                forall|i: int| 0 <= i < idx ==> #[trigger] angles@[i] < FULL_TURN,
            decreases angles@.len() - idx,
        {
            if angles[idx] >= FULL_TURN {
                return false;
            }
            idx += 1;
        }
        true
    }

    /// Whether every stored direction is `NoFlow` or points to a strictly
    /// lower neighbour with data.
    fn directions_fall(&self) -> (r: bool)
        requires
            self.dem.wf(),
            self.flow_directions@.len() == self.cells(),
        ensures
            r == (forall|i: int|
                0 <= i < self.cells() ==> self.dem@.rests_or_falls(
                    i,
                    #[trigger] self.flow_directions@[i],
                )),
    {
        let n: usize = self.dem.data.len();
        let width: usize = self.dem.width;
        let height: usize = self.dem.height;
        let mut idx: usize = 0;
        while idx < n
            invariant
                self.dem.wf(),
                self.flow_directions@.len() == n,
                n == self.cells(),
                width == self.dem.width,
                height == self.dem.height,
                idx <= n,
                forall|i: int|
                    0 <= i < idx ==> self.dem@.rests_or_falls(i, #[trigger] self.flow_directions@[i]),
            decreases n - idx,
        {
            let x: usize = idx % width;
            let y: usize = idx / width;
            proof {
                lemma_cell_coordinates(width as int, height as int, idx as int);
            }
            let direction: FlowDirection = self.flow_directions[idx];
            if direction != FlowDirection::NoFlow && !self.falls_toward(x, y, direction) {
                assert(!self.dem@.rests_or_falls(idx as int, self.flow_directions@[idx as int]));
                return false;
            }
            idx += 1;
        }
        true
    }

    /// Whether the table holds, for every cell, eight shares that the cell
    /// can give: a whole at most, among its lower neighbours.
    fn rows_hold(&self, table: &Vec<Vec<u32>>) -> (r: bool)
        requires
            self.dem.wf(),
        ensures
            r == (table@.len() == self.cells() && forall|i: int|
                0 <= i < self.cells() ==> self.dem@.gives_downhill(i, (#[trigger] table@[i])@)),
    {
        let n: usize = self.dem.data.len();
        let width: usize = self.dem.width;
        let height: usize = self.dem.height;
        if table.len() != n {
            return false;
        }
        let mut idx: usize = 0;
        while idx < n
            invariant
                self.dem.wf(),
                table@.len() == n,
                n == self.cells(),
                width == self.dem.width,
                height == self.dem.height,
                idx <= n,
                forall|i: int|
                    0 <= i < idx ==> self.dem@.gives_downhill(i, (#[trigger] table@[i])@),
            decreases n - idx,
        {
            let x: usize = idx % width;
            let y: usize = idx / width;
            proof {
                lemma_cell_coordinates(width as int, height as int, idx as int);
            }
            if !self.row_gives_downhill(x, y, &table[idx]) {
                return false;
            }
            idx += 1;
        }
        true
    }

    /// Whether the shares are eight, add up to `UNIT` at most, and go to
    /// strictly lower neighbours of `(x, y)` with data only.
    fn row_gives_downhill(&self, x: usize, y: usize, row: &Vec<u32>) -> (r: bool)
        requires
            self.dem.wf(),
            x < self.dem.width,
            y < self.dem.height,
        ensures
            r == self.dem@.gives_downhill(self.dem@.index(x as int, y as int), row@),
    {
        let ghost i = self.dem@.index(x as int, y as int);
        if row.len() != 8 {
            return false;
        }
        let mut total: u64 = 0;
        let mut k: usize = 0;
        while k < 8
            invariant
                self.dem.wf(),
                x < self.dem.width,
                y < self.dem.height,
                i == self.dem@.index(x as int, y as int),
                row@.len() == 8,
                k <= 8,
                total == shares_sum(row@, k as int),
                total <= k * u32::MAX,
                forall|j: int|
                    0 <= j < k && #[trigger] row@[j] > 0 ==> self.dem@.fall(
                        i,
                        FlowDirection::spec_from_octant(j),
                    ) > 0,
            decreases 8 - k,
        {
            if row[k] > 0 && !self.falls_toward(x, y, FlowDirection::from_octant(k)) {
                return false;
            }
            total = total + row[k] as u64;
            k += 1;
        }
        total <= UNIT as u64
    }
}

} // verus!
