//! The elevation grid and its mathematical model.

use crate::direction::FlowDirection;
use vstd::prelude::*;

verus! {

/// Why an elevation grid was rejected.
#[derive(Debug)]
pub enum DemError {
    /// The raster is empty, has a zero cell size, or its sample buffer does
    /// not hold exactly `width * height` values.
    InvalidData(String),
    /// The grids to merge do not have the same cell size.
    MergeError(String),
}

/// The mathematical model of an elevation grid: its dimensions and, per
/// cell in row-major order, the elevation or `None` where there is no data.
pub struct Terrain {
    pub width: nat,
    pub height: nat,
    pub cells: Seq<Option<int>>,
}

impl Terrain {
    /// The grid is non-empty and holds one entry per cell.
    pub open spec fn wf(self) -> bool {
        &&& self.width > 0
        &&& self.height > 0
        &&& self.cells.len() == self.width * self.height
    }

    /// `i` is the index of a cell that carries an elevation.
    pub open spec fn valid(self, i: int) -> bool {
        0 <= i < self.cells.len() && self.cells[i] is Some
    }

    /// The elevation of cell `i`.
    pub open spec fn elev(self, i: int) -> int
        recommends
            self.valid(i),
    {
        self.cells[i]->Some_0
    }

    /// Column of cell `i`.
    pub open spec fn col(self, i: int) -> int {
        i % (self.width as int)
    }

    /// Row of cell `i`.
    pub open spec fn row(self, i: int) -> int {
        i / (self.width as int)
    }

    /// Cell `i` lies on the outer rim of the grid.
    pub open spec fn on_boundary(self, i: int) -> bool {
        ||| self.col(i) == 0
        ||| self.row(i) == 0
        ||| self.col(i) == self.width - 1
        ||| self.row(i) == self.height - 1
    }

    /// Cells `i` and `j` are distinct and touch by an edge or a corner.
    pub open spec fn adjacent(self, i: int, j: int) -> bool {
        &&& 0 <= i < self.cells.len()
        &&& 0 <= j < self.cells.len()
        &&& i != j
        &&& -1 <= self.col(i) - self.col(j) <= 1
        &&& -1 <= self.row(i) - self.row(j) <= 1
    }

    /// Column `x`, row `y` names a cell of the grid.
    pub open spec fn in_grid(self, x: int, y: int) -> bool {
        0 <= x < self.width && 0 <= y < self.height
    }

    /// The row-major index of column `x`, row `y`.
    pub open spec fn index(self, x: int, y: int) -> int {
        y * self.width + x
    }

    /// The cell next to cell `i` in `direction`, where the grid has one.
    pub open spec fn neighbor(self, i: int, direction: FlowDirection) -> Option<int> {
        let nx = self.col(i) + direction.spec_offset().0;
        let ny = self.row(i) + direction.spec_offset().1;
        if 0 <= i < self.cells.len() && direction != FlowDirection::NoFlow && self.in_grid(nx, ny) {
            Some(self.index(nx, ny))
        } else {
            None
        }
    }

    /// How far the ground falls from cell `i` to its neighbour in
    /// `direction`; 0 where it does not fall, or where either cell is
    /// missing or has no data.
    pub open spec fn fall(self, i: int, direction: FlowDirection) -> int {
        match self.neighbor(i, direction) {
            Some(j) => if self.valid(i) && self.valid(j) && self.elev(j) < self.elev(i) {
                self.elev(i) - self.elev(j)
            } else {
                0
            },
            None => 0,
        }
    }

    /// `other` has the same dimensions and the same cells without data.
    pub open spec fn same_shape(self, other: Terrain) -> bool {
        &&& self.width == other.width
        &&& self.height == other.height
        &&& self.cells.len() == other.cells.len()
        &&& forall|i: int|
            0 <= i < self.cells.len() ==> ((#[trigger] self.cells[i]) is Some <==> other.cells[i] is Some)
    }

    /// Same shape as `other`, and no cell lies lower than in `other`.
    pub open spec fn at_least(self, other: Terrain) -> bool {
        &&& self.same_shape(other)
        &&& forall|i: int| #[trigger] other.valid(i) ==> self.elev(i) >= other.elev(i)
    }

    /// `path` is a walk through cells with data, each step to a touching
    /// cell, that ends on the rim of the grid.
    pub open spec fn connects(self, path: Seq<int>) -> bool {
        &&& path.len() > 0
        &&& forall|k: int| 0 <= k < path.len() ==> self.valid(#[trigger] path[k])
        &&& forall|k: int|
            0 <= k < path.len() - 1 ==> self.adjacent(#[trigger] path[k], path[k + 1])
        &&& self.on_boundary(path.last())
    }

    /// `path` connects to the rim and never steps upward.
    pub open spec fn descends(self, path: Seq<int>) -> bool {
        &&& self.connects(path)
        &&& forall|k: int|
            0 <= k < path.len() - 1 ==> self.elev(path[k + 1]) <= self.elev(#[trigger] path[k])
    }

    /// Some walk through cells with data leads from cell `i` to the rim.
    pub open spec fn reachable(self, i: int) -> bool {
        exists|path: Seq<int>| self.connects(path) && path[0] == i
    }

    /// Some walk leads from cell `i` to the rim without ever stepping
    /// upward.
    pub open spec fn drains(self, i: int) -> bool {
        exists|path: Seq<int>| self.descends(path) && path[0] == i
    }

    /// `self` is `before` with its sinks filled: nothing was lowered, every
    /// cell that can reach the rim now drains to it, cells cut off from the
    /// rim are untouched, and no terrain above `before` in which a cell
    /// drains has that cell lower than here.
    pub open spec fn is_fill_of(self, before: Terrain) -> bool {
        &&& self.at_least(before)
        &&& forall|i: int| before.valid(i) && #[trigger] before.reachable(i) ==> self.drains(i)
        &&& forall|i: int|
            before.valid(i) && !(#[trigger] before.reachable(i)) ==> self.elev(i) == before.elev(i)
        &&& forall|h: Terrain, i: int|
            h.at_least(before) && #[trigger] h.drains(i) ==> h.elev(i) >= self.elev(i)
    }
}

/// Two grids of the same size, cell size and marker that hold the same
/// samples.
pub open spec fn same_grid(a: DigitalElevationModel, b: DigitalElevationModel) -> bool {
    &&& a.width == b.width
    &&& a.height == b.height
    &&& a.resolution == b.resolution
    &&& a.no_data_value == b.no_data_value
    &&& a.data@ == b.data@
}

/// A raster of integer elevation samples in row-major order.
///
/// Elevations are fixed-point heights in a unit of the caller's choice;
/// `resolution` is the cell size in the caller's horizontal unit. A sample
/// equal to `no_data_value` marks a cell without data.
#[derive(Clone, Debug)]
pub struct DigitalElevationModel {
    pub width: usize,
    pub height: usize,
    pub resolution: u32,
    pub data: Vec<i32>,
    pub no_data_value: Option<i32>,
}

impl View for DigitalElevationModel {
    type V = Terrain;

    open spec fn view(&self) -> Terrain {
        Terrain {
            width: self.width as nat,
            height: self.height as nat,
            cells: Seq::new(
                self.data@.len(),
                |i: int|
                    if self.no_data_value == Some(self.data@[i]) {
                        None
                    } else {
                        Some(self.data@[i] as int)
                    },
            ),
        }
    }
}

impl DigitalElevationModel {
    /// The grid is non-empty, has a positive cell size and one sample per
    /// cell.
    pub open spec fn wf(&self) -> bool {
        &&& self.width > 0
        &&& self.height > 0
        &&& self.resolution > 0
        &&& self.width * self.height <= usize::MAX
        &&& self.data@.len() == self.width * self.height
    }

    /// The inputs from which a grid can be built.
    pub open spec fn acceptable(width: usize, height: usize, resolution: u32, len: nat) -> bool {
        &&& width > 0
        &&& height > 0
        &&& resolution > 0
        &&& len == width * height
    }

    /// Builds a grid from raw samples. Fails on an empty grid, a zero cell
    /// size, or a buffer whose length is not `width * height`.
    pub fn new(
        width: usize,
        height: usize,
        resolution: u32,
        data: Vec<i32>,
        no_data_value: Option<i32>,
    ) -> (r: Result<Self, DemError>)
        ensures
            Self::acceptable(width, height, resolution, data@.len()) <==> r is Ok,
            r matches Ok(dem) ==> {
                &&& dem.wf()
                &&& dem.width == width
                &&& dem.height == height
                &&& dem.resolution == resolution
                &&& dem.data@ == data@
                &&& dem.no_data_value == no_data_value
            },
            r matches Err(e) ==> e is InvalidData,
    {
        if width == 0 || height == 0 {
            return Err(DemError::InvalidData("the grid has no cells".to_string()));
        }
        if resolution == 0 {
            return Err(DemError::InvalidData("the cell size is zero".to_string()));
        }
        let cells: Option<usize> = width.checked_mul(height);
        if cells == Some(data.len()) {
            Ok(DigitalElevationModel { width, height, resolution, data, no_data_value })
        } else {
            Err(DemError::InvalidData("the sample buffer does not match the grid".to_string()))
        }
    }

    /// Number of columns.
    pub fn width(&self) -> (w: usize)
        ensures
            w == self.width,
    {
        self.width
    }

    /// Number of rows.
    pub fn height(&self) -> (h: usize)
        ensures
            h == self.height,
    {
        self.height
    }

    /// The elevation at column `x`, row `y`; `None` outside the grid and
    /// where the cell has no data.
    pub fn get_elevation(&self, x: usize, y: usize) -> (r: Option<i32>)
        requires
            self.wf(),
        ensures
            r == self.spec_elevation(x as int, y as int),
    {
        if x < self.width && y < self.height {
            proof {
                lemma_index_in_range(self.width as int, self.height as int, x as int, y as int);
            }
            let value: i32 = self.data[y * self.width + x];
            if self.no_data_value == Some(value) {
                None
            } else {
                Some(value)
            }
        } else {
            None
        }
    }

    /// `(nx, ny)` is a cell with data that touches `(x, y)` by an edge or a
    /// corner.
    pub open spec fn is_neighbor(&self, x: int, y: int, nx: int, ny: int) -> bool {
        &&& self.spec_elevation(nx, ny) is Some
        &&& (nx != x || ny != y)
        &&& -1 <= nx - x <= 1
        &&& -1 <= ny - y <= 1
    }

    /// The cells with data that touch `(x, y)`, row by row from the top and
    /// within a row from the left.
    pub fn get_neighbors(&self, x: usize, y: usize) -> (r: Vec<(usize, usize)>)
        requires
            self.wf(),
        ensures
            forall|k: int|
                0 <= k < r@.len() ==> self.is_neighbor(
                    x as int,
                    y as int,
                    (#[trigger] r@[k]).0 as int,
                    r@[k].1 as int,
                ),
            forall|nx: int, ny: int|
                self.is_neighbor(x as int, y as int, nx, ny) ==> exists|k: int|
                    0 <= k < r@.len() && #[trigger] r@[k] == (nx as usize, ny as usize),
            forall|a: int, b: int|
                0 <= a < b < r@.len() ==> scans_before(#[trigger] r@[a], #[trigger] r@[b]),
    {
        let mut neighbors: Vec<(usize, usize)> = Vec::new();
        let mut dy: usize = 0;
        while dy < 3
            invariant
                self.wf(),
                dy <= 3,
                forall|k: int|
                    0 <= k < neighbors@.len() ==> self.is_neighbor(
                        x as int,
                        y as int,
                        (#[trigger] neighbors@[k]).0 as int,
                        neighbors@[k].1 as int,
                    ) && neighbors@[k].1 - y + 1 < dy,
                forall|nx: int, ny: int|
                    self.is_neighbor(x as int, y as int, nx, ny) && ny - y + 1 < dy ==> exists|
                        k: int,
                    |
                        0 <= k < neighbors@.len() && #[trigger] neighbors@[k] == (
                            nx as usize,
                            ny as usize,
                        ),
                forall|a: int, b: int|
                    0 <= a < b < neighbors@.len() ==> scans_before(
                        #[trigger] neighbors@[a],
                        #[trigger] neighbors@[b],
                    ),
            decreases 3 - dy,
        {
            let mut dx: usize = 0;
            while dx < 3
                invariant
                    self.wf(),
                    dy < 3,
                    dx <= 3,
                    forall|k: int|
                        0 <= k < neighbors@.len() ==> self.is_neighbor(
                            x as int,
                            y as int,
                            (#[trigger] neighbors@[k]).0 as int,
                            neighbors@[k].1 as int,
                        ) && (neighbors@[k].1 - y + 1 < dy || (neighbors@[k].1 - y + 1 == dy
                            && neighbors@[k].0 - x + 1 < dx)),
                    forall|nx: int, ny: int|
                        self.is_neighbor(x as int, y as int, nx, ny) && (ny - y + 1 < dy || (ny - y
                            + 1 == dy && nx - x + 1 < dx)) ==> exists|k: int|
                            0 <= k < neighbors@.len() && #[trigger] neighbors@[k] == (
                                nx as usize,
                                ny as usize,
                            ),
                    forall|a: int, b: int|
                        0 <= a < b < neighbors@.len() ==> scans_before(
                            #[trigger] neighbors@[a],
                            #[trigger] neighbors@[b],
                        ),
                decreases 3 - dx,
            {
                let ghost earlier = neighbors@;
                let mut found: bool = false;
                if dx != 1 || dy != 1 {
                    let nx: Option<usize> = shifted(x, dx);
                    let ny: Option<usize> = shifted(y, dy);
                    if nx.is_some() && ny.is_some() {
                        if self.get_elevation(nx.unwrap(), ny.unwrap()).is_some() {
                            neighbors.push((nx.unwrap(), ny.unwrap()));
                            found = true;
                        }
                    }
                }
                proof {
                    assert forall|nx: int, ny: int|
                        self.is_neighbor(x as int, y as int, nx, ny) && (ny - y + 1 < dy || (ny
                            - y + 1 == dy && nx - x + 1 < dx + 1)) implies exists|k: int|
                        0 <= k < neighbors@.len() && #[trigger] neighbors@[k] == (
                            nx as usize,
                            ny as usize,
                        ) by {
                        if ny - y + 1 == dy && nx - x + 1 == dx {
                            assert(found);
                            assert(neighbors@[earlier.len() as int] == (nx as usize, ny as usize));
                        } else {
                            let k = choose|k: int|
                                0 <= k < earlier.len() && #[trigger] earlier[k] == (
                                    nx as usize,
                                    ny as usize,
                                );
                            assert(neighbors@[k] == earlier[k]);
                        }
                    }
                }
                dx += 1;
            }
            dy += 1;
        }
        neighbors
    }

    /// The cell next to `(x, y)` in `direction`, where the grid has one.
    pub fn neighbor(&self, x: usize, y: usize, direction: FlowDirection) -> (r: Option<
        (usize, usize),
    >)
        ensures
            r == if direction != FlowDirection::NoFlow && self@.in_grid(
                x + direction.spec_offset().0,
                y + direction.spec_offset().1,
            ) {
                Some(
                    (
                        (x + direction.spec_offset().0) as usize,
                        (y + direction.spec_offset().1) as usize,
                    ),
                )
            } else {
                None
            },
    {
        let (dx, dy) = direction.get_offset();
        if dx == 0 && dy == 0 {
            return None;
        }
        let nx: Option<usize> = shifted(x, if dx < 0 { 0 } else if dx == 0 { 1 } else { 2 });
        let ny: Option<usize> = shifted(y, if dy < 0 { 0 } else if dy == 0 { 1 } else { 2 });
        if nx.is_some() && ny.is_some() && nx.unwrap() < self.width && ny.unwrap() < self.height {
            Some((nx.unwrap(), ny.unwrap()))
        } else {
            None
        }
    }

    /// Whether the grid is well formed.
    pub fn is_well_formed(&self) -> (r: bool)
        ensures
            r == self.wf(),
    {
        if self.width == 0 || self.height == 0 || self.resolution == 0 {
            return false;
        }
        let cells: Option<usize> = self.width.checked_mul(self.height);
        cells == Some(self.data.len())
    }

    /// A copy of the grid.
    pub fn duplicate(&self) -> (r: Self)
        ensures
            same_grid(r, *self),
    {
        DigitalElevationModel {
            width: self.width,
            height: self.height,
            resolution: self.resolution,
            data: self.copy_samples(),
            no_data_value: self.no_data_value,
        }
    }

    /// A copy of the samples.
    fn copy_samples(&self) -> (r: Vec<i32>)
        ensures
            r@ == self.data@,
    {
        let mut r: Vec<i32> = Vec::new();
        let mut k: usize = 0;
        while k < self.data.len()
            invariant
                k <= self.data@.len(),
                r@ == self.data@.subrange(0, k as int),
            decreases self.data@.len() - k,
        {
            r.push(self.data[k]);
            assert(r@ =~= self.data@.subrange(0, k as int + 1));
            k += 1;
        }
        assert(r@ =~= self.data@);
        r
    }

    /// The sample at `(x, y)` where the cell lies in the grid and has data.
    pub open spec fn spec_elevation(&self, x: int, y: int) -> Option<i32> {
        if 0 <= x < self.width && 0 <= y < self.height && self.no_data_value != Some(
            self.data@[y * self.width + x],
        ) {
            Some(self.data@[y * self.width + x])
        } else {
            None
        }
    }
}

/// Cell `a` comes before cell `b` when the grid is read row by row.
pub open spec fn scans_before(a: (usize, usize), b: (usize, usize)) -> bool {
    a.1 < b.1 || (a.1 == b.1 && a.0 < b.0)
}

/// `v + d - 1` where that is a `usize`.
fn shifted(v: usize, d: usize) -> (r: Option<usize>)
    requires
        d <= 2,
    ensures
        r == if 0 <= v + d - 1 <= usize::MAX {
            Some((v + d - 1) as usize)
        } else {
            None
        },
{
    if d == 0 {
        if v == 0 {
            None
        } else {
            Some(v - 1)
        }
    } else if d == 1 {
        Some(v)
    } else if v == usize::MAX {
        None
    } else {
        Some(v + 1)
    }
}

/// A row-major index built from in-range coordinates lies in the grid.
pub proof fn lemma_index_in_range(width: int, height: int, x: int, y: int)
    requires
        0 <= x < width,
        0 <= y < height,
    ensures
        0 <= y * width + x < width * height,
        (y * width + x) % width == x,
        (y * width + x) / width == y,
{
    assert(y * width + x < width * height) by (nonlinear_arith)
        requires
            0 <= x < width,
            0 <= y < height,
    {
        assert((y + 1) * width <= height * width);
    }
    assert(0 <= y * width) by (nonlinear_arith)
        requires
            0 <= y,
            0 < width,
    ;
    vstd::arithmetic::div_mod::lemma_fundamental_div_mod_converse(y * width + x, width, y, x);
}

/// The column and row of a cell lie in the grid and give back its index.
pub proof fn lemma_cell_coordinates(width: int, height: int, i: int)
    requires
        width > 0,
        0 <= i < width * height,
    ensures
        0 <= i % width < width,
        0 <= i / width < height,
        (i / width) * width + i % width == i,
{
    vstd::arithmetic::div_mod::lemma_fundamental_div_mod(i, width);
    vstd::arithmetic::div_mod::lemma_mod_bound(i, width);
    assert(0 <= i / width < height) by (nonlinear_arith)
        requires
            width > 0,
            0 <= i < width * height,
            i == width * (i / width) + i % width,
            0 <= i % width < width,
    ;
    assert((i / width) * width == width * (i / width)) by (nonlinear_arith);
}

} // verus!
