//! Joining several grids into one.

use crate::dem::{lemma_index_in_range, DemError, DigitalElevationModel};
use crate::flow::filled;
use vstd::prelude::*;

verus! {

/// A grid and the place in the merged grid at which its first cell lies.
pub struct Tile {
    pub dem: DigitalElevationModel,
    pub column: usize,
    pub row: usize,
}

impl Tile {
    /// The sample that this tile has for column `x`, row `y` of the merged
    /// grid; `None` where the tile does not reach or has no data.
    pub open spec fn covers(&self, x: int, y: int) -> Option<i32> {
        if self.column <= x && self.row <= y {
            self.dem.spec_elevation(x - self.column, y - self.row)
        } else {
            None
        }
    }
}

/// The sample at column `x`, row `y` once the first `k` tiles have been
/// laid down: that of the last of them which has data there, and `marker`
/// where none has.
pub open spec fn pasted(tiles: Seq<Tile>, marker: i32, x: int, y: int, k: int) -> i32
    decreases k,
{
    if k <= 0 {
        marker
    } else {
        match tiles[k - 1].covers(x, y) {
            Some(elevation) => elevation,
            None => pasted(tiles, marker, x, y, k - 1),
        }
    }
}

/// The cell sizes of the first `k` tiles differ from that of the first
/// tile by `tolerance` at most.
pub open spec fn like_sized(tiles: Seq<Tile>, tolerance: u32, k: int) -> bool {
    forall|j: int|
        0 <= j < k ==> -(tolerance as int) <= (#[trigger] tiles[j]).dem.resolution
            - tiles[0].dem.resolution <= tolerance
}

/// The first `k` tiles are well formed.
pub open spec fn all_wf(tiles: Seq<Tile>, k: int) -> bool {
    forall|j: int| 0 <= j < k ==> (#[trigger] tiles[j]).dem.wf()
}

/// There is something to merge, and a grid to merge it into.
pub open spec fn mergeable(tiles: Seq<Tile>, width: usize, height: usize) -> bool {
    &&& tiles.len() > 0
    &&& all_wf(tiles, tiles.len() as int)
    &&& width > 0
    &&& height > 0
    &&& width * height <= usize::MAX
}

/// The sample of the merged grid at column `x`, row `y`.
spec fn cell(data: Seq<i32>, width: int, x: int, y: int) -> i32 {
    data[y * width + x]
}

/// The cell of the tile that lands on column `x`, row `y` comes before
/// the cell at column `sx`, row `sy` of the tile.
spec fn laid(tile: Tile, x: int, y: int, sx: int, sy: int) -> bool {
    &&& tile.column <= x < tile.column + tile.dem.width
    &&& tile.row <= y < tile.row + tile.dem.height
    &&& (y - tile.row < sy || (y - tile.row == sy && x - tile.column < sx))
}

impl DigitalElevationModel {
    /// Merges the tiles into one grid of `width` by `height` cells. The
    /// tiles are laid down in their order, each at its place; where tiles
    /// overlap, the later one wins wherever it has data. What lies outside
    /// the merged grid is left out. Cells that no tile fills hold
    /// `no_data_value`, which marks the cells without data of the merged
    /// grid. The merged grid has the cell size of the first tile.
    ///
    /// Fails where there is no tile, a tile is not well formed, or the
    /// merged grid would be empty or too large; and where the cell size of
    /// a tile differs from that of the first by more than `tolerance`.
    pub fn from_multiple_geotiffs(
        tiles: &Vec<Tile>,
        width: usize,
        height: usize,
        no_data_value: i32,
        tolerance: u32,
    ) -> (r: Result<Self, DemError>)
        ensures
            r is Ok <==> mergeable(tiles@, width, height) && like_sized(
                tiles@,
                tolerance,
                tiles@.len() as int,
            ),
            r matches Err(e) ==> (e is InvalidData <==> !mergeable(tiles@, width, height)),
            r matches Err(e) ==> (e is MergeError <==> mergeable(tiles@, width, height)),
            r matches Ok(merged) ==> {
                &&& merged.wf()
                &&& merged.width == width
                &&& merged.height == height
                &&& merged.resolution == tiles@[0].dem.resolution
                &&& merged.no_data_value == Some(no_data_value)
                &&& forall|x: int, y: int|
                    0 <= x < width && 0 <= y < height ==> #[trigger] merged.data@[y * width + x]
                        == pasted(tiles@, no_data_value, x, y, tiles@.len() as int)
            },
    {
        if tiles.len() == 0 {
            return Err(DemError::InvalidData("no grids to merge".to_string()));
        }
        let mut k: usize = 0;
        while k < tiles.len()
            invariant
                k <= tiles@.len(),
                all_wf(tiles@, k as int),
            decreases tiles@.len() - k,
        {
            if !tiles[k].dem.is_well_formed() {
                return Err(DemError::InvalidData("a grid to merge is malformed".to_string()));
            }
            k += 1;
        }
        if width == 0 || height == 0 {
            return Err(DemError::InvalidData("the merged grid has no cells".to_string()));
        }
        let cells: usize = match width.checked_mul(height) {
            Some(cells) => cells,
            None => {
                return Err(DemError::InvalidData("the merged grid is too large".to_string()));
            },
        };
        let resolution: u32 = tiles[0].dem.resolution;
        k = 0;
        while k < tiles.len()
            invariant
                k <= tiles@.len(),
                tiles@.len() > 0,
                mergeable(tiles@, width, height),
                resolution == tiles@[0].dem.resolution,
                like_sized(tiles@, tolerance, k as int),
            decreases tiles@.len() - k,
        {
            let other: u32 = tiles[k].dem.resolution;
            let apart: u32 = if other > resolution {
                other - resolution
            } else {
                resolution - other
            };
            if apart > tolerance {
                return Err(DemError::MergeError("the cell sizes of the grids differ".to_string()));
            }
            k += 1;
        }
        let mut merged_data: Vec<i32> = filled(no_data_value, cells);
        proof {
            assert forall|x: int, y: int| 0 <= x < width && 0 <= y < height implies #[trigger] cell(
                merged_data@,
                width as int,
                x,
                y,
            ) == pasted(tiles@, no_data_value, x, y, 0) by {
                lemma_index_in_range(width as int, height as int, x, y);
            }
        }
        k = 0;
        while k < tiles.len()
            invariant
                k <= tiles@.len(),
                all_wf(tiles@, tiles@.len() as int),
                width > 0,
                height > 0,
                cells == width * height,
                merged_data@.len() == cells,
                forall|x: int, y: int|
                    0 <= x < width && 0 <= y < height ==> #[trigger] cell(
                        merged_data@,
                        width as int,
                        x,
                        y,
                    ) == pasted(tiles@, no_data_value, x, y, k as int),
            decreases tiles@.len() - k,
        {
            let tile: &Tile = &tiles[k];
            assert(tile.dem.wf());
            let mut sy: usize = 0;
            while sy < tile.dem.height
                invariant
                    k < tiles@.len(),
                    *tile == tiles@[k as int],
                    tile.dem.wf(),
                    width > 0,
                    height > 0,
                    cells == width * height,
                    merged_data@.len() == cells,
                    sy <= tile.dem.height,
                    forall|x: int, y: int|
                        0 <= x < width && 0 <= y < height ==> #[trigger] cell(
                            merged_data@,
                            width as int,
                            x,
                            y,
                        ) == if laid(*tile, x, y, 0, sy as int) {
                            pasted(tiles@, no_data_value, x, y, k as int + 1)
                        } else {
                            pasted(tiles@, no_data_value, x, y, k as int)
                        },
                decreases tile.dem.height - sy,
            {
                let mut sx: usize = 0;
                while sx < tile.dem.width
                    invariant
                        k < tiles@.len(),
                        *tile == tiles@[k as int],
                        tile.dem.wf(),
                        width > 0,
                        height > 0,
                        cells == width * height,
                        merged_data@.len() == cells,
                        sy < tile.dem.height,
                        sx <= tile.dem.width,
                        forall|x: int, y: int|
                            0 <= x < width && 0 <= y < height ==> #[trigger] cell(
                                merged_data@,
                                width as int,
                                x,
                                y,
                            ) == if laid(*tile, x, y, sx as int, sy as int) {
                                pasted(tiles@, no_data_value, x, y, k as int + 1)
                            } else {
                                pasted(tiles@, no_data_value, x, y, k as int)
                            },
                    decreases tile.dem.width - sx,
                {
                    let ghost before = merged_data@;
                    let tx: Option<usize> = tile.column.checked_add(sx);
                    let ty: Option<usize> = tile.row.checked_add(sy);
                    if tx.is_some() && ty.is_some() && tx.unwrap() < width && ty.unwrap() < height {
                        if let Some(elevation) = tile.dem.get_elevation(sx, sy) {
                            proof {
                                lemma_index_in_range(
                                    width as int,
                                    height as int,
                                    tx.unwrap() as int,
                                    ty.unwrap() as int,
                                );
                            }
                            merged_data.set(ty.unwrap() * width + tx.unwrap(), elevation);
                        }
                    }
                    proof {
                        assert forall|x: int, y: int|
                            0 <= x < width && 0 <= y < height implies #[trigger] cell(
                            merged_data@,
                            width as int,
                            x,
                            y,
                        ) == if laid(*tile, x, y, sx as int + 1, sy as int) {
                            pasted(tiles@, no_data_value, x, y, k as int + 1)
                        } else {
                            pasted(tiles@, no_data_value, x, y, k as int)
                        } by {
                            lemma_index_in_range(width as int, height as int, x, y);
                            if x == tile.column + sx && y == tile.row + sy {
                            } else {
                                if tx.is_some() && ty.is_some() && tx.unwrap() < width
                                    && ty.unwrap() < height {
                                    lemma_index_in_range(
                                        width as int,
                                        height as int,
                                        tx.unwrap() as int,
                                        ty.unwrap() as int,
                                    );
                                }
                                assert(cell(before, width as int, x, y) == cell(
                                    merged_data@,
                                    width as int,
                                    x,
                                    y,
                                ));
                            }
                        }
                    }
                    sx += 1;
                }
                proof {
                    assert forall|x: int, y: int|
                        0 <= x < width && 0 <= y < height implies laid(
                        *tile,
                        x,
                        y,
                        tile.dem.width as int,
                        sy as int,
                    ) == laid(*tile, x, y, 0, sy as int + 1) by {}
                }
                sy += 1;
            }
            proof {
                assert forall|x: int, y: int|
                    0 <= x < width && 0 <= y < height implies #[trigger] cell(
                    merged_data@,
                    width as int,
                    x,
                    y,
                ) == pasted(tiles@, no_data_value, x, y, k as int + 1) by {
                    if !laid(*tile, x, y, 0, tile.dem.height as int) {
                        assert(tile.covers(x, y) is None);
                    }
                }
            }
            k += 1;
        }
        proof {
            assert forall|x: int, y: int|
                0 <= x < width && 0 <= y < height implies #[trigger] merged_data@[y * width + x]
                == pasted(tiles@, no_data_value, x, y, tiles@.len() as int) by {
                lemma_index_in_range(width as int, height as int, x, y);
                assert(cell(merged_data@, width as int, x, y) == merged_data@[y * width + x]);
            }
        }
        Ok(
            DigitalElevationModel {
                width,
                height,
                resolution,
                data: merged_data,
                no_data_value: Some(no_data_value),
            },
        )
    }
}

} // verus!
