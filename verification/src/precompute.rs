//! Everything that is worked out once for a catchment and then kept.

use crate::dem::{lemma_cell_coordinates, lemma_index_in_range, DigitalElevationModel};
use crate::direction::{codes, codes_of, FlowDirection};
use crate::flow::{copy_of, FlowModel, Slope};
use crate::model::ModelError;
use crate::sorting::{is_ranked, ranked_indices};
use crate::streams::portion;
use crate::visualization::{are_spawn_points, generate_visualization_data};
use vstd::prelude::*;

verus! {

/// The analysis of one catchment.
pub struct PrecomputedCatchment {
    /// The name of the catchment.
    pub id: String,
    pub metadata: CatchmentMetadata,
    pub terrain: TerrainData,
    pub flow: FlowData,
    pub streams: StreamNetworks,
    pub water_viz: WaterVisualizationData,
}

/// The size of a catchment's grid and when it was analysed.
pub struct CatchmentMetadata {
    pub width: usize,
    pub height: usize,
    pub resolution: u32,
    /// The lowest and the highest elevation that is not negative.
    pub elevation_range: (i32, i32),
    pub processing_timestamp: String,
}

/// The terrain thinned out for drawing.
pub struct TerrainData {
    /// The elevations at the corners of the mesh, row by row.
    pub elevation_data: Vec<i32>,
    pub mesh_width: usize,
    pub mesh_height: usize,
    /// How many cells of the grid one cell of the mesh spans.
    pub skip_factor: usize,
}

/// The flow of a catchment.
pub struct FlowData {
    /// The code of each cell's flow direction.
    pub flow_directions: Vec<u8>,
    pub flow_accumulation: Vec<u64>,
    pub slopes: Vec<Slope>,
    /// The ten largest outlets: column, row and accumulation.
    pub outlets: Vec<(usize, usize, u64)>,
}

/// The stream lines of a catchment at three levels of detail.
pub struct StreamNetworks {
    /// Streams that carry a hundredth of the largest accumulation.
    pub detailed: Vec<Vec<(usize, usize)>>,
    /// Streams that carry a twentieth of the largest accumulation.
    pub medium: Vec<Vec<(usize, usize)>>,
    /// Streams that carry a tenth of the largest accumulation.
    pub major: Vec<Vec<(usize, usize)>>,
}

/// What a renderer needs to draw the water of a catchment.
pub struct WaterVisualizationData {
    pub flow_accumulation: Vec<u64>,
    pub slopes: Vec<Slope>,
    pub spawn_points: Vec<(usize, usize)>,
}

/// The lowest among the first `upto` elevations that are not negative;
/// `i32::MAX` where there is none.
pub open spec fn lowest(elevations: Seq<i32>, upto: int) -> i32
    decreases upto,
{
    if upto <= 0 {
        i32::MAX
    } else if 0 <= elevations[upto - 1] < lowest(elevations, upto - 1) {
        elevations[upto - 1]
    } else {
        lowest(elevations, upto - 1)
    }
}

/// The highest among the first `upto` elevations that are not negative;
/// `i32::MIN` where there is none.
pub open spec fn highest(elevations: Seq<i32>, upto: int) -> i32
    decreases upto,
{
    if upto <= 0 {
        i32::MIN
    } else if elevations[upto - 1] >= 0 && elevations[upto - 1] > highest(elevations, upto - 1) {
        elevations[upto - 1]
    } else {
        highest(elevations, upto - 1)
    }
}

/// No elevation that is not negative lies outside the range from the
/// lowest to the highest, and where there is one, both bounds are among
/// the elevations.
pub proof fn lemma_elevation_range(elevations: Seq<i32>, upto: int)
    requires
        0 <= upto <= elevations.len(),
    ensures
        forall|i: int|
            0 <= i < upto && elevations[i] >= 0 ==> lowest(elevations, upto) <= elevations[i]
                <= highest(elevations, upto),
        (exists|i: int| 0 <= i < upto && elevations[i] >= 0) ==> (exists|i: int|
            0 <= i < upto && elevations[i] == lowest(elevations, upto)) && (exists|i: int|
            0 <= i < upto && elevations[i] == highest(elevations, upto)),
        (forall|i: int| 0 <= i < upto ==> elevations[i] < 0) ==> lowest(elevations, upto)
            == i32::MAX && highest(elevations, upto) == i32::MIN,
    decreases upto,
{
    if upto > 0 {
        lemma_elevation_range(elevations, upto - 1);
        let last = elevations[upto - 1];
        if exists|i: int| 0 <= i < upto && elevations[i] >= 0 {
            if exists|i: int| 0 <= i < upto - 1 && elevations[i] >= 0 {
                let a = choose|i: int|
                    0 <= i < upto - 1 && elevations[i] == lowest(elevations, upto - 1);
                let b = choose|i: int|
                    0 <= i < upto - 1 && elevations[i] == highest(elevations, upto - 1);
                if 0 <= last < lowest(elevations, upto - 1) {
                    assert(elevations[upto - 1] == lowest(elevations, upto));
                } else {
                    assert(elevations[a] == lowest(elevations, upto));
                }
                if last >= 0 && last > highest(elevations, upto - 1) {
                    assert(elevations[upto - 1] == highest(elevations, upto));
                } else {
                    assert(elevations[b] == highest(elevations, upto));
                }
            } else {
                assert(last >= 0);
                assert(elevations[upto - 1] == lowest(elevations, upto));
                assert(elevations[upto - 1] == highest(elevations, upto));
            }
        }
    }
}

/// How many cells of the grid one cell of the mesh spans, so that the mesh
/// has about 2048 corners a side at most.
pub open spec fn spec_skip_factor(width: int, height: int) -> int {
    if width > 2048 || height > 2048 {
        let longer = if width > height {
            width
        } else {
            height
        };
        let skip = (longer + 2047) / 2048;
        if skip > 3 {
            skip * 3 / 4
        } else {
            skip
        }
    } else {
        1
    }
}

/// The lesser of two numbers.
pub open spec fn lesser(a: int, b: int) -> int {
    if a < b {
        a
    } else {
        b
    }
}

/// How many cells of the grid one cell of the mesh spans.
fn skip_factor(width: usize, height: usize) -> (r: usize)
    requires
        width > 0,
        height > 0,
    ensures
        r == spec_skip_factor(width as int, height as int),
        r >= 1,
        width as int / r as int + 1 <= usize::MAX,
        height as int / r as int + 1 <= usize::MAX,
{
    if width > 2048 || height > 2048 {
        let longer: u128 = if width > height {
            width as u128
        } else {
            height as u128
        };
        let skip: u128 = (longer + 2047) / 2048;
        let thinned: u128 = if skip > 3 {
            skip * 3 / 4
        } else {
            skip
        };
        proof {
            assert(2 <= thinned <= skip);
            lemma_halved(width as int, thinned as int);
            lemma_halved(height as int, thinned as int);
        }
        thinned as usize
    } else {
        1
    }
}

impl FlowModel {
    /// This model is the analysis of `dem` by steepest descent: its grid is
    /// `dem` with the sinks filled, every cell is routed toward its
    /// steepest lower neighbour, and every cell's accumulation counts the
    /// cells that drain through it.
    pub open spec fn is_analysis_of(&self, dem: &DigitalElevationModel) -> bool {
        &&& self.analysed()
        &&& self.dem.width == dem.width
        &&& self.dem.height == dem.height
        &&& self.dem.resolution == dem.resolution
        &&& self.dem.no_data_value == dem.no_data_value
        &&& self.dem@.is_fill_of(dem@)
    }
}

impl PrecomputedCatchment {
    /// This record holds what is kept of the analysis `model`.
    pub open spec fn describes(&self, model: &FlowModel) -> bool {
        let most = model.largest(model.cells());
        &&& self.metadata.width == model.dem.width
        &&& self.metadata.height == model.dem.height
        &&& self.metadata.resolution == model.dem.resolution
        &&& self.metadata.elevation_range == (
            lowest(model.dem.data@, model.cells()),
            highest(model.dem.data@, model.cells()),
        )
        &&& Self::is_mesh_of(&self.terrain, &model.dem)
        &&& self.flow.flow_directions@ == codes_of(model.flow_directions@)
        &&& self.flow.flow_accumulation@ == model.flow_accumulation@
        &&& self.flow.slopes@ == model.slopes@
        &&& Self::are_outlets(model, self.flow.outlets@)
        &&& model.is_trace(self.streams.detailed@, portion(most, 10_000))
        &&& model.is_trace(self.streams.medium@, portion(most, 50_000))
        &&& model.is_trace(self.streams.major@, portion(most, 100_000))
        &&& self.water_viz.flow_accumulation@ == model.flow_accumulation@
        &&& self.water_viz.slopes@ == model.slopes@
        &&& are_spawn_points(model, self.water_viz.spawn_points@)
    }

    /// Analyses a catchment: fills the sinks of `dem`, routes the flow by
    /// steepest descent, counts the accumulation, and keeps the results
    /// together with the name of the catchment and the time of the
    /// analysis as the caller gives them.
    pub fn from_dem(
        dem: DigitalElevationModel,
        catchment_id: String,
        processing_timestamp: String,
    ) -> (r: Self)
        requires
            dem.wf(),
        ensures
            r.id == catchment_id,
            r.metadata.processing_timestamp == processing_timestamp,
            exists|model: FlowModel|
                #![trigger model.is_analysis_of(&dem)]
                model.is_analysis_of(&dem) && r.describes(&model),
    {
        let ghost raw = dem;
        let mut dem = dem;
        dem.fill_sinks();
        let mut flow_model: FlowModel = FlowModel::new(dem);
        flow_model.compute_flow_directions();
        let counted: Result<(), ModelError> = flow_model.compute_flow_accumulation_d8();
        assert(counted is Ok);
        assert(flow_model.is_analysis_of(&raw));
        let water_viz_data = generate_visualization_data(&flow_model);
        let detailed_streams = flow_model.extract_high_quality_streams(10_000);
        let medium_streams = flow_model.extract_high_quality_streams(50_000);
        let major_streams = flow_model.extract_high_quality_streams(100_000);
        let outlets = Self::find_outlets(&flow_model);
        let terrain_data = Self::create_optimized_terrain(&flow_model.dem);
        let elevation_range = Self::calculate_elevation_range(&flow_model.dem.data);
        let metadata = CatchmentMetadata {
            width: flow_model.dem.width,
            height: flow_model.dem.height,
            resolution: flow_model.dem.resolution,
            elevation_range,
            processing_timestamp,
        };
        let flow_data = FlowData {
            flow_directions: codes(&flow_model.flow_directions),
            flow_accumulation: copy_of(&flow_model.flow_accumulation),
            slopes: copy_of(&flow_model.slopes),
            outlets,
        };
        let streams = StreamNetworks {
            detailed: detailed_streams,
            medium: medium_streams,
            major: major_streams,
        };
        let water_viz = WaterVisualizationData {
            flow_accumulation: water_viz_data.flow_accumulation,
            slopes: water_viz_data.slopes,
            spawn_points: water_viz_data.spawn_points,
        };
        let r = PrecomputedCatchment {
            id: catchment_id,
            metadata,
            terrain: terrain_data,
            flow: flow_data,
            streams,
            water_viz,
        };
        assert(r.describes(&flow_model));
        r
    }

    /// The cells in which water ends and which gather more than
    /// themselves: their stored direction is `NoFlow` and their
    /// accumulation is above that of a single cell. Lists the cells before `upto`, in the order of
    /// their indices.
    pub open spec fn outlet_cells(model: &FlowModel, upto: int) -> Seq<int>
        decreases upto,
    {
        if upto <= 0 {
            Seq::empty()
        } else if model.flow_directions@[upto - 1] == FlowDirection::NoFlow
            && model.flow_accumulation@[upto - 1] > model.spec_accumulation_unit() {
            Self::outlet_cells(model, upto - 1).push(upto - 1)
        } else {
            Self::outlet_cells(model, upto - 1)
        }
    }

    /// `kept` holds the ten outlets with the largest accumulation, or all
    /// of them where they are fewer, the largest first and, among equal
    /// accumulations, in the order of their indices.
    pub open spec fn are_outlets(model: &FlowModel, kept: Seq<(usize, usize, u64)>) -> bool {
        let cells = Self::outlet_cells(model, model.cells());
        exists|order: Seq<usize>|
            {
                &&& #[trigger] is_ranked(order, model.flows_of(cells), 0)
                &&& order.len() == cells.len()
                &&& kept.len() == lesser(10, cells.len() as int)
                &&& forall|q: int|
                    0 <= q < kept.len() ==> #[trigger] kept[q] == Self::outlet_at(
                        model,
                        cells[order[q] as int],
                    )
            }
    }

    /// The column, the row and the accumulation of cell `i`.
    pub open spec fn outlet_at(model: &FlowModel, i: int) -> (usize, usize, u64) {
        (model.dem@.col(i) as usize, model.dem@.row(i) as usize, model.flow_accumulation@[i])
    }

    /// The ten largest outlets of the catchment.
    pub fn find_outlets(flow_model: &FlowModel) -> (outlets: Vec<(usize, usize, u64)>)
        requires
            flow_model.wf(),
        ensures
            Self::are_outlets(flow_model, outlets@),
    {
        let width: usize = flow_model.dem.width;
        let height: usize = flow_model.dem.height;
        let n: usize = flow_model.dem.data.len();
        let unit: u64 = flow_model.accumulation_unit();
        let mut found: Vec<(usize, usize, u64)> = Vec::new();
        let mut flows: Vec<u64> = Vec::new();
        let mut idx: usize = 0;
        while idx < n
            invariant
                flow_model.wf(),
                idx <= n,
                n == flow_model.cells(),
                width == flow_model.dem.width,
                height == flow_model.dem.height,
                unit == flow_model.spec_accumulation_unit(),
                found@.len() == Self::outlet_cells(flow_model, idx as int).len(),
                flows@ == flow_model.flows_of(Self::outlet_cells(flow_model, idx as int)),
                forall|k: int|
                    0 <= k < found@.len() ==> 0 <= #[trigger] Self::outlet_cells(
                        flow_model,
                        idx as int,
                    )[k] < idx,
                forall|k: int|
                    0 <= k < found@.len() ==> #[trigger] found@[k] == Self::outlet_at(
                        flow_model,
                        Self::outlet_cells(flow_model, idx as int)[k],
                    ),
            decreases n - idx,
        {
            let x: usize = idx % width;
            let y: usize = idx / width;
            proof {
                lemma_cell_coordinates(width as int, height as int, idx as int);
            }
            let ghost before = Self::outlet_cells(flow_model, idx as int);
            let ghost listed = found@;
            if flow_model.flow_directions[idx] == FlowDirection::NoFlow {
                let acc: u64 = flow_model.flow_accumulation[idx];
                if acc > unit {
                    found.push((x, y, acc));
                    flows.push(acc);
                    assert(flows@ =~= flow_model.flows_of(before.push(idx as int)));
                }
            }
            proof {
                let after = Self::outlet_cells(flow_model, idx as int + 1);
                assert forall|k: int| 0 <= k < found@.len() implies 0 <= #[trigger] after[k] < idx
                    + 1 && found@[k] == Self::outlet_at(flow_model, after[k]) by {
                    if k < before.len() {
                        assert(after[k] == before[k]);
                        assert(found@[k] == listed[k]);
                    }
                }
            }
            idx += 1;
        }
        let order: Vec<usize> = ranked_indices(&flows, 0);
        let count: usize = if found.len() < 10 {
            found.len()
        } else {
            10
        };
        let mut outlets: Vec<(usize, usize, u64)> = Vec::new();
        let mut q: usize = 0;
        while q < count
            invariant
                q <= count,
                count <= order@.len(),
                order@.len() == found@.len(),
                outlets@.len() == q,
                forall|a: int| 0 <= a < order@.len() ==> (#[trigger] order@[a]) < found@.len(),
                forall|j: int| 0 <= j < q ==> #[trigger] outlets@[j] == found@[order@[j] as int],
            decreases count - q,
        {
            outlets.push(found[order[q]]);
            q += 1;
        }
        outlets
    }

    /// `terrain` is the grid thinned out for drawing: every
    /// `skip_factor`-th column and row is a line of the mesh, and the mesh
    /// holds the elevation at each crossing, where crossings beyond the
    /// grid take the last column or row.
    pub open spec fn is_mesh_of(terrain: &TerrainData, dem: &DigitalElevationModel) -> bool {
        let skip = spec_skip_factor(dem.width as int, dem.height as int);
        &&& terrain.skip_factor == skip
        &&& terrain.mesh_width == dem.width as int / skip
        &&& terrain.mesh_height == dem.height as int / skip
        &&& terrain.elevation_data@.len() == (terrain.mesh_width + 1) * (terrain.mesh_height + 1)
        &&& forall|x: int, y: int|
            0 <= x <= terrain.mesh_width && 0 <= y <= terrain.mesh_height
                ==> #[trigger] terrain.elevation_data@[y * (terrain.mesh_width + 1) + x]
                == dem.data@[lesser(dem.height - 1, y * skip) * dem.width + lesser(
                dem.width - 1,
                x * skip,
            )]
    }

    /// The grid thinned out for drawing.
    pub fn create_optimized_terrain(dem: &DigitalElevationModel) -> (terrain: TerrainData)
        requires
            dem.wf(),
        ensures
            Self::is_mesh_of(&terrain, dem),
    {
        let skip: usize = skip_factor(dem.width, dem.height);
        let mesh_width: usize = dem.width / skip;
        let mesh_height: usize = dem.height / skip;
        let mut optimized_elevations: Vec<i32> = Vec::new();
        let mut y: usize = 0;
        while y < mesh_height + 1
            invariant
                dem.wf(),
                skip >= 1,
                mesh_width == dem.width as int / skip as int,
                mesh_height == dem.height as int / skip as int,
                y <= mesh_height + 1,
                mesh_height < usize::MAX,
                mesh_width < usize::MAX,
                optimized_elevations@.len() == y * (mesh_width + 1),
                forall|a: int, b: int|
                    0 <= a <= mesh_width && 0 <= b < y ==> #[trigger] optimized_elevations@[b * (
                    mesh_width + 1) + a] == dem.data@[lesser(dem.height - 1, b * skip) * dem.width
                        + lesser(dem.width - 1, a * skip)],
            decreases mesh_height + 1 - y,
        {
            let mut x: usize = 0;
            proof {
                lemma_scaled(dem.height as int, skip as int, y as int);
            }
            let dem_y: usize = if y * skip < dem.height - 1 {
                y * skip
            } else {
                dem.height - 1
            };
            while x < mesh_width + 1
                invariant
                    dem.wf(),
                    skip >= 1,
                    mesh_width == dem.width as int / skip as int,
                    mesh_height == dem.height as int / skip as int,
                    y <= mesh_height,
                    x <= mesh_width + 1,
                    mesh_height < usize::MAX,
                    mesh_width < usize::MAX,
                    dem_y == lesser(dem.height - 1, y * skip),
                    optimized_elevations@.len() == y * (mesh_width + 1) + x,
                    forall|a: int, b: int|
                        0 <= a <= mesh_width && 0 <= b < y
                            ==> #[trigger] optimized_elevations@[b * (mesh_width + 1) + a]
                            == dem.data@[lesser(dem.height - 1, b * skip) * dem.width + lesser(
                            dem.width - 1,
                            a * skip,
                        )],
                    forall|a: int|
                        0 <= a < x ==> #[trigger] optimized_elevations@[y * (mesh_width + 1) + a]
                            == dem.data@[dem_y * dem.width + lesser(dem.width - 1, a * skip)],
                decreases mesh_width + 1 - x,
            {
                proof {
                    lemma_scaled(dem.width as int, skip as int, x as int);
                }
                let dem_x: usize = if x * skip < dem.width - 1 {
                    x * skip
                } else {
                    dem.width - 1
                };
                proof {
                    lemma_index_in_range(
                        dem.width as int,
                        dem.height as int,
                        dem_x as int,
                        dem_y as int,
                    );
                    lemma_rows(mesh_width as int + 1, y as int, x as int);
                }
                let ghost before = optimized_elevations@;
                optimized_elevations.push(dem.data[dem_y * dem.width + dem_x]);
                proof {
                    assert forall|a: int, b: int|
                        0 <= a <= mesh_width && 0 <= b
                            < y implies #[trigger] optimized_elevations@[b * (mesh_width + 1) + a]
                        == dem.data@[lesser(dem.height - 1, b * skip) * dem.width + lesser(
                        dem.width - 1,
                        a * skip,
                    )] by {
                        lemma_rows(mesh_width as int + 1, b, a);
                        lemma_earlier_row(mesh_width as int + 1, b, a, y as int);
                        assert(before[b * (mesh_width + 1) + a] == dem.data@[lesser(
                            dem.height - 1,
                            b * skip,
                        ) * dem.width + lesser(dem.width - 1, a * skip)]);
                    }
                    assert forall|a: int| 0 <= a < x + 1 implies #[trigger] optimized_elevations@[y
                        * (mesh_width + 1) + a] == dem.data@[dem_y * dem.width + lesser(
                        dem.width - 1,
                        a * skip,
                    )] by {
                        if a < x {
                            assert(before[y * (mesh_width + 1) + a] == dem.data@[dem_y * dem.width
                                + lesser(dem.width - 1, a * skip)]);
                        }
                    }
                }
                x += 1;
            }
            proof {
                assert((y + 1) * (mesh_width + 1) == y * (mesh_width + 1) + (mesh_width + 1))
                    by (nonlinear_arith);
            }
            y += 1;
        }
        proof {
            assert((mesh_height + 1) * (mesh_width + 1) == (mesh_width + 1) * (mesh_height + 1))
                by (nonlinear_arith);
        }
        TerrainData {
            elevation_data: optimized_elevations,
            mesh_width,
            mesh_height,
            skip_factor: skip,
        }
    }

    /// The lowest and the highest of the elevations that are not negative;
    /// `(i32::MAX, i32::MIN)` where there is none.
    pub fn calculate_elevation_range(elevation_data: &Vec<i32>) -> (r: (i32, i32))
        ensures
            r.0 == lowest(elevation_data@, elevation_data@.len() as int),
            r.1 == highest(elevation_data@, elevation_data@.len() as int),
    {
        let mut min_elev: i32 = i32::MAX;
        let mut max_elev: i32 = i32::MIN;
        let mut i: usize = 0;
        while i < elevation_data.len()
            invariant
                i <= elevation_data@.len(),
                min_elev == lowest(elevation_data@, i as int),
                max_elev == highest(elevation_data@, i as int),
            decreases elevation_data@.len() - i,
        {
            let elev: i32 = elevation_data[i];
            if elev >= 0 {
                if elev < min_elev {
                    min_elev = elev;
                }
                if elev > max_elev {
                    max_elev = elev;
                }
            }
            i += 1;
        }
        (min_elev, max_elev)
    }
}

/// A number divided by two or more is at most half of it.
proof fn lemma_halved(size: int, by: int)
    requires
        size >= 1,
        by >= 2,
    ensures
        0 <= size / by <= size / 2,
        size / by < size,
{
    vstd::arithmetic::div_mod::lemma_fundamental_div_mod(size, by);
    vstd::arithmetic::div_mod::lemma_mod_bound(size, by);
    assert(0 <= size / by && 2 * (size / by) <= size) by (nonlinear_arith)
        requires
            size >= 1,
            by >= 2,
            size == by * (size / by) + size % by,
            0 <= size % by < by,
    ;
}

/// A line of the mesh lies within the grid or just beyond it.
proof fn lemma_scaled(size: int, skip: int, at: int)
    requires
        skip >= 1,
        size >= 1,
        0 <= at <= size / skip,
    ensures
        0 <= at * skip <= size,
{
    vstd::arithmetic::div_mod::lemma_fundamental_div_mod(size, skip);
    vstd::arithmetic::div_mod::lemma_mod_bound(size, skip);
    assert(0 <= at * skip <= size) by (nonlinear_arith)
        requires
            skip >= 1,
            0 <= at <= size / skip,
            size == skip * (size / skip) + size % skip,
            0 <= size % skip,
    ;
}

/// Where place `a` of row `b` lies when rows are `stride` long.
proof fn lemma_rows(stride: int, b: int, a: int)
    requires
        0 <= a < stride,
        0 <= b,
    ensures
        b * stride + a >= 0,
        (b + 1) * stride == b * stride + stride,
{
    assert(b * stride >= 0) by (nonlinear_arith)
        requires
            b >= 0,
            stride > 0,
    ;
    assert((b + 1) * stride == b * stride + stride) by (nonlinear_arith);
}

/// A place in an earlier row comes before every place of a later row.
proof fn lemma_earlier_row(stride: int, b: int, a: int, y: int)
    requires
        0 <= a < stride,
        0 <= b < y,
    ensures
        0 <= b * stride + a < y * stride,
{
    assert(0 <= b * stride + a < y * stride) by (nonlinear_arith)
        requires
            0 <= a < stride,
            0 <= b < y,
    ;
}

} // verus!
