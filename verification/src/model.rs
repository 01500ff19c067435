//! The water model of a session: a grid is loaded and conditioned, then its
//! flow is computed, then the results are read.

use crate::dem::{same_grid, DigitalElevationModel};
use crate::direction::{codes, codes_of};
use crate::fill::SinkTreatmentMethod;
use crate::flow::{copy_of, FlowModel, Slope};
use crate::streams::portion;
use crate::visualization::{
    are_spawn_points, generate_stream_network, generate_visualization_data, points_of, smoothed,
    WaterFlowVisualizationData,
};
use vstd::prelude::*;

verus! {

/// Why a step of the session failed.
#[derive(Clone, Copy, Debug, PartialEq, Eq, Structural)]
pub enum ModelError {
    /// The grid is empty, has a zero cell size, or its samples do not fill
    /// it.
    InvalidData,
    /// No grid has been loaded.
    NoDemLoaded,
    /// The flow has not been computed.
    FlowNotComputed,
    /// The flow model is not well formed: an array does not fit the grid,
    /// or water would flow uphill, in a circle or off the grid.
    IllFormedRouting,
    /// The shares for the model's method of routing are not stored, or
    /// what passes through a cell is too much to be held.
    NotCountable,
}

/// A grid and, once it has been computed, its flow.
pub struct WaterModel {
    pub dem: Option<DigitalElevationModel>,
    pub flow_model: Option<FlowModel>,
    pub width: usize,
    pub height: usize,
    pub resolution: u32,
}

/// The coordinates of the points in one row: column, row, column, row and
/// so on, each as far as it fits into 32 bits.
pub open spec fn flattened(points: Seq<(usize, usize)>) -> Seq<u32> {
    Seq::new(
        2 * points.len(),
        |k: int|
            if k % 2 == 0 {
                (points[k / 2].0 as int % 0x1_0000_0000) as u32
            } else {
                (points[k / 2].1 as int % 0x1_0000_0000) as u32
            },
    )
}

impl WaterModel {
    /// What is loaded is well formed.
    pub open spec fn wf(&self) -> bool {
        &&& self.dem matches Some(dem) ==> dem.wf()
        &&& self.flow_model matches Some(model) ==> model.wf()
    }

    /// A model without a grid.
    pub fn new() -> (r: Self)
        ensures
            r.dem is None,
            r.flow_model is None,
            r.width == 0,
            r.height == 0,
            r.resolution == 0,
            r.wf(),
    {
        WaterModel { dem: None, flow_model: None, width: 0, height: 0, resolution: 0 }
    }

    /// Loads a grid from raw samples and removes its sinks. Fails, and
    /// changes nothing, on an empty grid, a zero cell size, or a buffer
    /// whose length is not `width * height`. A flow computed earlier stays
    /// as it is.
    pub fn process_dem_data(
        &mut self,
        width: usize,
        height: usize,
        resolution: u32,
        elevation_data: Vec<i32>,
        no_data_value: Option<i32>,
        sink_method: SinkTreatmentMethod,
    ) -> (r: Result<(), ModelError>)
        ensures
            r is Ok <==> DigitalElevationModel::acceptable(
                width,
                height,
                resolution,
                elevation_data@.len(),
            ),
            r matches Err(e) ==> e == ModelError::InvalidData && *final(self) == *old(self),
            r is Ok ==> {
                &&& final(self).flow_model == old(self).flow_model
                &&& final(self).width == width
                &&& final(self).height == height
                &&& final(self).resolution == resolution
                &&& final(self).dem matches Some(dem) && {
                    &&& dem.wf()
                    &&& dem.width == width
                    &&& dem.height == height
                    &&& dem.resolution == resolution
                    &&& dem.no_data_value == no_data_value
                    &&& dem@.is_fill_of(
                        (DigitalElevationModel {
                            width,
                            height,
                            resolution,
                            data: elevation_data,
                            no_data_value,
                        })@,
                    )
                }
            },
    {
        let ghost raw = DigitalElevationModel {
            width,
            height,
            resolution,
            data: elevation_data,
            no_data_value,
        };
        match DigitalElevationModel::new(width, height, resolution, elevation_data, no_data_value) {
            Ok(loaded) => {
                let mut dem = loaded;
                assert(dem@ =~= raw@);
                dem.process_sinks(sink_method);
                self.width = width;
                self.height = height;
                self.resolution = resolution;
                self.dem = Some(dem);
                Ok(())
            },
            Err(_) => Err(ModelError::InvalidData),
        }
    }

    /// Routes the flow of the loaded grid by steepest descent and counts
    /// the accumulation. Fails, and changes nothing, where no grid is
    /// loaded.
    pub fn compute_flow(&mut self) -> (r: Result<(), ModelError>)
        requires
            old(self).wf(),
        ensures
            r is Ok <==> old(self).dem is Some,
            r matches Err(e) ==> e == ModelError::NoDemLoaded && *final(self) == *old(self),
            r is Ok ==> {
                &&& final(self).wf()
                &&& final(self).width == old(self).width
                &&& final(self).height == old(self).height
                &&& final(self).resolution == old(self).resolution
                &&& final(self).dem matches Some(dem) && same_grid(dem, old(self).dem->Some_0)
                &&& final(self).flow_model matches Some(model) && model.analysed() && same_grid(
                    model.dem,
                    old(self).dem->Some_0,
                )
            },
    {
        match self.dem.take() {
            Some(dem) => {
                let kept: DigitalElevationModel = dem.duplicate();
                let mut flow_model: FlowModel = FlowModel::new(dem);
                flow_model.compute_flow_directions();
                let counted: Result<(), ModelError> = flow_model.compute_flow_accumulation_d8();
        assert(counted is Ok);
                self.flow_model = Some(flow_model);
                self.dem = Some(kept);
                Ok(())
            },
            None => Err(ModelError::NoDemLoaded),
        }
    }

    /// The samples of the loaded grid.
    pub fn get_terrain_data(&self) -> (r: Result<Vec<i32>, ModelError>)
        ensures
            match r {
                Ok(data) => self.dem matches Some(dem) && data@ == dem.data@,
                Err(e) => self.dem is None && e == ModelError::NoDemLoaded,
            },
    {
        match &self.dem {
            Some(dem) => Ok(copy_of(&dem.data)),
            None => Err(ModelError::NoDemLoaded),
        }
    }

    /// The codes of the flow directions.
    pub fn get_flow_directions(&self) -> (r: Result<Vec<u8>, ModelError>)
        ensures
            match r {
                Ok(directions) => self.flow_model matches Some(model) && directions@ == codes_of(
                    model.flow_directions@,
                ),
                Err(e) => self.flow_model is None && e == ModelError::FlowNotComputed,
            },
    {
        match &self.flow_model {
            Some(flow_model) => Ok(codes(&flow_model.flow_directions)),
            None => Err(ModelError::FlowNotComputed),
        }
    }

    /// The flow accumulation of every cell.
    pub fn get_flow_accumulation(&self) -> (r: Result<Vec<u64>, ModelError>)
        ensures
            match r {
                Ok(accumulation) => self.flow_model matches Some(model) && accumulation@
                    == model.flow_accumulation@,
                Err(e) => self.flow_model is None && e == ModelError::FlowNotComputed,
            },
    {
        match &self.flow_model {
            Some(flow_model) => Ok(copy_of(&flow_model.flow_accumulation)),
            None => Err(ModelError::FlowNotComputed),
        }
    }

    /// The slope of every cell.
    pub fn get_slope_data(&self) -> (r: Result<Vec<Slope>, ModelError>)
        ensures
            match r {
                Ok(slopes) => self.flow_model matches Some(model) && slopes@ == model.slopes@,
                Err(e) => self.flow_model is None && e == ModelError::FlowNotComputed,
            },
    {
        match &self.flow_model {
            Some(flow_model) => Ok(copy_of(&flow_model.slopes)),
            None => Err(ModelError::FlowNotComputed),
        }
    }

    /// The data for drawing the flow.
    pub fn get_water_visualization_data(&self) -> (r: Result<
        WaterFlowVisualizationData,
        ModelError,
    >)
        requires
            self.wf(),
        ensures
            match r {
                Ok(data) => self.flow_model matches Some(model) && {
                    &&& data.width == model.dem.width
                    &&& data.height == model.dem.height
                    &&& data.flow_accumulation@ == model.flow_accumulation@
                    &&& data.slopes@ == model.slopes@
                    &&& are_spawn_points(&model, data.spawn_points@)
                },
                Err(e) => self.flow_model is None && e == ModelError::FlowNotComputed,
            },
    {
        match &self.flow_model {
            Some(flow_model) => Ok(generate_visualization_data(flow_model)),
            None => Err(ModelError::FlowNotComputed),
        }
    }

    /// The points at which to release particles, their coordinates one
    /// after the other.
    pub fn get_stream_spawn_points(&self) -> (r: Result<Vec<u32>, ModelError>)
        requires
            self.wf(),
        ensures
            match r {
                Ok(coordinates) => self.flow_model matches Some(model) && exists|
                    points: Seq<(usize, usize)>,
                |
                    #![trigger are_spawn_points(&model, points)]
                    are_spawn_points(&model, points) && coordinates@ == flattened(points),
                Err(e) => self.flow_model is None && e == ModelError::FlowNotComputed,
            },
    {
        match &self.flow_model {
            Some(flow_model) => {
                let spawn_points: Vec<(usize, usize)> = generate_visualization_data(
                    flow_model,
                ).spawn_points;
                let mut point_coords: Vec<u32> = Vec::new();
                let mut k: usize = 0;
                while k < spawn_points.len()
                    invariant
                        k <= spawn_points@.len(),
                        point_coords@.len() == 2 * k,
                        forall|j: int|
                            0 <= j < 2 * k ==> point_coords@[j] == flattened(spawn_points@)[j],
                    decreases spawn_points@.len() - k,
                {
                    let (x, y) = spawn_points[k];
                    point_coords.push(((x as u64) % 0x1_0000_0000) as u32);
                    point_coords.push(((y as u64) % 0x1_0000_0000) as u32);
                    k += 1;
                }
                assert(point_coords@ =~= flattened(spawn_points@));
                Ok(point_coords)
            },
            None => Err(ModelError::FlowNotComputed),
        }
    }

    /// The stream lines for drawing, for a share of the largest
    /// accumulation in millionths, smoothed.
    pub fn get_stream_network(&self, threshold_percentile: u32, smooth_iterations: usize) -> (r:
        Result<Vec<Vec<(usize, usize)>>, ModelError>)
        requires
            self.wf(),
        ensures
            match r {
                Ok(lines) => self.flow_model matches Some(model) && ({
                    let threshold = portion(model.largest(model.cells()), threshold_percentile);
                    let seeds = model.cells_reaching(threshold, model.cells());
                    let courses = model.traced(threshold, seeds, seeds.len() as int, false).0;
                    &&& lines@.len() == courses.len()
                    &&& forall|l: int|
                        0 <= l < lines@.len() ==> (#[trigger] lines@[l])@ == smoothed(
                            points_of(&model, courses[l]),
                            smooth_iterations as nat,
                        )
                }),
                Err(e) => self.flow_model is None && e == ModelError::FlowNotComputed,
            },
    {
        match &self.flow_model {
            Some(flow_model) => Ok(
                generate_stream_network(flow_model, threshold_percentile, smooth_iterations),
            ),
            None => Err(ModelError::FlowNotComputed),
        }
    }

    /// The stream lines that start at the largest accumulation, for a
    /// share of the largest accumulation in millionths.
    pub fn get_stream_polylines(&self, threshold_percentile: u32) -> (r: Result<
        Vec<Vec<(usize, usize)>>,
        ModelError,
    >)
        requires
            self.wf(),
        ensures
            match r {
                Ok(lines) => self.flow_model matches Some(model) && model.is_trace(
                    lines@,
                    portion(model.largest(model.cells()), threshold_percentile),
                ),
                Err(e) => self.flow_model is None && e == ModelError::FlowNotComputed,
            },
    {
        match &self.flow_model {
            Some(flow_model) => Ok(flow_model.extract_high_quality_streams(threshold_percentile)),
            None => Err(ModelError::FlowNotComputed),
        }
    }

    /// The stream lines that start at the largest accumulation; `None`
    /// where the flow has not been computed.
    pub fn get_hq_streams(&self, threshold_percentile: u32) -> (r: Option<
        Vec<Vec<(usize, usize)>>,
    >)
        requires
            self.wf(),
        ensures
            match r {
                Some(lines) => self.flow_model matches Some(model) && model.is_trace(
                    lines@,
                    portion(model.largest(model.cells()), threshold_percentile),
                ),
                None => self.flow_model is None,
            },
    {
        match &self.flow_model {
            Some(flow_model) => Some(flow_model.extract_high_quality_streams(threshold_percentile)),
            None => None,
        }
    }

    /// The width, the height and the cell size of the grid loaded last.
    pub fn get_dimensions(&self) -> (r: (usize, usize, u32))
        ensures
            r == (self.width, self.height, self.resolution),
    {
        (self.width, self.height, self.resolution)
    }
}

} // verus!
