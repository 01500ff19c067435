use watermodel::dem::DigitalElevationModel;
use watermodel::direction::{codes, FlowDirection};
use watermodel::fill::SinkTreatmentMethod;
use watermodel::flow::Slope;
use watermodel::model::{ModelError, WaterModel};

fn loaded() -> WaterModel {
    let mut model = WaterModel::new();
    let data = vec![
        9, 9, 9, 9, //
        9, 1, 5, 3, //
        9, 9, 9, 9,
    ];
    model
        .process_dem_data(4, 3, 10, data, Some(-9999), SinkTreatmentMethod::CompletelyFill)
        .unwrap();
    model
}

#[test]
fn a_new_model_is_empty() {
    let model = WaterModel::new();
    assert!(model.dem.is_none());
    assert!(model.flow_model.is_none());
    assert_eq!(model.get_dimensions(), (0, 0, 0));
    assert_eq!(model.get_terrain_data(), Err(ModelError::NoDemLoaded));
    assert_eq!(model.get_flow_directions(), Err(ModelError::FlowNotComputed));
    assert_eq!(model.get_flow_accumulation(), Err(ModelError::FlowNotComputed));
    assert_eq!(model.get_slope_data(), Err(ModelError::FlowNotComputed));
    assert_eq!(model.get_stream_spawn_points(), Err(ModelError::FlowNotComputed));
    assert_eq!(model.get_stream_network(10_000, 0), Err(ModelError::FlowNotComputed));
    assert_eq!(model.get_stream_polylines(10_000), Err(ModelError::FlowNotComputed));
    assert!(model.get_water_visualization_data().is_err());
    assert!(model.get_hq_streams(10_000).is_none());
}

#[test]
fn loading_fills_the_sinks() {
    let model = loaded();
    assert_eq!(model.get_dimensions(), (4, 3, 10));
    // The pit of 1 spills over the 3 beside the rim... which is the rim itself here.
    assert_eq!(
        model.get_terrain_data(),
        Ok(vec![
            9, 9, 9, 9, //
            9, 5, 5, 3, //
            9, 9, 9, 9
        ])
    );
    assert!(model.flow_model.is_none());
}

#[test]
fn every_way_of_treating_sinks_fills_them() {
    let ways = [
        SinkTreatmentMethod::CompletelyFill,
        SinkTreatmentMethod::EpsilonFill(1),
        SinkTreatmentMethod::Breach(3),
        SinkTreatmentMethod::Combined(1, 3),
    ];
    for way in ways {
        let mut dem =
            DigitalElevationModel::new(3, 3, 10, vec![9, 9, 9, 9, 1, 9, 9, 9, 9], None).unwrap();
        dem.process_sinks(way);
        assert_eq!(dem.data, vec![9; 9]);
    }
}

#[test]
fn loading_bad_data_fails_and_changes_nothing() {
    let mut model = loaded();
    let r = model.process_dem_data(4, 3, 10, vec![1, 2, 3], None, SinkTreatmentMethod::CompletelyFill);
    assert_eq!(r, Err(ModelError::InvalidData));
    assert_eq!(model.get_dimensions(), (4, 3, 10));
    assert_eq!(model.get_terrain_data().unwrap().len(), 12);
    let r = model.process_dem_data(0, 3, 10, vec![], None, SinkTreatmentMethod::CompletelyFill);
    assert_eq!(r, Err(ModelError::InvalidData));
    let r = model.process_dem_data(1, 1, 0, vec![1], None, SinkTreatmentMethod::CompletelyFill);
    assert_eq!(r, Err(ModelError::InvalidData));
}

#[test]
fn flow_cannot_be_computed_without_a_grid() {
    let mut model = WaterModel::new();
    assert_eq!(model.compute_flow(), Err(ModelError::NoDemLoaded));
    assert!(model.flow_model.is_none());
}

#[test]
fn computing_the_flow_keeps_the_grid() {
    let mut model = loaded();
    let terrain = model.get_terrain_data().unwrap();
    assert_eq!(model.compute_flow(), Ok(()));
    assert_eq!(model.get_terrain_data(), Ok(terrain));
    assert_eq!(model.get_dimensions(), (4, 3, 10));
    let directions = model.get_flow_directions().unwrap();
    let east = FlowDirection::East.code();
    // The filled pit and its neighbour drain east to the low rim cell.
    assert_eq!(directions[5], 0);
    assert_eq!(directions[6], east);
    assert_eq!(directions[7], 0);
    let accumulation = model.get_flow_accumulation().unwrap();
    assert!(accumulation.iter().all(|a| *a >= 1));
    assert_eq!(accumulation.iter().sum::<u64>(), {
        let flows = model.flow_model.as_ref().unwrap();
        let mut total = 12;
        for y in 0..3 {
            for x in 0..4 {
                if flows.get_downstream_cell(x, y).is_some() {
                    total += flows.get_flow_accumulation(x, y).unwrap();
                }
            }
        }
        total
    });
    let slopes = model.get_slope_data().unwrap();
    assert_eq!(slopes[6], Slope { drop: 2, diagonal: false });
    assert_eq!(slopes[5], Slope::flat());
}

#[test]
fn the_results_are_those_of_the_flow_model() {
    let mut model = loaded();
    model.compute_flow().unwrap();
    let flows = model.flow_model.as_ref().unwrap();
    assert_eq!(model.get_flow_directions().unwrap(), codes(&flows.flow_directions));
    assert_eq!(model.get_flow_accumulation().unwrap(), flows.flow_accumulation);
    assert_eq!(model.get_stream_polylines(10_000).unwrap(), flows.extract_high_quality_streams(10_000));
    assert_eq!(model.get_hq_streams(500_000), Some(flows.extract_high_quality_streams(500_000)));
    assert_eq!(
        model.get_stream_network(10_000, 2).unwrap(),
        watermodel::visualization::generate_stream_network(flows, 10_000, 2)
    );
    let data = model.get_water_visualization_data().unwrap();
    assert_eq!((data.width, data.height), (4, 3));
    let flat = model.get_stream_spawn_points().unwrap();
    assert_eq!(flat.len(), 2 * data.spawn_points.len());
    for (k, (x, y)) in data.spawn_points.iter().enumerate() {
        assert_eq!((flat[2 * k] as usize, flat[2 * k + 1] as usize), (*x, *y));
    }
}

#[test]
fn loading_again_keeps_the_flow_computed_before() {
    let mut model = loaded();
    model.compute_flow().unwrap();
    let before = model.get_flow_accumulation().unwrap();
    model.process_dem_data(1, 1, 5, vec![7], None, SinkTreatmentMethod::CompletelyFill).unwrap();
    assert_eq!(model.get_dimensions(), (1, 1, 5));
    assert_eq!(model.get_terrain_data(), Ok(vec![7]));
    assert_eq!(model.get_flow_accumulation(), Ok(before));
}

#[test]
fn a_copy_of_a_grid_is_the_same_grid() {
    let dem = DigitalElevationModel::new(2, 2, 10, vec![1, 2, 3, 4], Some(3)).unwrap();
    let copy = dem.duplicate();
    assert_eq!(
        (copy.width, copy.height, copy.resolution, copy.no_data_value),
        (2, 2, 10, Some(3))
    );
    assert_eq!(copy.data, dem.data);
}

#[test]
fn codes_of_a_list_of_directions() {
    let directions = vec![FlowDirection::NoFlow, FlowDirection::North, FlowDirection::Southeast];
    assert_eq!(codes(&directions), vec![0, 64, 2]);
    assert_eq!(codes(&vec![]), Vec::<u8>::new());
}

#[test]
fn a_model_from_the_library_is_well_formed() {
    let mut model = loaded();
    model.compute_flow().unwrap();
    let mut flows = model.flow_model.unwrap();
    assert!(flows.is_well_formed());
    assert!(flows.compute_flow_directions_dinf(&vec![0; 12]));
    assert!(flows.is_well_formed());
    assert!(flows.compute_flow_directions_mfd(&vec![vec![3; 8]; 12]));
    assert!(flows.is_well_formed());
}

#[test]
fn a_tampered_model_is_not_well_formed() {
    let fresh = || {
        let mut model = loaded();
        model.compute_flow().unwrap();
        let mut flows = model.flow_model.unwrap();
        assert!(flows.compute_flow_directions_dinf(&vec![0; 12]));
        assert!(flows.compute_flow_directions_mfd(&vec![vec![3; 8]; 12]));
        flows
    };
    let mut flows = fresh();
    flows.flow_accumulation.pop();
    assert!(!flows.is_well_formed());
    let mut flows = fresh();
    flows.slopes.push(Slope::flat());
    assert!(!flows.is_well_formed());
    // Water cannot flow uphill, off the grid or out of a level cell.
    let mut flows = fresh();
    flows.flow_directions[6] = FlowDirection::West;
    assert!(!flows.is_well_formed());
    let mut flows = fresh();
    flows.flow_directions[7] = FlowDirection::East;
    assert!(!flows.is_well_formed());
    let mut flows = fresh();
    flows.flow_directions[5] = FlowDirection::East;
    assert!(!flows.is_well_formed());
    let mut flows = fresh();
    flows.dem.data.pop();
    assert!(!flows.is_well_formed());
    let mut flows = fresh();
    flows.dinf_flow_angles = Some(vec![0; 3]);
    assert!(!flows.is_well_formed());
    // A stored angle is less than a full turn.
    let mut flows = fresh();
    flows.dinf_flow_angles.as_mut().unwrap()[5] = 7_999_999;
    assert!(flows.is_well_formed());
    let mut flows = fresh();
    flows.dinf_flow_angles.as_mut().unwrap()[5] = 8_000_000;
    assert!(!flows.is_well_formed());
    // Shares by angle go to lower neighbours only and add up to a whole at most.
    let mut flows = fresh();
    flows.dinf_flow_proportions.as_mut().unwrap()[6] = vec![500_000, 0, 0, 0, 0, 0, 0, 0];
    assert!(flows.is_well_formed());
    let mut flows = fresh();
    flows.dinf_flow_proportions.as_mut().unwrap()[6] = vec![1_000_001, 0, 0, 0, 0, 0, 0, 0];
    assert!(!flows.is_well_formed());
    let mut flows = fresh();
    flows.dinf_flow_proportions.as_mut().unwrap()[6] = vec![0, 0, 0, 0, 1_000_000, 0, 0, 0];
    assert!(!flows.is_well_formed());
    let mut flows = fresh();
    flows.dinf_flow_proportions.as_mut().unwrap()[6] = vec![1_000_000, 0, 0, 0, 0, 0, 0];
    assert!(!flows.is_well_formed());
    let mut flows = fresh();
    flows.dinf_flow_proportions.as_mut().unwrap()[6] = vec![0; 8];
    assert!(flows.is_well_formed());
    // Shares among all lower neighbours add up to a whole at most.
    let mut flows = fresh();
    flows.mfd_flow_proportions.as_mut().unwrap()[6] = vec![1_000_001, 0, 0, 0, 0, 0, 0, 0];
    assert!(!flows.is_well_formed());
    let mut flows = fresh();
    flows.mfd_flow_proportions.as_mut().unwrap()[6] = vec![0, 0, 1, 0, 0, 0, 0, 0];
    assert!(!flows.is_well_formed());
    let mut flows = fresh();
    flows.mfd_flow_proportions.as_mut().unwrap()[6] = vec![7, 0, 0, 0, 0, 0, 0, 0];
    assert!(flows.is_well_formed());
    let mut flows = fresh();
    flows.mfd_flow_proportions.as_mut().unwrap().pop();
    assert!(!flows.is_well_formed());
}
