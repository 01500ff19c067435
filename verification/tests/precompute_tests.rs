use watermodel::dem::DigitalElevationModel;
use watermodel::flow::{FlowDirection, FlowModel, Slope};
use watermodel::precompute::PrecomputedCatchment;

fn model_of(width: usize, height: usize, data: Vec<i32>) -> FlowModel {
    let dem = DigitalElevationModel::new(width, height, 10, data, None).unwrap();
    let mut model = FlowModel::new(dem);
    model.compute_flow_directions();
    assert_eq!(model.compute_flow_accumulation(), Ok(()));
    model
}

#[test]
fn the_range_of_elevation_leaves_out_what_is_negative() {
    assert_eq!(
        PrecomputedCatchment::calculate_elevation_range(&vec![5, -9999, 12, 0, 7, -1]),
        (0, 12)
    );
    assert_eq!(PrecomputedCatchment::calculate_elevation_range(&vec![3]), (3, 3));
    assert_eq!(
        PrecomputedCatchment::calculate_elevation_range(&vec![i32::MAX, 4]),
        (4, i32::MAX)
    );
}

#[test]
fn the_range_of_nothing() {
    assert_eq!(PrecomputedCatchment::calculate_elevation_range(&vec![]), (i32::MAX, i32::MIN));
    assert_eq!(
        PrecomputedCatchment::calculate_elevation_range(&vec![-1, -5, i32::MIN]),
        (i32::MAX, i32::MIN)
    );
}

#[test]
fn outlets_are_the_ends_that_gather_water() {
    // Two valleys: one ends at cell (2, 0), the other at cell (6, 0). The
    // ridge at cell (3, 0) falls more steeply toward the first.
    let model = model_of(8, 1, vec![3, 2, 1, 9, 8, 7, 0, 5]);
    assert_eq!(
        PrecomputedCatchment::find_outlets(&model),
        vec![(2, 0, 4), (6, 0, 4)]
    );
    // The larger outlet comes first.
    let model = model_of(8, 1, vec![2, 1, 2, 3, 2, 1, 0, 5]);
    assert_eq!(
        PrecomputedCatchment::find_outlets(&model),
        vec![(6, 0, 5), (1, 0, 3)]
    );
}

#[test]
fn a_cell_that_stands_alone_is_no_outlet() {
    let model = model_of(3, 1, vec![5, 5, 5]);
    assert_eq!(PrecomputedCatchment::find_outlets(&model), Vec::<(usize, usize, u64)>::new());
}

#[test]
fn the_ten_largest_outlets_are_kept() {
    // Twelve valleys side by side, the k-th with k + 2 cells of width. The
    // head of each valley but the first falls toward the valley before it.
    let mut data = Vec::new();
    for k in 0..12 {
        for step in 0..(k + 2) {
            data.push((k + 2 - step) as i32);
        }
    }
    let width = data.len();
    let model = model_of(width, 1, data);
    let outlets = PrecomputedCatchment::find_outlets(&model);
    assert_eq!(outlets.len(), 10);
    let gathered: Vec<u64> = outlets.iter().map(|o| o.2).collect();
    assert_eq!(gathered, vec![12, 12, 11, 10, 9, 8, 7, 6, 5, 4]);
    assert!(outlets[0].0 < outlets[1].0);
    for (x, y, acc) in outlets {
        assert_eq!(model.get_flow_direction(x, y), Some(FlowDirection::NoFlow));
        assert_eq!(model.get_flow_accumulation(x, y), Some(acc));
    }
}

#[test]
fn equal_outlets_stay_in_the_order_of_the_grid() {
    let model = model_of(6, 1, vec![2, 1, 5, 2, 1, 5]);
    assert_eq!(
        PrecomputedCatchment::find_outlets(&model),
        vec![(1, 0, 3), (4, 0, 3)]
    );
}

#[test]
fn a_small_grid_is_meshed_cell_by_cell() {
    let dem = DigitalElevationModel::new(3, 2, 10, vec![1, 2, 3, 4, 5, 6], None).unwrap();
    let terrain = PrecomputedCatchment::create_optimized_terrain(&dem);
    assert_eq!(terrain.skip_factor, 1);
    assert_eq!((terrain.mesh_width, terrain.mesh_height), (3, 2));
    // One line more than cells each way; the last repeats the last cells.
    assert_eq!(
        terrain.elevation_data,
        vec![
            1, 2, 3, 3, //
            4, 5, 6, 6, //
            4, 5, 6, 6
        ]
    );
}

#[test]
fn a_large_grid_is_thinned_out() {
    let width = 4100;
    let data: Vec<i32> = (0..width as i32).collect();
    let dem = DigitalElevationModel::new(width, 1, 10, data, None).unwrap();
    let terrain = PrecomputedCatchment::create_optimized_terrain(&dem);
    // 4100 cells ask for 3 cells a step.
    assert_eq!(terrain.skip_factor, 3);
    assert_eq!((terrain.mesh_width, terrain.mesh_height), (1366, 0));
    assert_eq!(terrain.elevation_data.len(), 1367);
    assert_eq!(terrain.elevation_data[0], 0);
    assert_eq!(terrain.elevation_data[1], 3);
    assert_eq!(terrain.elevation_data[1366], 4098);
}

#[test]
fn a_step_of_more_than_three_is_cut_by_a_quarter() {
    let height = 10_000;
    let data: Vec<i32> = (0..height as i32).collect();
    let dem = DigitalElevationModel::new(1, height, 10, data, None).unwrap();
    let terrain = PrecomputedCatchment::create_optimized_terrain(&dem);
    // 10000 cells ask for 5 cells a step, which is cut to 3.
    assert_eq!(terrain.skip_factor, 3);
    assert_eq!((terrain.mesh_width, terrain.mesh_height), (0, 3333));
    assert_eq!(terrain.elevation_data.len(), 3334);
    assert_eq!(terrain.elevation_data[3333], 9999);
    let dem = DigitalElevationModel::new(1, 16_385, 10, vec![0; 16_385], None).unwrap();
    // 16385 cells ask for 9 cells a step, which is cut to 6.
    assert_eq!(PrecomputedCatchment::create_optimized_terrain(&dem).skip_factor, 6);
}

#[test]
fn a_grid_of_2048_a_side_is_not_thinned() {
    let dem = DigitalElevationModel::new(2048, 1, 10, vec![0; 2048], None).unwrap();
    assert_eq!(PrecomputedCatchment::create_optimized_terrain(&dem).skip_factor, 1);
    let dem = DigitalElevationModel::new(2049, 1, 10, vec![0; 2049], None).unwrap();
    assert_eq!(PrecomputedCatchment::create_optimized_terrain(&dem).skip_factor, 2);
}

#[test]
fn a_catchment_is_analysed_from_its_grid() {
    let data = vec![
        9, 9, 9, 9, 9, 9, //
        9, 7, 6, 5, 4, 3, //
        9, 8, 1, 6, 5, 2, //
        9, 9, 9, 9, 9, 1,
    ];
    let dem = DigitalElevationModel::new(6, 4, 30, data, Some(-9999)).unwrap();
    let catchment = PrecomputedCatchment::from_dem(
        dem.clone(),
        "upper_valley".to_string(),
        "2024-05-01T12:00:00+00:00".to_string(),
    );
    assert_eq!(catchment.id, "upper_valley");
    assert_eq!(catchment.metadata.processing_timestamp, "2024-05-01T12:00:00+00:00");
    assert_eq!(
        (catchment.metadata.width, catchment.metadata.height, catchment.metadata.resolution),
        (6, 4, 30)
    );

    let mut filled = dem;
    filled.fill_sinks();
    // The pit of 1 is filled to the 5 through which it pours.
    assert_eq!(filled.get_elevation(2, 2), Some(5));
    assert_eq!(catchment.metadata.elevation_range, (1, 9));
    let mut model = FlowModel::new(filled);
    model.compute_flow_directions();
    model.compute_flow_accumulation().unwrap();

    let codes: Vec<u8> = model.flow_directions.iter().map(|d| d.code()).collect();
    assert_eq!(catchment.flow.flow_directions, codes);
    assert_eq!(catchment.flow.flow_accumulation, model.flow_accumulation);
    assert_eq!(catchment.flow.slopes, model.slopes);
    assert_eq!(catchment.flow.outlets, PrecomputedCatchment::find_outlets(&model));
    assert_eq!(catchment.streams.detailed, model.extract_high_quality_streams(10_000));
    assert_eq!(catchment.streams.medium, model.extract_high_quality_streams(50_000));
    assert_eq!(catchment.streams.major, model.extract_high_quality_streams(100_000));
    assert_eq!(catchment.water_viz.flow_accumulation, model.flow_accumulation);
    assert_eq!(catchment.water_viz.slopes, model.slopes);
    assert_eq!(catchment.terrain.skip_factor, 1);
    assert_eq!(catchment.terrain.elevation_data.len(), 7 * 5);
    assert_eq!(catchment.flow.slopes[6 + 4], Slope { drop: 2, diagonal: true });
    assert!(!catchment.streams.detailed.is_empty());
}
