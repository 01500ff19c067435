use watermodel::dem::DigitalElevationModel;
use watermodel::flow::{FlowDirection, FlowMethod, FlowModel, UNIT};
use watermodel::model::ModelError;

fn grid(width: usize, height: usize, data: Vec<i32>) -> DigitalElevationModel {
    DigitalElevationModel::new(width, height, 10, data, Some(i32::MIN)).unwrap()
}

fn analysed(width: usize, height: usize, data: Vec<i32>) -> FlowModel {
    let mut model = FlowModel::new(grid(width, height, data));
    model.compute_flow_directions();
    assert_eq!(model.compute_flow_accumulation(), Ok(()));
    model
}

fn ramp(width: usize, height: usize) -> Vec<i32> {
    let mut data = Vec::new();
    for _y in 0..height {
        for x in 0..width {
            data.push(((width - x) * 10) as i32);
        }
    }
    data
}

/// The number of cells from which following the flow reaches `(x, y)`.
fn cells_draining_through(model: &FlowModel, x: usize, y: usize) -> u64 {
    let mut count = 0;
    for sy in 0..model.dem.height {
        for sx in 0..model.dem.width {
            let mut cur = Some((sx, sy));
            while let Some((cx, cy)) = cur {
                if (cx, cy) == (x, y) {
                    count += 1;
                    break;
                }
                cur = model.get_downstream_cell(cx, cy);
            }
        }
    }
    count
}

#[test]
fn on_a_ramp_every_row_gathers_at_the_right() {
    let model = analysed(6, 4, ramp(6, 4));
    let mut right = 0;
    for y in 0..4 {
        for x in 0..6 {
            assert_eq!(model.get_flow_accumulation(x, y), Some(x as u64 + 1));
        }
        right += model.get_flow_accumulation(5, y).unwrap();
    }
    assert_eq!(right, 6 * 4);
}

#[test]
fn accumulation_counts_the_cells_upstream() {
    let data: Vec<i32> = (0..56).map(|i| ((i * 29 + 3) % 17) as i32).collect();
    let model = analysed(8, 7, data);
    for y in 0..7 {
        for x in 0..8 {
            assert_eq!(
                model.get_flow_accumulation(x, y),
                Some(cells_draining_through(&model, x, y))
            );
        }
    }
}

#[test]
fn every_cell_counts_at_least_itself() {
    let data: Vec<i32> = (0..90).map(|i| ((i * 41 + 7) % 19) as i32).collect();
    let model = analysed(10, 9, data);
    assert!(model.flow_accumulation.iter().all(|a| *a >= 1));
}

#[test]
fn the_outlets_hold_one_unit_per_cell() {
    let data: Vec<i32> = (0..90).map(|i| ((i * 41 + 7) % 19) as i32).collect();
    let model = analysed(10, 9, data);
    let mut at_outlets = 0;
    let mut passed_on = 0;
    for y in 0..9 {
        for x in 0..10 {
            let here = model.get_flow_accumulation(x, y).unwrap();
            if model.get_downstream_cell(x, y).is_none() {
                at_outlets += here;
            } else {
                passed_on += here;
            }
        }
    }
    assert_eq!(at_outlets, 90);
    let total: u64 = model.flow_accumulation.iter().sum();
    assert_eq!(total, 90 + passed_on);
}

#[test]
fn a_valley_gathers_both_slopes() {
    let data = vec![
        3, 2, 1, 2, 3, //
        3, 2, 0, 2, 3,
    ];
    let model = analysed(5, 2, data);
    // The cells beside the valley floor fall more steeply toward its lower end.
    assert_eq!(model.flow_accumulation, vec![1, 2, 1, 2, 1, 1, 2, 10, 2, 1]);
}

#[test]
fn cells_without_data_count_for_themselves_only() {
    let n = i32::MIN;
    let model = analysed(4, 1, vec![3, n, 2, 1]);
    assert_eq!(model.flow_accumulation, vec![1, 1, 1, 2]);
}

#[test]
fn before_routing_every_cell_stands_alone() {
    let mut model = FlowModel::new(grid(3, 2, vec![6, 5, 4, 3, 2, 1]));
    assert_eq!(model.compute_flow_accumulation(), Ok(()));
    assert_eq!(model.flow_accumulation, vec![1; 6]);
}

#[test]
fn accumulation_leaves_the_routing_alone() {
    let mut model = FlowModel::new(grid(3, 2, vec![6, 5, 4, 3, 2, 1]));
    model.compute_flow_directions();
    let directions = model.flow_directions.clone();
    let slopes = model.slopes.clone();
    model.compute_flow_accumulation_d8().unwrap();
    assert_eq!(model.flow_directions, directions);
    assert_eq!(model.slopes, slopes);
    assert_eq!(model.flow_method, FlowMethod::D8);
    assert_eq!(model.dem.data, vec![6, 5, 4, 3, 2, 1]);
}

/// The angles that point every cell at its steepest lower neighbour.
fn steepest_angles(model: &FlowModel) -> Vec<u32> {
    let mut angles = Vec::new();
    for y in 0..model.dem.height {
        for x in 0..model.dem.width {
            let (direction, _) = model.steepest_descent(x, y);
            angles.push(if direction == FlowDirection::NoFlow {
                0
            } else {
                direction.octant() as u32 * UNIT
            });
        }
    }
    angles
}

#[test]
fn flow_routed_toward_the_steepest_neighbour_accumulates_like_steepest_descent() {
    let data: Vec<i32> = (0..56).map(|i| ((i * 29 + 3) % 17) as i32).collect();
    let d8 = analysed(8, 7, data.clone());
    let mut dinf = FlowModel::new(grid(8, 7, data));
    let angles = steepest_angles(&dinf);
    assert!(dinf.compute_flow_directions_dinf(&angles));
    assert_eq!(dinf.compute_flow_accumulation(), Ok(()));
    assert_eq!(dinf.accumulation_unit(), UNIT as u64);
    assert_eq!(d8.accumulation_unit(), 1);
    let in_millionths: Vec<u64> = d8.flow_accumulation.iter().map(|a| a * UNIT as u64).collect();
    assert_eq!(dinf.flow_accumulation, in_millionths);
}

#[test]
fn flow_routed_by_angle_is_divided_and_counted_in_millionths() {
    let mut model = FlowModel::new(grid(2, 2, vec![4, 1, 4, 0]));
    assert!(model.compute_flow_directions_dinf(&vec![409_666, 2 * UNIT, 0, 0]));
    assert_eq!(model.compute_flow_accumulation_dinf(), Ok(()));
    // Cell 0 gives 0.590334 east and 0.409666 south-east; all ends in cell 3.
    assert_eq!(model.flow_accumulation, vec![1_000_000, 1_590_334, 1_000_000, 4_000_000]);
}

#[test]
fn water_that_has_nowhere_to_go_is_kept() {
    // East of cell 0 lies higher: its 0.75 toward the east stay where they are.
    let mut model = FlowModel::new(grid(2, 2, vec![4, 9, 4, 0]));
    assert!(model.compute_flow_directions_dinf(&vec![250_000, 6 * UNIT, 0, 0]));
    assert_eq!(model.compute_flow_accumulation(), Ok(()));
    assert_eq!(model.flow_accumulation, vec![1_000_000, 1_000_000, 1_000_000, 2_250_000]);
}

#[test]
fn flow_routed_by_angle_on_a_ramp() {
    let mut model = FlowModel::new(grid(5, 3, ramp(5, 3)));
    assert!(model.compute_flow_directions_dinf(&vec![0; 15]));
    assert_eq!(model.compute_flow_accumulation_dinf(), Ok(()));
    for y in 0..3 {
        for x in 0..5 {
            assert_eq!(model.get_flow_accumulation(x, y), Some((x as u64 + 1) * 1_000_000));
        }
    }
}

#[test]
fn without_shares_routing_by_angle_counts_nothing() {
    let mut model = FlowModel::new(grid(3, 1, vec![3, 2, 1]));
    model.flow_method = FlowMethod::DInf;
    assert_eq!(model.compute_flow_accumulation(), Err(ModelError::NotCountable));
    assert_eq!(model.flow_accumulation, vec![0; 3]);
    assert_eq!(model.compute_flow_accumulation_dinf(), Err(ModelError::NotCountable));
    assert_eq!(model.flow_accumulation, vec![0; 3]);
}

#[test]
fn a_circle_of_flow_is_reported() {
    let mut model = FlowModel::new(grid(2, 1, vec![5, 5]));
    model.flow_directions = vec![FlowDirection::East, FlowDirection::West];
    assert!(!model.is_well_formed());
    assert_eq!(model.compute_flow_accumulation(), Err(ModelError::IllFormedRouting));
    assert_eq!(model.flow_accumulation, vec![0; 2]);
    assert_eq!(model.flow_directions, vec![FlowDirection::East, FlowDirection::West]);
    // Downhill one way and back uphill the other.
    let mut model = FlowModel::new(grid(2, 1, vec![5, 4]));
    model.flow_directions = vec![FlowDirection::East, FlowDirection::West];
    assert_eq!(model.compute_flow_accumulation(), Err(ModelError::IllFormedRouting));
    // Off the grid.
    let mut model = FlowModel::new(grid(2, 1, vec![5, 4]));
    model.flow_directions = vec![FlowDirection::East, FlowDirection::East];
    assert_eq!(model.compute_flow_accumulation(), Err(ModelError::IllFormedRouting));
}

#[test]
fn steepest_descent_reports_a_circle_itself() {
    let mut model = FlowModel::new(grid(2, 1, vec![5, 5]));
    model.flow_directions = vec![FlowDirection::East, FlowDirection::West];
    assert_eq!(model.compute_flow_accumulation_d8(), Err(ModelError::IllFormedRouting));
    assert_eq!(model.flow_accumulation, vec![0; 2]);
    assert_eq!(model.flow_directions, vec![FlowDirection::East, FlowDirection::West]);
    // A circle of four around a level square.
    let mut model = FlowModel::new(grid(2, 2, vec![7, 7, 7, 7]));
    model.flow_directions = vec![
        FlowDirection::East,
        FlowDirection::South,
        FlowDirection::North,
        FlowDirection::West,
    ];
    assert_eq!(model.compute_flow_accumulation_d8(), Err(ModelError::IllFormedRouting));
    assert_eq!(model.flow_accumulation, vec![0; 4]);
    // An array that does not fit the grid.
    let mut model = FlowModel::new(grid(2, 1, vec![5, 4]));
    model.flow_directions = vec![FlowDirection::East];
    assert_eq!(model.compute_flow_accumulation_d8(), Err(ModelError::IllFormedRouting));
    // The same grid, routed downhill.
    let mut model = FlowModel::new(grid(2, 1, vec![5, 4]));
    model.flow_directions = vec![FlowDirection::East, FlowDirection::NoFlow];
    assert_eq!(model.compute_flow_accumulation_d8(), Ok(()));
    assert_eq!(model.flow_accumulation, vec![1, 2]);
}

#[test]
fn the_sharing_methods_report_an_ill_formed_model() {
    let mut model = FlowModel::new(grid(2, 1, vec![5, 4]));
    assert!(model.compute_flow_directions_dinf(&vec![0, 0]));
    // Water sent uphill by hand.
    model.dinf_flow_proportions.as_mut().unwrap()[1] = vec![0, 0, 0, 0, UNIT, 0, 0, 0];
    assert_eq!(model.compute_flow_accumulation_dinf(), Err(ModelError::IllFormedRouting));
    assert_eq!(model.compute_flow_accumulation(), Err(ModelError::IllFormedRouting));
    assert_eq!(model.flow_accumulation, vec![0; 2]);
    let mut model = FlowModel::new(grid(2, 1, vec![5, 4]));
    model.flow_method = FlowMethod::MFD;
    model.mfd_flow_proportions = Some(vec![vec![0; 8], vec![0, 0, 0, 0, UNIT, 0, 0, 0]]);
    assert_eq!(model.compute_flow_accumulation_mfd(), Err(ModelError::IllFormedRouting));
    assert_eq!(model.compute_flow_accumulation_mfd_in(3), Err(ModelError::IllFormedRouting));
    assert_eq!(model.flow_accumulation, vec![0; 2]);
}

#[test]
fn a_well_formed_model_is_counted() {
    let mut model = FlowModel::new(grid(6, 4, ramp(6, 4)));
    model.compute_flow_directions();
    assert_eq!(model.compute_flow_accumulation(), Ok(()));
    assert_eq!(model.get_flow_accumulation(5, 2), Some(6));
    let mut by_hand = FlowModel::new(grid(3, 1, vec![3, 2, 1]));
    by_hand.flow_directions = vec![FlowDirection::East, FlowDirection::East, FlowDirection::NoFlow];
    assert_eq!(by_hand.compute_flow_accumulation(), Ok(()));
    assert_eq!(by_hand.flow_accumulation, vec![1, 2, 3]);
}

#[test]
fn a_model_without_its_shares_is_not_countable() {
    let mut model = FlowModel::new(grid(3, 1, vec![3, 2, 1]));
    model.flow_method = FlowMethod::MFD;
    assert_eq!(model.compute_flow_accumulation(), Err(ModelError::NotCountable));
    model.flow_method = FlowMethod::DInf;
    assert_eq!(model.compute_flow_accumulation(), Err(ModelError::NotCountable));
    assert_eq!(model.flow_accumulation, vec![0; 3]);
}

#[test]
fn without_shares_sharing_among_all_neighbours_counts_nothing() {
    let mut model = FlowModel::new(grid(3, 1, vec![3, 2, 1]));
    model.compute_flow_directions();
    model.flow_method = FlowMethod::MFD;
    assert_eq!(model.compute_flow_accumulation(), Err(ModelError::NotCountable));
    assert_eq!(model.flow_accumulation, vec![0; 3]);
    assert_eq!(model.compute_flow_accumulation_mfd(), Err(ModelError::NotCountable));
    assert_eq!(model.flow_accumulation, vec![0; 3]);
}

#[test]
fn a_large_flat_free_grid_is_swept_whole() {
    let (w, h) = (60, 50);
    let mut data = Vec::new();
    for y in 0..h {
        for x in 0..w {
            data.push((x + y) as i32);
        }
    }
    let model = analysed(w, h, data);
    // Everything drains to the corner at the origin.
    assert_eq!(model.get_flow_accumulation(0, 0), Some((w * h) as u64));
}

#[test]
fn no_more_passes_through_a_cell_than_the_grid_holds() {
    let data: Vec<i32> = (0..56).map(|i| ((i * 29 + 3) % 17) as i32).collect();
    let mut model = FlowModel::new(grid(8, 7, data));
    let angles: Vec<u32> = (0..56).map(|i| ((i * 1_234_567) % (8 * UNIT as usize)) as u32).collect();
    assert!(model.compute_flow_directions_dinf(&angles));
    assert_eq!(model.compute_flow_accumulation(), Ok(()));
    for held in &model.flow_accumulation {
        assert!(*held >= 1_000_000);
        assert!(*held <= 56 * 1_000_000);
    }
}
