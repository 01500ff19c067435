use watermodel::dem::DigitalElevationModel;
use watermodel::flow::{FlowDirection, FlowModel, Slope};
use watermodel::visualization::{
    generate_stream_network, generate_visualization_data, is_stream_feature,
    smooth_stream_polylines, WaterFlowVisualizationData,
};

fn ramp_model(width: usize, height: usize) -> FlowModel {
    let mut data = Vec::new();
    for _y in 0..height {
        for x in 0..width {
            data.push((width - x) as i32);
        }
    }
    let dem = DigitalElevationModel::new(width, height, 10, data, None).unwrap();
    let mut model = FlowModel::new(dem);
    model.compute_flow_directions();
    assert_eq!(model.compute_flow_accumulation(), Ok(()));
    model
}

fn valley_model() -> FlowModel {
    let data = vec![
        3, 2, 1, 2, 3, //
        3, 2, 0, 2, 3,
    ];
    let dem = DigitalElevationModel::new(5, 2, 10, data, None).unwrap();
    let mut model = FlowModel::new(dem);
    model.compute_flow_directions();
    assert_eq!(model.compute_flow_accumulation(), Ok(()));
    model
}

#[test]
fn corners_are_cut_at_a_quarter_and_three_quarters() {
    let mut lines = vec![vec![(0, 0), (4, 0), (4, 4)]];
    smooth_stream_polylines(&mut lines, 1);
    assert_eq!(lines, vec![vec![(0, 0), (1, 0), (3, 0), (4, 1), (4, 3), (4, 4)]]);
}

#[test]
fn cut_points_are_rounded_down() {
    let mut lines = vec![vec![(1, 7), (2, 5), (3, 3)]];
    smooth_stream_polylines(&mut lines, 1);
    // (3 * 1 + 2) / 4 = 1, (3 * 7 + 5) / 4 = 6, and so on.
    assert_eq!(lines, vec![vec![(1, 7), (1, 6), (1, 5), (2, 4), (2, 3), (3, 3)]]);
}

#[test]
fn cut_points_stay_on_their_segment() {
    let mut lines = vec![vec![(5, 5), (6, 5), (7, 5)]];
    smooth_stream_polylines(&mut lines, 1);
    assert_eq!(lines, vec![vec![(5, 5), (5, 5), (5, 5), (6, 5), (6, 5), (7, 5)]]);
    let mut lines = vec![vec![(1, 1), (1, 1), (1, 1)]];
    smooth_stream_polylines(&mut lines, 3);
    assert_eq!(lines, vec![vec![(1, 1); 24]]);
}

#[test]
fn smoothing_stays_inside_the_box_of_the_line() {
    for rounds in 0..5 {
        let mut lines = vec![
            vec![(5, 9), (1, 1), (7, 3), (2, 8)],
            vec![(3, 100), (4, 7), (90, 8), (5, 5), (6, 99)],
            vec![(usize::MAX, 0), (0, usize::MAX), (usize::MAX, usize::MAX)],
        ];
        let before = lines.clone();
        smooth_stream_polylines(&mut lines, rounds);
        for (line, old) in lines.iter().zip(before.iter()) {
            let low = (old.iter().map(|p| p.0).min().unwrap(), old.iter().map(|p| p.1).min().unwrap());
            let high = (old.iter().map(|p| p.0).max().unwrap(), old.iter().map(|p| p.1).max().unwrap());
            for point in line {
                assert!(low.0 <= point.0 && point.0 <= high.0);
                assert!(low.1 <= point.1 && point.1 <= high.1);
            }
        }
    }
}

#[test]
fn every_round_doubles_the_points() {
    let mut lines = vec![vec![(0, 0), (8, 0), (8, 8), (16, 8)]];
    smooth_stream_polylines(&mut lines, 3);
    assert_eq!(lines[0].len(), 32);
    assert_eq!(lines[0][0], (0, 0));
    assert_eq!(lines[0][31], (16, 8));
}

#[test]
fn two_rounds_cut_the_cut_line() {
    let mut twice = vec![vec![(0, 0), (16, 0), (16, 16)]];
    smooth_stream_polylines(&mut twice, 2);
    let mut step = vec![vec![(0, 0), (16, 0), (16, 16)]];
    smooth_stream_polylines(&mut step, 1);
    smooth_stream_polylines(&mut step, 1);
    assert_eq!(twice, step);
    assert_eq!(
        twice[0],
        vec![
            (0, 0),
            (1, 0),
            (3, 0),
            (6, 0),
            (10, 0),
            (13, 1),
            (15, 3),
            (16, 6),
            (16, 10),
            (16, 13),
            (16, 15),
            (16, 16)
        ]
    );
}

#[test]
fn smoothing_keeps_the_ends() {
    for rounds in 0..6 {
        let mut lines = vec![
            vec![(5, 9), (1, 1), (7, 3), (2, 8)],
            vec![(0, 0), (100, 3), (7, 7)],
            vec![(3, 3), (3, 3), (3, 3)],
        ];
        let before = lines.clone();
        smooth_stream_polylines(&mut lines, rounds);
        assert_eq!(lines.len(), 3);
        for (line, old) in lines.iter().zip(before.iter()) {
            assert_eq!(line.first(), old.first());
            assert_eq!(line.last(), old.last());
        }
    }
}

#[test]
fn short_lines_are_left_alone() {
    let mut lines = vec![vec![], vec![(1, 2)], vec![(1, 2), (9, 9)]];
    smooth_stream_polylines(&mut lines, 4);
    assert_eq!(lines, vec![vec![], vec![(1, 2)], vec![(1, 2), (9, 9)]]);
}

#[test]
fn no_rounds_no_change() {
    let mut lines = vec![vec![(0, 0), (4, 0), (4, 4)]];
    smooth_stream_polylines(&mut lines, 0);
    assert_eq!(lines, vec![vec![(0, 0), (4, 0), (4, 4)]]);
    let mut none: Vec<Vec<(usize, usize)>> = Vec::new();
    smooth_stream_polylines(&mut none, 3);
    assert!(none.is_empty());
}

#[test]
fn the_largest_coordinates_do_not_overflow() {
    let m = usize::MAX;
    let mut lines = vec![vec![(m, m), (m, 0), (0, m)]];
    smooth_stream_polylines(&mut lines, 1);
    let three_quarters = ((m as u128) * 3 / 4) as usize;
    let quarter = m / 4;
    assert_eq!(
        lines[0],
        vec![
            (m, m),
            (m, three_quarters),
            (m, quarter),
            (three_quarters, quarter),
            (quarter, three_quarters),
            (0, m)
        ]
    );
}

#[test]
fn a_stream_network_runs_row_by_row_and_stops_before_what_is_claimed() {
    let model = ramp_model(6, 2);
    assert_eq!(
        generate_stream_network(&model, 500_000, 0),
        vec![
            vec![(2, 0), (3, 0), (4, 0), (5, 0)],
            vec![(2, 1), (3, 1), (4, 1), (5, 1)]
        ]
    );
    assert_eq!(generate_stream_network(&model, 1_000_001, 0), Vec::<Vec<(usize, usize)>>::new());
    // Only the outlets carry the largest accumulation, and a line of one cell is dropped.
    assert_eq!(generate_stream_network(&model, 1_000_000, 0), Vec::<Vec<(usize, usize)>>::new());
}

#[test]
fn a_stream_network_stops_before_a_cell_below_the_threshold() {
    let mut model = ramp_model(5, 1);
    model.flow_accumulation = vec![9, 1, 8, 7, 0];
    assert_eq!(generate_stream_network(&model, 500_000, 0), vec![vec![(2, 0), (3, 0)]]);
}

#[test]
fn a_stream_network_is_smoothed() {
    let model = ramp_model(9, 1);
    let raw = generate_stream_network(&model, 700_000, 0);
    assert_eq!(raw, vec![vec![(6, 0), (7, 0), (8, 0)]]);
    let smooth = generate_stream_network(&model, 700_000, 1);
    assert_eq!(smooth, vec![vec![(6, 0), (6, 0), (6, 0), (7, 0), (7, 0), (8, 0)]]);
}

#[test]
fn where_streams_join_is_worth_marking() {
    let model = valley_model();
    assert!(is_stream_feature(&model, 2, 1));
    // One tributary that brings less than four fifths, and 1 + 0 is no multiple of 20.
    assert!(!is_stream_feature(&model, 1, 0));
    assert!(is_stream_feature(&model, 0, 0));
}

#[test]
fn a_strong_tributary_is_worth_marking() {
    let model = ramp_model(8, 1);
    let marks: Vec<bool> = (0..8).map(|x| is_stream_feature(&model, x, 0)).collect();
    // Cell 0 for its place; from accumulation 6 on the tributary brings more than four fifths.
    assert_eq!(marks, vec![true, false, false, false, false, true, true, true]);
}

#[test]
fn every_twentieth_diagonal_is_worth_marking() {
    let dem = DigitalElevationModel::new(25, 25, 10, vec![0; 625], None).unwrap();
    let model = FlowModel::new(dem);
    for y in 0..25 {
        for x in 0..25 {
            assert_eq!(is_stream_feature(&model, x, y), (x + y) % 20 == 0);
        }
    }
}

#[test]
fn empty_drawing_data() {
    let data = WaterFlowVisualizationData::new(3, 2).unwrap();
    assert_eq!((data.width, data.height), (3, 2));
    assert_eq!(data.flow_accumulation, vec![0; 6]);
    assert_eq!(data.slopes, vec![Slope::flat(); 6]);
    assert!(data.spawn_points.is_empty());
    assert!(WaterFlowVisualizationData::new(usize::MAX, 2).is_none());
    assert!(WaterFlowVisualizationData::new(0, 5).unwrap().flow_accumulation.is_empty());
}

#[test]
fn drawing_data_copies_the_model_and_marks_the_streams() {
    let model = ramp_model(8, 1);
    let data = generate_visualization_data(&model);
    assert_eq!((data.width, data.height), (8, 1));
    assert_eq!(data.flow_accumulation, model.flow_accumulation);
    assert_eq!(data.slopes, model.slopes);
    // The outlet is worth marking but its water does not flow on.
    assert_eq!(data.spawn_points, vec![(0, 0), (5, 0), (6, 0)]);
}

#[test]
fn cells_that_carry_a_hundredth_or_less_release_nothing() {
    let model = ramp_model(300, 1);
    let data = generate_visualization_data(&model);
    // A hundredth of 300 is 3; cell 0 carries 1 and cells 1 to 4 have weak tributaries.
    assert_eq!(data.spawn_points.first(), Some(&(5, 0)));
    assert_eq!(data.spawn_points.len(), 294);
    assert_eq!(data.spawn_points.last(), Some(&(298, 0)));
}

#[test]
fn cells_without_data_release_nothing() {
    let n = i32::MIN;
    let dem = DigitalElevationModel::new(3, 1, 10, vec![n, 2, 1], Some(n)).unwrap();
    let mut model = FlowModel::new(dem);
    model.compute_flow_directions();
    model.compute_flow_accumulation().unwrap();
    model.flow_directions[0] = FlowDirection::NoFlow;
    let data = generate_visualization_data(&model);
    assert_eq!(data.spawn_points, Vec::<(usize, usize)>::new());
}

#[test]
fn at_most_1000_points_release_particles() {
    let model = ramp_model(1100, 1);
    let data = generate_visualization_data(&model);
    assert_eq!(data.spawn_points.len(), 1000);
    for (k, point) in data.spawn_points.iter().enumerate() {
        assert_eq!(*point, (1098 - k, 0));
    }
}
