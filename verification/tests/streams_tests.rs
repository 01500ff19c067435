use watermodel::dem::DigitalElevationModel;
use watermodel::flow::{FlowModel, UNIT};
use watermodel::sorting::ranked_indices;
use watermodel::streams::portion_of;

fn ramp_model(width: usize, height: usize) -> FlowModel {
    let mut data = Vec::new();
    for _y in 0..height {
        for x in 0..width {
            data.push((width - x) as i32);
        }
    }
    let dem = DigitalElevationModel::new(width, height, 10, data, None).unwrap();
    let mut model = FlowModel::new(dem);
    model.compute_flow_directions();
    assert_eq!(model.compute_flow_accumulation(), Ok(()));
    model
}

fn with_accumulation(width: usize, accumulation: Vec<u64>) -> FlowModel {
    let mut model = ramp_model(width, 1);
    model.flow_accumulation = accumulation;
    model
}

#[test]
fn a_portion_is_rounded_up() {
    assert_eq!(portion_of(100, 50_000), Some(5));
    assert_eq!(portion_of(101, 50_000), Some(6));
    assert_eq!(portion_of(200, 10_000), Some(2));
    assert_eq!(portion_of(6, 500_000), Some(3));
    assert_eq!(portion_of(7, 500_000), Some(4));
    assert_eq!(portion_of(0, 777), Some(0));
    assert_eq!(portion_of(10, 0), Some(0));
    assert_eq!(portion_of(10, UNIT), Some(10));
    assert_eq!(portion_of(10, UNIT + 1), Some(11));
    assert_eq!(portion_of(u64::MAX, UNIT), Some(u64::MAX));
}

#[test]
fn a_portion_that_does_not_fit_is_none() {
    assert_eq!(portion_of(u64::MAX, UNIT + 1), None);
    assert_eq!(portion_of(u64::MAX, u32::MAX), None);
}

#[test]
fn ranked_indices_sort_from_the_largest_down() {
    assert_eq!(ranked_indices(&vec![3, 9, 1, 7], 0), vec![1, 3, 0, 2]);
    assert_eq!(ranked_indices(&vec![1, 2, 3, 4, 5], 0), vec![4, 3, 2, 1, 0]);
    assert_eq!(ranked_indices(&vec![], 0), Vec::<usize>::new());
}

#[test]
fn ranked_indices_keep_equals_in_place() {
    assert_eq!(ranked_indices(&vec![5, 7, 5, 7, 5], 0), vec![1, 3, 0, 2, 4]);
    assert_eq!(ranked_indices(&vec![u64::MAX, 0, u64::MAX], 0), vec![0, 2, 1]);
}

#[test]
fn ranked_indices_leave_out_what_is_below_the_threshold() {
    assert_eq!(ranked_indices(&vec![3, 9, 1, 7], 3), vec![1, 3, 0]);
    assert_eq!(ranked_indices(&vec![3, 9, 1, 7], 8), vec![1]);
    assert_eq!(ranked_indices(&vec![3, 9, 1, 7], 10), Vec::<usize>::new());
}

#[test]
fn the_largest_accumulation() {
    assert_eq!(ramp_model(6, 4).max_accumulation(), 6);
    assert_eq!(with_accumulation(4, vec![2, 9, 9, 3]).max_accumulation(), 9);
    assert_eq!(with_accumulation(3, vec![0, 0, 0]).max_accumulation(), 0);
}

#[test]
fn stream_cells_come_row_by_row() {
    let model = ramp_model(6, 3);
    assert_eq!(
        model.extract_stream_network(5),
        vec![(4, 0), (5, 0), (4, 1), (5, 1), (4, 2), (5, 2)]
    );
    assert_eq!(model.extract_stream_network(7), Vec::<(usize, usize)>::new());
    assert_eq!(model.extract_stream_network(0).len(), 18);
    assert_eq!(model.cells_at_or_above(5), vec![4, 5, 10, 11, 16, 17]);
}

#[test]
fn major_streams_by_share_of_the_largest() {
    let model = ramp_model(6, 2);
    assert_eq!(
        model.get_major_streams(500_000),
        vec![(2, 0), (3, 0), (4, 0), (5, 0), (2, 1), (3, 1), (4, 1), (5, 1)]
    );
    assert_eq!(model.get_major_streams(UNIT), vec![(5, 0), (5, 1)]);
    assert_eq!(model.get_major_streams(UNIT + 1), Vec::<(usize, usize)>::new());
    assert_eq!(model.get_major_streams(0).len(), 12);
    // Five sixths of 6 is 5 exactly; a millionth more asks for 6.
    assert_eq!(model.get_major_streams(833_333).len(), 4);
    assert_eq!(model.get_major_streams(833_334).len(), 2);
}

#[test]
fn cells_are_ranked_from_the_largest_accumulation_down() {
    let model = with_accumulation(5, vec![4, 9, 4, 1, 9]);
    assert_eq!(model.rank_cells(4), vec![1, 4, 0, 2]);
    assert_eq!(model.rank_cells(0), vec![1, 4, 0, 2, 3]);
    assert_eq!(model.rank_cells(10), Vec::<usize>::new());
}

#[test]
fn a_threshold_above_every_cell_gives_no_lines() {
    let model = ramp_model(6, 4);
    let most = model.max_accumulation();
    assert_eq!(model.trace_streams(most + 1), Vec::<Vec<(usize, usize)>>::new());
    assert_eq!(model.extract_high_quality_streams(UNIT + 1), Vec::<Vec<(usize, usize)>>::new());
    assert_eq!(model.trace_streams(u64::MAX), Vec::<Vec<(usize, usize)>>::new());
}

#[test]
fn lines_start_at_the_largest_accumulation_and_join_what_is_claimed() {
    let model = ramp_model(6, 1);
    let lines = model.trace_streams(3);
    assert_eq!(
        lines,
        vec![vec![(4, 0), (5, 0)], vec![(3, 0), (4, 0)], vec![(2, 0), (3, 0)]]
    );
    assert_eq!(model.extract_high_quality_streams(500_000), lines);
}

#[test]
fn a_line_runs_on_through_unclaimed_cells_and_ends_below_the_threshold() {
    let model = with_accumulation(5, vec![9, 1, 8, 7, 0]);
    assert_eq!(
        model.trace_streams(5),
        vec![vec![(0, 0), (1, 0)], vec![(2, 0), (3, 0), (4, 0)]]
    );
}

#[test]
fn a_line_ends_at_the_outlet() {
    let model = with_accumulation(4, vec![9, 8, 7, 6]);
    assert_eq!(model.trace_streams(6), vec![vec![(0, 0), (1, 0), (2, 0), (3, 0)]]);
}

#[test]
fn every_line_has_two_points_at_least_and_follows_the_flow() {
    let data: Vec<i32> = (0..120).map(|i| ((i * 29 + 3) % 17) as i32).collect();
    let mut dem = DigitalElevationModel::new(12, 10, 10, data, None).unwrap();
    dem.fill_sinks();
    let mut model = FlowModel::new(dem);
    model.compute_flow_directions();
    model.compute_flow_accumulation().unwrap();
    let lines = model.trace_streams(2);
    assert!(!lines.is_empty());
    let mut claimed = std::collections::HashSet::new();
    for line in &lines {
        assert!(line.len() >= 2);
        for k in 0..line.len() - 1 {
            let (x, y) = line[k];
            assert_eq!(model.get_downstream_cell(x, y), Some(line[k + 1]));
            assert!(model.get_flow_accumulation(x, y).unwrap() >= 2);
            assert!(claimed.insert(line[k]));
        }
    }
    // Every cell that carries enough and flows on lies on a line.
    for y in 0..10 {
        for x in 0..12 {
            if model.get_flow_accumulation(x, y).unwrap() >= 2
                && model.get_downstream_cell(x, y).is_some()
            {
                assert!(claimed.contains(&(x, y)));
            }
        }
    }
}

#[test]
fn tracing_from_given_seeds() {
    let model = with_accumulation(5, vec![9, 1, 8, 7, 0]);
    // Joining the cell that ends a line.
    assert_eq!(
        model.trace_lines(5, &vec![2, 0, 3], true),
        vec![vec![(2, 0), (3, 0), (4, 0)], vec![(0, 0), (1, 0)]]
    );
    // Stopping before it.
    assert_eq!(model.trace_lines(5, &vec![2, 0, 3], false), vec![vec![(2, 0), (3, 0)]]);
    assert_eq!(model.trace_lines(5, &vec![], true), Vec::<Vec<(usize, usize)>>::new());
}

#[test]
fn the_weight_of_a_line() {
    let model = ramp_model(6, 1);
    assert_eq!(model.calculate_polyline_importance(&vec![]), 0);
    assert_eq!(model.calculate_polyline_importance(&vec![(3, 0)]), 24);
    assert_eq!(model.calculate_polyline_importance(&vec![(0, 0), (1, 0)]), 9);
    assert_eq!(model.calculate_polyline_importance(&vec![(0, 0), (1, 0), (2, 0)]), 12);
    assert_eq!(model.calculate_polyline_importance(&vec![(0, 0), (1, 0), (2, 0), (3, 0)]), 12);
    assert_eq!(
        model.calculate_polyline_importance(&vec![(0, 0), (1, 0), (2, 0), (3, 0), (4, 0), (5, 0)]),
        18
    );
    // A point outside the grid weighs nothing.
    assert_eq!(model.calculate_polyline_importance(&vec![(9, 9), (5, 0)]), 18);
    assert_eq!(
        model.calculate_polyline_importance(&vec![(usize::MAX, usize::MAX), (5, 0)]),
        18
    );
}

#[test]
fn the_weight_of_a_line_is_capped() {
    let model = with_accumulation(3, vec![u64::MAX, u64::MAX, u64::MAX]);
    assert_eq!(model.calculate_polyline_importance(&vec![(0, 0), (1, 0), (2, 0)]), u64::MAX);
}

#[test]
fn the_weightiest_lines_are_kept_first() {
    let model = ramp_model(6, 1);
    let lines = vec![
        vec![(0, 0), (1, 0)],
        vec![(4, 0), (5, 0)],
        vec![(2, 0), (3, 0)],
        vec![(5, 0), (4, 0)],
    ];
    assert_eq!(
        model.select_streams(&lines, 10),
        vec![
            vec![(4, 0), (5, 0)],
            vec![(5, 0), (4, 0)],
            vec![(2, 0), (3, 0)],
            vec![(0, 0), (1, 0)]
        ]
    );
    assert_eq!(
        model.select_streams(&lines, 2),
        vec![vec![(4, 0), (5, 0)], vec![(5, 0), (4, 0)]]
    );
    assert_eq!(model.select_streams(&lines, 0), Vec::<Vec<(usize, usize)>>::new());
}

#[test]
fn two_levels_of_detail_the_coarser_first() {
    let model = ramp_model(40, 1);
    let levels = model.extract_hierarchical_streams();
    assert_eq!(levels.len(), 2);
    assert_eq!(levels[0].1, 2);
    assert_eq!(levels[1].1, 1);
    // Cells 1 to 39 carry 2 or more; the outlet starts no line of its own.
    assert_eq!(levels[0].0.len(), 38);
    assert_eq!(levels[1].0.len(), 39);
    assert_eq!(levels[0].0[0], vec![(38, 0), (39, 0)]);
    assert_eq!(levels[0].0[37], vec![(1, 0), (2, 0)]);
    assert_eq!(levels[1].0[38], vec![(0, 0), (1, 0)]);
}

#[test]
fn each_level_keeps_150_lines_at_most() {
    let model = ramp_model(400, 1);
    let levels = model.extract_hierarchical_streams();
    assert_eq!(levels[0].1, 20);
    assert_eq!(levels[1].1, 4);
    assert_eq!(levels[0].0.len(), 150);
    assert_eq!(levels[1].0.len(), 150);
    for level in &levels {
        for (k, line) in level.0.iter().enumerate() {
            assert_eq!(*line, vec![(398 - k, 0), (399 - k, 0)]);
        }
    }
}

#[test]
fn before_accumulation_every_cell_reaches_the_zero_threshold() {
    let dem = DigitalElevationModel::new(3, 1, 10, vec![3, 2, 1], None).unwrap();
    let mut model = FlowModel::new(dem);
    model.compute_flow_directions();
    let levels = model.extract_hierarchical_streams();
    assert_eq!(levels[0].1, 0);
    assert_eq!(levels[0].0, vec![vec![(0, 0), (1, 0), (2, 0)]]);
}

#[test]
fn levels_of_detail_as_asked_for() {
    let model = ramp_model(40, 1);
    let levels = model.extract_stream_levels(&vec![500_000, 250_000, 0], 3);
    assert_eq!(levels.len(), 3);
    assert_eq!(levels[0].1, 20);
    assert_eq!(levels[1].1, 10);
    assert_eq!(levels[2].1, 0);
    for level in &levels {
        assert_eq!(
            level.0,
            vec![vec![(38, 0), (39, 0)], vec![(37, 0), (38, 0)], vec![(36, 0), (37, 0)]]
        );
    }
    assert_eq!(model.extract_stream_levels(&vec![], 3).len(), 0);
    assert_eq!(model.extract_stream_levels(&vec![500_000], 0)[0].0.len(), 0);
    assert_eq!(model.extract_stream_levels(&vec![500_000], usize::MAX)[0].0.len(), 20);
}

#[test]
fn a_share_above_the_whole_gives_an_empty_level() {
    let model = ramp_model(40, 1);
    let levels = model.extract_stream_levels(&vec![1_000_001, u32::MAX], 150);
    assert_eq!(levels[0].1, 41);
    assert!(levels[0].0.is_empty());
    assert_eq!(levels[1].1, 171_799);
    assert!(levels[1].0.is_empty());
    let mut huge = ramp_model(3, 1);
    huge.flow_accumulation = vec![u64::MAX, 1, 1];
    let levels = huge.extract_stream_levels(&vec![2_000_000], 150);
    assert_eq!(levels[0].1, u64::MAX);
    assert!(levels[0].0.is_empty());
}

#[test]
fn lines_meet_only_where_one_of_them_ends() {
    // A basin: everything drains toward the middle of the bottom row.
    let (width, height) = (9usize, 7usize);
    let mut data = Vec::new();
    for y in 0..height {
        for x in 0..width {
            let off = if x > 4 { x - 4 } else { 4 - x };
            data.push((3 * off + 2 * (height - y)) as i32);
        }
    }
    let dem = DigitalElevationModel::new(width, height, 10, data, None).unwrap();
    let mut model = FlowModel::new(dem);
    model.compute_flow_directions();
    assert_eq!(model.compute_flow_accumulation(), Ok(()));
    for threshold in [1u64, 2, 3, 5, 8] {
        let lines = model.trace_streams(threshold);
        assert!(!lines.is_empty());
        let mut passed = std::collections::HashSet::new();
        for line in &lines {
            assert!(line.len() >= 2);
            for point in &line[..line.len() - 1] {
                assert!(passed.insert(*point), "{:?} is passed twice", point);
            }
        }
    }
}
