use watermodel::dem::{DemError, DigitalElevationModel};
use watermodel::direction::FlowDirection;
use watermodel::heap::{PriorityItem, PriorityQueue};

fn grid(width: usize, height: usize, data: Vec<i32>) -> DigitalElevationModel {
    DigitalElevationModel::new(width, height, 10, data, Some(i32::MIN)).unwrap()
}

#[test]
fn new_keeps_what_it_is_given() {
    let dem = DigitalElevationModel::new(3, 2, 25, vec![1, 2, 3, 4, 5, 6], Some(-9999)).unwrap();
    assert_eq!(dem.width(), 3);
    assert_eq!(dem.height(), 2);
    assert_eq!(dem.width, 3);
    assert_eq!(dem.height, 2);
    assert_eq!(dem.resolution, 25);
    assert_eq!(dem.data, vec![1, 2, 3, 4, 5, 6]);
    assert_eq!(dem.no_data_value, Some(-9999));
}

#[test]
fn new_rejects_a_grid_without_columns() {
    let r = DigitalElevationModel::new(0, 2, 10, vec![], None);
    assert!(matches!(r, Err(DemError::InvalidData(_))));
}

#[test]
fn new_rejects_a_grid_without_rows() {
    let r = DigitalElevationModel::new(2, 0, 10, vec![], None);
    assert!(matches!(r, Err(DemError::InvalidData(_))));
}

#[test]
fn new_rejects_a_zero_cell_size() {
    let r = DigitalElevationModel::new(2, 2, 0, vec![1, 2, 3, 4], None);
    assert!(matches!(r, Err(DemError::InvalidData(_))));
}

#[test]
fn new_rejects_a_buffer_of_the_wrong_length() {
    let short = DigitalElevationModel::new(2, 2, 10, vec![1, 2, 3], None);
    assert!(matches!(short, Err(DemError::InvalidData(_))));
    let long = DigitalElevationModel::new(2, 2, 10, vec![1, 2, 3, 4, 5], None);
    assert!(matches!(long, Err(DemError::InvalidData(_))));
}

#[test]
fn new_rejects_a_size_that_overflows() {
    let r = DigitalElevationModel::new(usize::MAX, 2, 10, vec![1, 2], None);
    assert!(matches!(r, Err(DemError::InvalidData(_))));
}

#[test]
fn get_elevation_reads_row_major() {
    let dem = grid(3, 2, vec![1, 2, 3, 4, 5, 6]);
    assert_eq!(dem.get_elevation(0, 0), Some(1));
    assert_eq!(dem.get_elevation(2, 0), Some(3));
    assert_eq!(dem.get_elevation(0, 1), Some(4));
    assert_eq!(dem.get_elevation(2, 1), Some(6));
}

#[test]
fn get_elevation_outside_the_grid_is_none() {
    let dem = grid(3, 2, vec![1, 2, 3, 4, 5, 6]);
    assert_eq!(dem.get_elevation(3, 0), None);
    assert_eq!(dem.get_elevation(0, 2), None);
    assert_eq!(dem.get_elevation(usize::MAX, usize::MAX), None);
}

#[test]
fn get_elevation_of_a_cell_without_data_is_none() {
    let dem = grid(2, 2, vec![1, i32::MIN, 3, 4]);
    assert_eq!(dem.get_elevation(1, 0), None);
    assert_eq!(dem.get_elevation(0, 0), Some(1));
}

#[test]
fn without_a_marker_every_cell_has_data() {
    let dem = DigitalElevationModel::new(2, 1, 10, vec![i32::MIN, 0], None).unwrap();
    assert_eq!(dem.get_elevation(0, 0), Some(i32::MIN));
    assert_eq!(dem.get_elevation(1, 0), Some(0));
}

#[test]
fn neighbors_of_an_inner_cell_come_row_by_row() {
    let dem = grid(3, 3, vec![1, 2, 3, 4, 5, 6, 7, 8, 9]);
    assert_eq!(
        dem.get_neighbors(1, 1),
        vec![(0, 0), (1, 0), (2, 0), (0, 1), (2, 1), (0, 2), (1, 2), (2, 2)]
    );
}

#[test]
fn neighbors_of_a_corner_stay_inside() {
    let dem = grid(3, 3, vec![1, 2, 3, 4, 5, 6, 7, 8, 9]);
    assert_eq!(dem.get_neighbors(0, 0), vec![(1, 0), (0, 1), (1, 1)]);
    assert_eq!(dem.get_neighbors(2, 2), vec![(1, 1), (2, 1), (1, 2)]);
}

#[test]
fn neighbors_leave_out_cells_without_data() {
    let dem = grid(3, 3, vec![1, i32::MIN, 3, 4, 5, i32::MIN, 7, 8, 9]);
    assert_eq!(dem.get_neighbors(1, 1), vec![(0, 0), (2, 0), (0, 1), (0, 2), (1, 2), (2, 2)]);
}

#[test]
fn neighbors_of_a_point_beside_the_grid() {
    let dem = grid(2, 2, vec![1, 2, 3, 4]);
    assert_eq!(dem.get_neighbors(2, 0), vec![(1, 0), (1, 1)]);
    assert_eq!(dem.get_neighbors(5, 5), Vec::<(usize, usize)>::new());
}

#[test]
fn neighbor_steps_by_the_offset() {
    let dem = grid(3, 3, vec![0; 9]);
    assert_eq!(dem.neighbor(1, 1, FlowDirection::East), Some((2, 1)));
    assert_eq!(dem.neighbor(1, 1, FlowDirection::Southeast), Some((2, 2)));
    assert_eq!(dem.neighbor(1, 1, FlowDirection::South), Some((1, 2)));
    assert_eq!(dem.neighbor(1, 1, FlowDirection::Southwest), Some((0, 2)));
    assert_eq!(dem.neighbor(1, 1, FlowDirection::West), Some((0, 1)));
    assert_eq!(dem.neighbor(1, 1, FlowDirection::Northwest), Some((0, 0)));
    assert_eq!(dem.neighbor(1, 1, FlowDirection::North), Some((1, 0)));
    assert_eq!(dem.neighbor(1, 1, FlowDirection::Northeast), Some((2, 0)));
    assert_eq!(dem.neighbor(1, 1, FlowDirection::NoFlow), None);
}

#[test]
fn neighbor_ends_at_the_rim() {
    let dem = grid(3, 3, vec![0; 9]);
    assert_eq!(dem.neighbor(2, 1, FlowDirection::East), None);
    assert_eq!(dem.neighbor(0, 0, FlowDirection::North), None);
    assert_eq!(dem.neighbor(0, 0, FlowDirection::West), None);
    assert_eq!(dem.neighbor(1, 2, FlowDirection::South), None);
    assert_eq!(dem.neighbor(usize::MAX, 0, FlowDirection::East), None);
}

#[test]
fn queue_hands_out_lowest_first() {
    let mut queue = PriorityQueue::new();
    for (k, e) in [5, 3, 9, -2, 7, 3, 0].iter().enumerate() {
        queue.push(PriorityItem { elevation: *e, index: k });
    }
    assert_eq!(queue.len(), 7);
    let mut out = Vec::new();
    while let Some(item) = queue.pop() {
        out.push(item.elevation);
    }
    assert_eq!(out, vec![-2, 0, 3, 3, 5, 7, 9]);
    assert_eq!(queue.len(), 0);
}

#[test]
fn queue_keeps_the_cell_with_its_elevation() {
    let mut queue = PriorityQueue::new();
    queue.push(PriorityItem { elevation: 4, index: 40 });
    queue.push(PriorityItem { elevation: 1, index: 10 });
    queue.push(PriorityItem { elevation: 2, index: 20 });
    let first = queue.pop().unwrap();
    assert_eq!((first.elevation, first.index), (1, 10));
    let second = queue.pop().unwrap();
    assert_eq!((second.elevation, second.index), (2, 20));
    let third = queue.pop().unwrap();
    assert_eq!((third.elevation, third.index), (4, 40));
    assert!(queue.pop().is_none());
}

#[test]
fn empty_queue_gives_nothing() {
    let mut queue = PriorityQueue::new();
    assert!(queue.pop().is_none());
    assert_eq!(queue.len(), 0);
}
