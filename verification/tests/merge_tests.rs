use watermodel::dem::{DemError, DigitalElevationModel};
use watermodel::merge::Tile;

const N: i32 = -9999;

fn tile(width: usize, height: usize, resolution: u32, data: Vec<i32>, column: usize, row: usize) -> Tile {
    Tile {
        dem: DigitalElevationModel::new(width, height, resolution, data, Some(N)).unwrap(),
        column,
        row,
    }
}

#[test]
fn tiles_side_by_side() {
    let tiles = vec![
        tile(2, 2, 10, vec![1, 2, 3, 4], 0, 0),
        tile(2, 2, 10, vec![5, 6, 7, 8], 2, 0),
    ];
    let merged = DigitalElevationModel::from_multiple_geotiffs(&tiles, 4, 2, N, 0).unwrap();
    assert_eq!((merged.width, merged.height, merged.resolution), (4, 2, 10));
    assert_eq!(merged.no_data_value, Some(N));
    assert_eq!(merged.data, vec![1, 2, 5, 6, 3, 4, 7, 8]);
}

#[test]
fn where_tiles_overlap_the_later_wins() {
    let tiles = vec![
        tile(3, 1, 10, vec![1, 2, 3], 0, 0),
        tile(3, 1, 10, vec![7, 8, 9], 1, 0),
    ];
    let merged = DigitalElevationModel::from_multiple_geotiffs(&tiles, 4, 1, N, 0).unwrap();
    assert_eq!(merged.data, vec![1, 7, 8, 9]);
}

#[test]
fn a_later_tile_without_data_does_not_erase() {
    let tiles = vec![
        tile(3, 1, 10, vec![1, 2, 3], 0, 0),
        tile(3, 1, 10, vec![N, 8, N], 0, 0),
    ];
    let merged = DigitalElevationModel::from_multiple_geotiffs(&tiles, 3, 1, N, 0).unwrap();
    assert_eq!(merged.data, vec![1, 8, 3]);
}

#[test]
fn cells_that_no_tile_fills_have_no_data() {
    let tiles = vec![tile(1, 1, 10, vec![4], 1, 1)];
    let merged = DigitalElevationModel::from_multiple_geotiffs(&tiles, 3, 3, -1, 0).unwrap();
    assert_eq!(merged.data, vec![-1, -1, -1, -1, 4, -1, -1, -1, -1]);
    assert_eq!(merged.get_elevation(1, 1), Some(4));
    assert_eq!(merged.get_elevation(0, 0), None);
}

#[test]
fn what_lies_outside_is_left_out() {
    let tiles = vec![
        tile(3, 2, 10, vec![1, 2, 3, 4, 5, 6], 1, 1),
        tile(1, 1, 10, vec![9], 7, 0),
        tile(1, 1, 10, vec![9], usize::MAX, usize::MAX),
    ];
    let merged = DigitalElevationModel::from_multiple_geotiffs(&tiles, 2, 2, N, 0).unwrap();
    assert_eq!(merged.data, vec![N, N, N, 1]);
}

#[test]
fn the_marker_of_a_tile_is_its_own() {
    let mut odd = tile(2, 1, 10, vec![0, 5], 0, 0);
    odd.dem.no_data_value = Some(0);
    let merged = DigitalElevationModel::from_multiple_geotiffs(&vec![odd], 2, 1, N, 0).unwrap();
    assert_eq!(merged.data, vec![N, 5]);
}

#[test]
fn nothing_to_merge_is_invalid() {
    let r = DigitalElevationModel::from_multiple_geotiffs(&vec![], 2, 2, N, 0);
    assert!(matches!(r, Err(DemError::InvalidData(_))));
}

#[test]
fn an_empty_merged_grid_is_invalid() {
    let tiles = vec![tile(1, 1, 10, vec![4], 0, 0)];
    let r = DigitalElevationModel::from_multiple_geotiffs(&tiles, 0, 2, N, 0);
    assert!(matches!(r, Err(DemError::InvalidData(_))));
    let r = DigitalElevationModel::from_multiple_geotiffs(&tiles, 2, 0, N, 0);
    assert!(matches!(r, Err(DemError::InvalidData(_))));
    let r = DigitalElevationModel::from_multiple_geotiffs(&tiles, usize::MAX, 2, N, 0);
    assert!(matches!(r, Err(DemError::InvalidData(_))));
}

#[test]
fn a_malformed_tile_is_invalid() {
    let mut broken = tile(2, 1, 10, vec![1, 2], 0, 0);
    broken.dem.data.pop();
    let r = DigitalElevationModel::from_multiple_geotiffs(&vec![broken], 2, 1, N, 0);
    assert!(matches!(r, Err(DemError::InvalidData(_))));
}

#[test]
fn cell_sizes_apart_are_a_merge_error() {
    let tiles = vec![tile(1, 1, 10, vec![4], 0, 0), tile(1, 1, 12, vec![5], 1, 0)];
    let r = DigitalElevationModel::from_multiple_geotiffs(&tiles, 2, 1, N, 1);
    assert!(matches!(r, Err(DemError::MergeError(_))));
    let tiles = vec![tile(1, 1, 12, vec![4], 0, 0), tile(1, 1, 10, vec![5], 1, 0)];
    let r = DigitalElevationModel::from_multiple_geotiffs(&tiles, 2, 1, N, 1);
    assert!(matches!(r, Err(DemError::MergeError(_))));
}

#[test]
fn cell_sizes_within_the_tolerance_are_merged() {
    let tiles = vec![tile(1, 1, 10, vec![4], 0, 0), tile(1, 1, 12, vec![5], 1, 0)];
    let merged = DigitalElevationModel::from_multiple_geotiffs(&tiles, 2, 1, N, 2).unwrap();
    assert_eq!(merged.resolution, 10);
    assert_eq!(merged.data, vec![4, 5]);
}

#[test]
fn an_invalid_grid_is_told_before_a_merge_error() {
    let tiles = vec![tile(1, 1, 10, vec![4], 0, 0), tile(1, 1, 99, vec![5], 1, 0)];
    let r = DigitalElevationModel::from_multiple_geotiffs(&tiles, 0, 1, N, 0);
    assert!(matches!(r, Err(DemError::InvalidData(_))));
}

#[test]
fn well_formed_or_not() {
    let mut dem = DigitalElevationModel::new(2, 2, 10, vec![1, 2, 3, 4], None).unwrap();
    assert!(dem.is_well_formed());
    dem.data.push(5);
    assert!(!dem.is_well_formed());
    dem.data.truncate(4);
    dem.resolution = 0;
    assert!(!dem.is_well_formed());
    dem.resolution = 1;
    dem.width = 0;
    assert!(!dem.is_well_formed());
    dem.width = usize::MAX;
    assert!(!dem.is_well_formed());
}
