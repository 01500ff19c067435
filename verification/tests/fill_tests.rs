use watermodel::dem::DigitalElevationModel;

fn grid(width: usize, height: usize, data: Vec<i32>) -> DigitalElevationModel {
    DigitalElevationModel::new(width, height, 10, data, Some(i32::MIN)).unwrap()
}

fn rim_and_plateau() -> Vec<i32> {
    let mut data = vec![10; 25];
    for y in 0..5 {
        for x in 0..5 {
            if x == 0 || y == 0 || x == 4 || y == 4 {
                data[y * 5 + x] = 5;
            }
        }
    }
    data
}

/// Whether from every cell with data that can reach the rim through cells
/// with data, a walk that never steps upward leads to the rim.
fn drains_everywhere(dem: &DigitalElevationModel) -> bool {
    let (w, h) = (dem.width, dem.height);
    let on_rim = |x: usize, y: usize| x == 0 || y == 0 || x == w - 1 || y == h - 1;
    let flood = |monotone: bool| -> Vec<bool> {
        let mut seen = vec![false; w * h];
        let mut stack = Vec::new();
        for y in 0..h {
            for x in 0..w {
                if on_rim(x, y) && dem.get_elevation(x, y).is_some() {
                    seen[y * w + x] = true;
                    stack.push((x, y));
                }
            }
        }
        while let Some((x, y)) = stack.pop() {
            let here = dem.get_elevation(x, y).unwrap();
            for (nx, ny) in dem.get_neighbors(x, y) {
                let there = dem.get_elevation(nx, ny).unwrap();
                if !seen[ny * w + nx] && (!monotone || there >= here) {
                    seen[ny * w + nx] = true;
                    stack.push((nx, ny));
                }
            }
        }
        seen
    };
    flood(true) == flood(false)
}

#[test]
fn centre_pit_rises_to_the_lowest_cell_around_it() {
    let mut data = rim_and_plateau();
    data[2 * 5 + 2] = 0;
    let mut dem = grid(5, 5, data.clone());
    dem.fill_sinks();
    assert_eq!(dem.get_elevation(2, 2), Some(10));
    for i in 0..25 {
        if i != 12 {
            assert_eq!(dem.data[i], data[i]);
        }
    }
    assert!(drains_everywhere(&dem));
}

#[test]
fn pit_beside_the_rim_rises_to_the_rim() {
    let mut data = rim_and_plateau();
    data[1 * 5 + 1] = 0;
    let mut dem = grid(5, 5, data.clone());
    dem.fill_sinks();
    assert_eq!(dem.get_elevation(1, 1), Some(5));
    for i in 0..25 {
        if i != 6 {
            assert_eq!(dem.data[i], data[i]);
        }
    }
    assert!(drains_everywhere(&dem));
}

#[test]
fn basin_fills_to_its_pour_point() {
    // A basin behind a wall of 9 with one gap of 6 toward the rim of 1.
    let data = vec![
        1, 1, 1, 1, 1, 1, //
        1, 9, 9, 9, 9, 1, //
        1, 9, 2, 3, 9, 1, //
        1, 9, 4, 0, 6, 1, //
        1, 9, 9, 9, 9, 1, //
        1, 1, 1, 1, 1, 1,
    ];
    let mut dem = grid(6, 6, data);
    dem.fill_sinks();
    let expected = vec![
        1, 1, 1, 1, 1, 1, //
        1, 9, 9, 9, 9, 1, //
        1, 9, 6, 6, 9, 1, //
        1, 9, 6, 6, 6, 1, //
        1, 9, 9, 9, 9, 1, //
        1, 1, 1, 1, 1, 1,
    ];
    assert_eq!(dem.data, expected);
    assert!(drains_everywhere(&dem));
}

#[test]
fn filling_never_lowers_a_cell() {
    let data: Vec<i32> = (0..64).map(|i| ((i * 37 + 11) % 23) as i32 - 7).collect();
    let mut dem = grid(8, 8, data.clone());
    dem.fill_sinks();
    for i in 0..64 {
        assert!(dem.data[i] >= data[i]);
    }
    assert!(drains_everywhere(&dem));
}

#[test]
fn filling_twice_changes_nothing_more() {
    let data: Vec<i32> = (0..81).map(|i| ((i * 53 + 5) % 31) as i32).collect();
    let mut dem = grid(9, 9, data);
    dem.fill_sinks();
    let once = dem.data.clone();
    dem.fill_sinks();
    assert_eq!(dem.data, once);
}

#[test]
fn a_drained_grid_is_left_alone() {
    let data: Vec<i32> = (0..20).map(|i| (i % 5) as i32).collect();
    let mut dem = grid(5, 4, data.clone());
    dem.fill_sinks();
    assert_eq!(dem.data, data);
}

#[test]
fn cells_without_data_stay_and_block_the_flood() {
    let n = i32::MIN;
    // The cell in the middle is walled in by cells without data.
    let data = vec![
        5, 5, 5, 5, 5, //
        5, n, n, n, 5, //
        5, n, 0, n, 5, //
        5, n, n, n, 5, //
        5, 5, 5, 5, 5,
    ];
    let mut dem = grid(5, 5, data.clone());
    dem.fill_sinks();
    assert_eq!(dem.data, data);
    assert_eq!(dem.get_elevation(2, 2), Some(0));
    assert_eq!(dem.get_elevation(1, 1), None);
}

#[test]
fn a_rim_without_data_lets_the_flood_in_elsewhere() {
    let n = i32::MIN;
    let data = vec![
        n, n, n, n, //
        n, 3, 1, n, //
        n, 2, 0, 7, //
        n, n, n, n,
    ];
    let mut dem = grid(4, 4, data);
    dem.fill_sinks();
    let expected = vec![
        n, n, n, n, //
        n, 7, 7, n, //
        n, 7, 7, 7, //
        n, n, n, n,
    ];
    assert_eq!(dem.data, expected);
}

#[test]
fn a_single_row_is_all_rim() {
    let data = vec![3, 0, 5, -2, 4];
    let mut dem = grid(5, 1, data.clone());
    dem.fill_sinks();
    assert_eq!(dem.data, data);
}

#[test]
fn filling_keeps_size_and_marker() {
    let mut dem = DigitalElevationModel::new(3, 3, 30, vec![9, 9, 9, 9, 1, 9, 9, 9, 9], Some(-1))
        .unwrap();
    dem.fill_sinks();
    assert_eq!((dem.width, dem.height, dem.resolution, dem.no_data_value), (3, 3, 30, Some(-1)));
    assert_eq!(dem.data, vec![9; 9]);
}
