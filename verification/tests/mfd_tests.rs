use watermodel::dem::DigitalElevationModel;
use watermodel::flow::{FlowDirection, FlowMethod, FlowModel, Slope, UNIT};
use watermodel::mfd::{MFD_MAX_PASSES, MFD_PASSES};
use watermodel::model::ModelError;

fn model_of(width: usize, height: usize, data: Vec<i32>) -> FlowModel {
    let dem = DigitalElevationModel::new(width, height, 10, data, Some(i32::MIN)).unwrap();
    FlowModel::new(dem)
}

fn even_weights(cells: usize) -> Vec<Vec<u32>> {
    vec![vec![1; 8]; cells]
}

#[test]
fn twenty_rounds_unless_asked_otherwise() {
    assert_eq!(MFD_PASSES, 20);
    assert_eq!(MFD_MAX_PASSES, 1_000_000);
}

#[test]
fn the_rounds_bound_how_far_water_is_followed() {
    let width = 30;
    let data: Vec<i32> = (0..width).map(|x| (width - x) as i32).collect();
    for passes in [0, 1, 5, 21, 29, 400] {
        let mut model = model_of(width, 1, data.clone());
        assert!(model.compute_flow_directions_mfd(&even_weights(width)));
        assert_eq!(model.compute_flow_accumulation_mfd_in(passes), Ok(()));
        for x in 0..width {
            assert_eq!(
                model.flow_accumulation[x],
                (x as u64 + 1).min(passes as u64 + 1) * 1_000_000
            );
        }
    }
}

#[test]
fn too_many_rounds_are_refused() {
    let mut model = model_of(3, 1, vec![3, 2, 1]);
    assert!(model.compute_flow_directions_mfd(&even_weights(3)));
    assert_eq!(model.compute_flow_accumulation_mfd_in(MFD_MAX_PASSES), Ok(()));
    assert_eq!(model.flow_accumulation, vec![1_000_000, 2_000_000, 3_000_000]);
    model.flow_accumulation = vec![0; 3];
    assert_eq!(model.compute_flow_accumulation_mfd_in(MFD_MAX_PASSES + 1), Err(ModelError::NotCountable));
    assert_eq!(model.compute_flow_accumulation_mfd_in(usize::MAX), Err(ModelError::NotCountable));
    assert_eq!(model.flow_accumulation, vec![0; 3]);
    let mut bare = model_of(3, 1, vec![3, 2, 1]);
    assert_eq!(bare.compute_flow_accumulation_mfd_in(5), Err(ModelError::NotCountable));
}

#[test]
fn slopes_toward_all_eight_neighbours() {
    let model = model_of(3, 3, vec![9, 9, 9, 9, 8, 3, 9, 0, 1]);
    let flat = Slope::flat();
    assert_eq!(
        model.slopes_around(1, 1),
        vec![
            Slope { drop: 5, diagonal: false },
            Slope { drop: 7, diagonal: true },
            Slope { drop: 8, diagonal: false },
            flat,
            flat,
            flat,
            flat,
            flat
        ]
    );
    assert_eq!(model.slopes_around(1, 2), vec![flat; 8]);
    // At the rim the grid ends.
    assert_eq!(model.slopes_around(2, 1)[0], flat);
    assert_eq!(model.slopes_around(2, 1)[2], Slope { drop: 2, diagonal: false });
}

#[test]
fn slopes_around_a_cell_without_data_are_level() {
    let model = model_of(3, 1, vec![5, i32::MIN, 1]);
    assert_eq!(model.slopes_around(1, 0), vec![Slope::flat(); 8]);
    assert_eq!(model.slopes_around(0, 0), vec![Slope::flat(); 8]);
}

#[test]
fn weights_of_the_wrong_shape_are_refused() {
    let mut model = model_of(3, 1, vec![3, 2, 1]);
    assert!(!model.compute_flow_directions_mfd(&vec![vec![1; 8]; 2]));
    assert!(!model.compute_flow_directions_mfd(&vec![vec![1; 8], vec![1; 7], vec![1; 8]]));
    assert!(!model.compute_flow_directions_mfd(&vec![]));
    assert_eq!(model.flow_method, FlowMethod::D8);
    assert!(model.mfd_flow_proportions.is_none());
}

#[test]
fn a_single_lower_neighbour_gets_everything() {
    let mut model = model_of(3, 1, vec![3, 2, 1]);
    assert!(model.compute_flow_directions_mfd(&vec![vec![7; 8]; 3]));
    assert_eq!(model.flow_method, FlowMethod::MFD);
    let shares = model.mfd_flow_proportions.clone().unwrap();
    assert_eq!(shares[0], vec![UNIT, 0, 0, 0, 0, 0, 0, 0]);
    assert_eq!(shares[1], vec![UNIT, 0, 0, 0, 0, 0, 0, 0]);
    assert_eq!(shares[2], vec![0; 8]);
}

#[test]
fn lower_neighbours_share_by_their_weights() {
    let mut model = model_of(3, 3, vec![9, 9, 9, 9, 5, 1, 9, 3, 9]);
    let mut weights = even_weights(9);
    // East weighs 3 and south 1; the weight toward the higher north counts for nothing.
    weights[4] = vec![3, 0, 1, 0, 0, 0, 100, 0];
    assert!(model.compute_flow_directions_mfd(&weights));
    let shares = model.mfd_flow_proportions.clone().unwrap();
    assert_eq!(shares[4], vec![750_000, 0, 250_000, 0, 0, 0, 0, 0]);
}

#[test]
fn shares_are_rounded_down() {
    let mut model = model_of(3, 3, vec![9, 9, 9, 1, 5, 1, 9, 1, 9]);
    assert!(model.compute_flow_directions_mfd(&even_weights(9)));
    let shares = model.mfd_flow_proportions.clone().unwrap();
    assert_eq!(shares[4], vec![333_333, 0, 333_333, 0, 333_333, 0, 0, 0]);
}

#[test]
fn shares_add_up_to_a_whole_or_to_nothing() {
    let data: Vec<i32> = (0..56).map(|i| ((i * 29 + 3) % 17) as i32).collect();
    let mut model = model_of(8, 7, data);
    let weights: Vec<Vec<u32>> =
        (0..56).map(|i| (0..8).map(|k| ((i * 7 + k * 13) % 11) as u32).collect()).collect();
    assert!(model.compute_flow_directions_mfd(&weights));
    let shares = model.mfd_flow_proportions.clone().unwrap();
    for (i, row) in shares.iter().enumerate() {
        let (x, y) = (i % 8, i / 8);
        let mut weighed = 0;
        for k in 0..8 {
            let lower = model.falls_toward(x, y, FlowDirection::from_octant(k));
            assert!(row[k] == 0 || lower);
            if lower {
                weighed += weights[i][k];
            }
        }
        let total: u32 = row.iter().sum();
        if weighed > 0 {
            assert!(total <= UNIT && total > UNIT - 8);
        } else {
            assert_eq!(total, 0);
        }
    }
}

#[test]
fn large_weights_do_not_overflow() {
    let mut model = model_of(3, 1, vec![1, 5, 1]);
    assert!(model.compute_flow_directions_mfd(&vec![vec![u32::MAX; 8]; 3]));
    let shares = model.mfd_flow_proportions.clone().unwrap();
    assert_eq!(shares[1], vec![500_000, 0, 0, 0, 500_000, 0, 0, 0]);
}

#[test]
fn water_is_handed_down_a_chain() {
    let mut model = model_of(3, 1, vec![3, 2, 1]);
    assert!(model.compute_flow_directions_mfd(&even_weights(3)));
    assert_eq!(model.compute_flow_accumulation(), Ok(()));
    assert_eq!(model.flow_accumulation, vec![1_000_000, 2_000_000, 3_000_000]);
    assert_eq!(model.accumulation_unit(), 1_000_000);
}

#[test]
fn shares_by_the_power_of_the_slope_keep_their_fractions() {
    // Cell 0 falls by 1 to the east and by 2 over the diagonal to the
    // south-east; to the power of 1.1 the slopes weigh 1 and 1.464086.
    let n = i32::MIN;
    let mut model = model_of(2, 2, vec![2, 1, n, 0]);
    let mut weights = even_weights(4);
    weights[0] = vec![1_000_000, 1_464_086, 0, 0, 0, 0, 0, 0];
    assert!(model.compute_flow_directions_mfd(&weights));
    let shares = model.mfd_flow_proportions.clone().unwrap();
    assert_eq!(shares[0], vec![405_829, 594_170, 0, 0, 0, 0, 0, 0]);
    assert_eq!(model.compute_flow_accumulation_mfd(), Ok(()));
    // 1.4058 cells pass through cell 1 and, but for a millionth, 3 through cell 3.
    assert_eq!(model.flow_accumulation, vec![1_000_000, 1_405_829, 1_000_000, 2_999_999]);
}

#[test]
fn shared_water_is_counted_in_millionths() {
    // The two ridges in the middle give half of their water to either side.
    let mut model = model_of(5, 1, vec![9, 1, 9, 1, 9]);
    assert!(model.compute_flow_directions_mfd(&even_weights(5)));
    assert_eq!(model.compute_flow_accumulation_mfd(), Ok(()));
    // The valleys hold themselves, a whole ridge and half a ridge: two and a half.
    assert_eq!(
        model.flow_accumulation,
        vec![1_000_000, 2_500_000, 1_000_000, 2_500_000, 1_000_000]
    );
}

#[test]
fn halves_add_up_to_wholes() {
    let mut model = model_of(3, 2, vec![5, 1, 5, 5, 5, 5]);
    let mut weights = even_weights(6);
    // The lower row sends everything straight or diagonally up into the pit.
    weights[3] = vec![0, 0, 0, 0, 0, 0, 0, 1];
    weights[5] = vec![0, 0, 0, 0, 0, 1, 0, 0];
    assert!(model.compute_flow_directions_mfd(&weights));
    assert_eq!(model.compute_flow_accumulation_mfd(), Ok(()));
    assert_eq!(
        model.flow_accumulation,
        vec![1_000_000, 6_000_000, 1_000_000, 1_000_000, 1_000_000, 1_000_000]
    );
}

#[test]
fn every_cell_holds_itself_at_least() {
    let data: Vec<i32> = (0..56).map(|i| ((i * 29 + 3) % 17) as i32).collect();
    let mut model = model_of(8, 7, data);
    assert!(model.compute_flow_directions_mfd(&even_weights(56)));
    assert_eq!(model.compute_flow_accumulation(), Ok(()));
    assert!(model.flow_accumulation.iter().all(|a| *a >= 1_000_000));
    // Rounding only ever loses water.
    let total: u64 = model.flow_accumulation.iter().sum();
    assert!(total <= 56 * 21 * 1_000_000);
}

#[test]
fn a_long_chain_is_cut_off_by_the_rounds() {
    let width = 30;
    let data: Vec<i32> = (0..width).map(|x| (width - x) as i32).collect();
    let mut model = model_of(width, 1, data);
    assert!(model.compute_flow_directions_mfd(&even_weights(width)));
    assert_eq!(model.compute_flow_accumulation_mfd(), Ok(()));
    // After twenty rounds a cell has heard of the twenty cells above it.
    for x in 0..width {
        assert_eq!(model.flow_accumulation[x], (x as u64 + 1).min(21) * 1_000_000);
    }
}

#[test]
fn sharing_leaves_the_stored_directions_alone() {
    let mut model = model_of(3, 1, vec![3, 2, 1]);
    model.compute_flow_directions();
    let directions = model.flow_directions.clone();
    assert!(model.compute_flow_directions_mfd(&even_weights(3)));
    assert_eq!(model.flow_directions, directions);
    // Lines are followed along the steepest descent.
    assert_eq!(model.get_downstream_cell(0, 0), Some((1, 0)));
}
