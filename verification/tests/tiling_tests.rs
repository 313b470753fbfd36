use penrose_memory::compiler::fleet_lattice_range;
use penrose_memory::cut_and_project::{
    bins_aperiodic, classify_tile, count_tile_types, histogram, lattice_points, TileType,
};
use penrose_memory::prediction::prediction_confirmed;
use penrose_memory::tensor_tile::{flat_index, simple_hash, tensor_len, tensor_shape};

#[test]
fn classify_by_golden_fraction_of_coordinate_sum() {
    assert_eq!(classify_tile(&vec![0, 0, 0, 0, 0]), TileType::Thick);
    assert_eq!(classify_tile(&vec![1, 0, 0, 0, 0]), TileType::Thin);
    assert_eq!(classify_tile(&vec![1, -1, 0, 0, 0]), TileType::Thick);
    assert_eq!(classify_tile(&vec![-3, 2, 0, 0, 0]), TileType::Thick);
    assert_eq!(classify_tile(&vec![0, 0, 3, 0, 0]), TileType::Thin);
}

#[test]
fn lattice_walk_order() {
    let ps = lattice_points(2, 1);
    assert_eq!(
        ps,
        vec![
            vec![-1, -1],
            vec![-1, 0],
            vec![-1, 1],
            vec![0, -1],
            vec![0, 0],
            vec![0, 1],
            vec![1, -1],
            vec![1, 0],
            vec![1, 1],
        ]
    );
    let cube = lattice_points(5, 2);
    assert_eq!(cube.len(), 3125);
    assert!(cube.iter().all(|p| p.len() == 5));
    assert_eq!(cube[0], vec![-2, -2, -2, -2, -2]);
    assert_eq!(cube[3124], vec![2, 2, 2, 2, 2]);
    assert_eq!(lattice_points(0, 4), vec![Vec::<i32>::new()]);
    assert!(lattice_points(3, -1).is_empty());
}

#[test]
fn smaller_cube_sits_inside_larger_in_walk_order() {
    let small = lattice_points(3, 1);
    let large = lattice_points(3, 2);
    let positions: Vec<usize> = small
        .iter()
        .map(|p| large.iter().position(|q| q == p).unwrap())
        .collect();
    assert!(positions.windows(2).all(|w| w[0] < w[1]));
    assert!(large.windows(2).all(|w| w[0] < w[1]));
}

#[test]
fn tile_census() {
    let types = vec![TileType::Thick, TileType::Thin, TileType::Thick, TileType::Rejected];
    let (thick, thin) = count_tile_types(&types);
    assert_eq!((thick, thin), (2, 1));
    assert_eq!(thick + thin + 1, types.len());
    assert_eq!(count_tile_types(&Vec::new()), (0, 0));
}

#[test]
fn histogram_clamps_to_last_bin() {
    assert_eq!(histogram(&vec![0, 2, 2, 7, 1], 3), vec![1, 1, 3]);
}

#[test]
fn short_periods_are_detected() {
    assert!(!bins_aperiodic(&vec![4; 50]));
    let mut alternating = vec![0u32; 50];
    for i in (0..50).step_by(2) {
        alternating[i] = 1;
    }
    assert!(!bins_aperiodic(&alternating));
    let squares: Vec<u32> = (0..50u32).map(|i| i * i).collect();
    assert!(bins_aperiodic(&squares));
    // Periods at least as long as the histogram hold vacuously.
    assert!(!bins_aperiodic(&vec![1, 2, 3]));
}

#[test]
fn fleet_lattice_ranges() {
    assert_eq!(fleet_lattice_range(0), 3);
    assert_eq!(fleet_lattice_range(1), 3);
    assert_eq!(fleet_lattice_range(10), 4);
    assert_eq!(fleet_lattice_range(16), 4);
    assert_eq!(fleet_lattice_range(17), 5);
    assert_eq!(fleet_lattice_range(100), 10);
    assert_eq!(fleet_lattice_range(usize::MAX), i32::MAX);
}

#[test]
fn tensor_layout() {
    assert_eq!(tensor_shape(TileType::Thick), (5, 5));
    assert_eq!(tensor_shape(TileType::Thin), (3, 8));
    assert_eq!(tensor_shape(TileType::Rejected), (1, 1));
    assert_eq!(tensor_len((5, 5)), 25);
    assert_eq!(tensor_len((3, 8)), 24);
    assert_eq!(flat_index((3, 8), 2, 7), 23);
    assert_eq!(flat_index((5, 5), 1, 0), 5);
}

#[test]
fn texture_hash_values() {
    assert_eq!(simple_hash(0, 0, 0), 1253111735);
    assert_eq!(simple_hash(1, 2, 3), 2281205554);
    assert_eq!(simple_hash(4, 4, 10), 881685557);
}

#[test]
fn predictions_confirm_exactly_on_the_first_recalled_tile() {
    assert!(prediction_confirmed(Some(3), Some(3)));
    assert!(!prediction_confirmed(Some(3), Some(4)));
    assert!(!prediction_confirmed(Some(3), None));
    assert!(!prediction_confirmed(None, Some(3)));
    assert!(prediction_confirmed(None, None));
}
