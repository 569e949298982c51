use caviarpd::grid::{explicit_masses, resolve_grid_length, shuffle_grid, GridError};
use rand_pcg::Pcg64Mcg;

#[test]
fn a_single_target_has_one_grid_point() {
    assert_eq!(resolve_grid_length(0, true), 1);
    assert_eq!(resolve_grid_length(1, true), 1);
    assert_eq!(resolve_grid_length(10, true), 1);
}

#[test]
fn a_window_has_at_least_two_grid_points() {
    assert_eq!(resolve_grid_length(0, false), 2);
    assert_eq!(resolve_grid_length(1, false), 2);
    assert_eq!(resolve_grid_length(2, false), 2);
    assert_eq!(resolve_grid_length(7, false), 7);
}

#[test]
fn one_mass_stands_at_every_grid_point() {
    assert_eq!(explicit_masses(&[1.5f64], 3), Ok(vec![1.5, 1.5, 1.5]));
    assert_eq!(explicit_masses(&[1.5f64], 1), Ok(vec![1.5]));
    assert_eq!(explicit_masses(&[1.5f64], 0), Ok(vec![]));
}

#[test]
fn as_many_masses_as_grid_points_are_taken_as_they_are() {
    assert_eq!(explicit_masses(&[0.5f64, 2.0, 1.0], 3), Ok(vec![0.5, 2.0, 1.0]));
    assert_eq!(explicit_masses(&[] as &[f64], 0), Ok(vec![]));
}

#[test]
fn any_other_number_of_masses_is_an_error() {
    assert_eq!(explicit_masses(&[0.5f64, 2.0], 3), Err(GridError::LengthMismatch));
    assert_eq!(explicit_masses(&[0.5f64, 2.0, 1.0, 4.0], 3), Err(GridError::LengthMismatch));
    assert_eq!(explicit_masses(&[] as &[f64], 3), Err(GridError::LengthMismatch));
}

#[test]
fn shuffle_grid_keeps_the_masses_and_changes_their_order() {
    let before: Vec<u32> = (0..100).collect();
    let mut grid = before.clone();
    let mut rng = Pcg64Mcg::new(99);
    shuffle_grid(&mut grid, &mut rng);
    assert_ne!(grid, before);
    let mut sorted = grid.clone();
    sorted.sort();
    assert_eq!(sorted, before);
}

#[test]
fn shuffle_grid_keeps_repeated_masses() {
    let mut grid = vec![2.0f64, 2.0, 2.0];
    shuffle_grid(&mut grid, &mut Pcg64Mcg::new(1));
    assert_eq!(grid, vec![2.0, 2.0, 2.0]);
}
