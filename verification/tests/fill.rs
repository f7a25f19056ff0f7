use pixel_kernels::fill::{flood, flood_fill_impl};

const MAZE: [u8; 16] = [1, 1, 0, 1, 1, 0, 0, 1, 1, 1, 0, 0, 0, 1, 1, 1];

#[test]
fn fills_the_connected_region_only() {
    let r = flood_fill_impl(&MAZE, 4, 4, &[0, 0, 9]);
    assert!(r.success());
    assert_eq!(r.error(), "");
    assert_eq!(r.data(), vec![9, 9, 0, 1, 9, 0, 0, 1, 9, 9, 0, 0, 0, 9, 9, 9]);
}

#[test]
fn fills_from_any_position_of_the_region() {
    let r = flood_fill_impl(&MAZE, 4, 4, &[3, 3, 5]);
    assert_eq!(r.data(), vec![5, 5, 0, 1, 5, 0, 0, 1, 5, 5, 0, 0, 0, 5, 5, 5]);
    let r = flood_fill_impl(&MAZE, 4, 4, &[2, 0, 7]);
    assert_eq!(r.data(), vec![1, 1, 7, 1, 1, 7, 7, 1, 1, 1, 7, 7, 0, 1, 1, 1]);
}

#[test]
fn diagonal_neighbours_are_not_connected() {
    let r = flood_fill_impl(&[1, 0, 0, 1], 2, 2, &[0, 0, 8]);
    assert_eq!(r.data(), vec![8, 0, 0, 1]);
}

#[test]
fn start_is_column_then_row() {
    let r = flood_fill_impl(&[0, 1, 2, 3, 4, 5], 3, 2, &[2, 1, 9]);
    assert_eq!(r.data(), vec![0, 1, 2, 3, 4, 9]);
    let r = flood_fill_impl(&[0, 1, 2, 3, 4, 5], 3, 2, &[1, 0, 9]);
    assert_eq!(r.data(), vec![0, 9, 2, 3, 4, 5]);
}

#[test]
fn uniform_picture_is_filled_entirely() {
    let r = flood_fill_impl(&[3; 35], 7, 5, &[4, 2, 200]);
    assert!(r.success());
    assert_eq!(r.data(), vec![200; 35]);
}

#[test]
fn large_uniform_picture_is_filled_entirely() {
    let r = flood_fill_impl(&vec![0u8; 200 * 150], 200, 150, &[199, 149, 1]);
    assert!(r.success());
    assert_eq!(r.data(), vec![1u8; 200 * 150]);
}

#[test]
fn same_value_is_a_copy() {
    let r = flood_fill_impl(&MAZE, 4, 4, &[0, 0, 1]);
    assert!(r.success());
    assert_eq!(r.data(), MAZE.to_vec());
}

#[test]
fn second_fill_changes_nothing() {
    let once = flood_fill_impl(&MAZE, 4, 4, &[0, 0, 9]).data();
    let twice = flood_fill_impl(&once, 4, 4, &[0, 0, 9]).data();
    assert_eq!(twice, once);
}

#[test]
fn fill_value_saturates_at_255() {
    let r = flood_fill_impl(&[0, 0], 2, 1, &[0, 0, 300]);
    assert_eq!(r.data(), vec![255, 255]);
}

#[test]
fn start_out_of_bounds_fails() {
    for start in [[4u64, 0], [0, 4], [4, 4], [u64::MAX, 0], [0, 1 << 40]] {
        let r = flood_fill_impl(&MAZE, 4, 4, &[start[0], start[1], 9]);
        assert!(!r.success());
        assert_eq!(r.error(), "Fill coordinates out of bounds");
        assert!(r.data().is_empty());
    }
    let r = flood_fill_impl(&[], 0, 0, &[0, 0, 9]);
    assert!(!r.success());
    assert_eq!(r.error(), "Fill coordinates out of bounds");
}

#[test]
fn missing_parameters_fail() {
    for params in [&[][..], &[1][..], &[1, 1][..]] {
        let r = flood_fill_impl(&MAZE, 4, 4, params);
        assert!(!r.success());
        assert_eq!(r.error(), "Flood fill requires x, y, fill_value parameters");
        assert!(r.data().is_empty());
    }
}

#[test]
fn flood_takes_start_and_value_themselves() {
    assert_eq!(flood(&MAZE, 4, 4, 2, 0, 7), vec![1, 1, 7, 1, 1, 7, 7, 1, 1, 1, 7, 7, 0, 1, 1, 1]);
    assert_eq!(flood(&[4], 1, 1, 0, 0, 4), vec![4]);
    assert_eq!(flood(&[4], 1, 1, 0, 0, 5), vec![5]);
}

#[test]
fn winding_region_is_followed_to_its_end() {
    // a corridor of 0 that snakes through walls of 1
    let pixels = [
        0, 0, 0, 0, 0, //
        1, 1, 1, 1, 0, //
        0, 0, 0, 0, 0, //
        0, 1, 1, 1, 1, //
        0, 0, 0, 0, 0,
    ];
    let expected = vec![
        6, 6, 6, 6, 6, //
        1, 1, 1, 1, 6, //
        6, 6, 6, 6, 6, //
        6, 1, 1, 1, 1, //
        6, 6, 6, 6, 6,
    ];
    assert_eq!(flood(&pixels, 5, 5, 4, 4, 6), expected);
    assert_eq!(flood(&pixels, 5, 5, 0, 0, 6), expected);
}
