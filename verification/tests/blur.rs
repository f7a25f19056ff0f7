use pixel_kernels::blur::{blur, box_blur_impl};

const RAMP: [u8; 9] = [10, 20, 30, 40, 50, 60, 70, 80, 90];

#[test]
fn radius_zero_is_the_identity() {
    let r = box_blur_impl(&RAMP, 3, 3, &[0]);
    assert!(r.success());
    assert_eq!(r.error(), "");
    assert_eq!(r.data(), RAMP.to_vec());
}

#[test]
fn radius_one_averages_the_clipped_window() {
    let r = box_blur_impl(&RAMP, 3, 3, &[1]);
    assert!(r.success());
    // corner (0,0): (10 + 20 + 40 + 50) / 4; centre: 450 / 9
    assert_eq!(r.data(), vec![30, 35, 40, 45, 50, 55, 60, 65, 70]);
}

#[test]
fn window_larger_than_the_picture_covers_it() {
    assert_eq!(box_blur_impl(&RAMP, 3, 3, &[2]).data(), vec![50; 9]);
    assert_eq!(box_blur_impl(&RAMP, 3, 3, &[u64::MAX]).data(), vec![50; 9]);
    assert_eq!(box_blur_impl(&RAMP, 3, 3, &[1 << 32]).data(), vec![50; 9]);
}

#[test]
fn mean_is_rounded_down() {
    let r = box_blur_impl(&[0, 255, 0, 255, 255, 0, 255, 0], 4, 2, &[1]);
    assert_eq!(r.data(), vec![127; 8]);
    let r = box_blur_impl(&[1, 2, 4, 8, 16], 5, 1, &[1]);
    assert_eq!(r.data(), vec![1, 2, 4, 9, 12]);
}

#[test]
fn uniform_picture_is_unchanged_for_any_radius() {
    for radius in [0u64, 1, 2, 3, 10, 1000] {
        let r = box_blur_impl(&[77; 20], 5, 4, &[radius]);
        assert!(r.success());
        assert_eq!(r.data(), vec![77; 20]);
    }
    let r = box_blur_impl(&[255; 12], 4, 3, &[1]);
    assert_eq!(r.data(), vec![255; 12]);
}

#[test]
fn blurring_a_uniform_picture_twice_changes_nothing() {
    let once = box_blur_impl(&[9; 12], 3, 4, &[2]).data();
    let twice = box_blur_impl(&once, 3, 4, &[2]).data();
    assert_eq!(twice, once);
}

#[test]
fn corner_averages_fewer_samples_than_the_centre() {
    // one bright sample at (1, 1) of a 5 x 5 picture: the corner's window
    // holds 4 samples, the window of (2, 2) holds 9
    let mut pixels = vec![0u8; 25];
    pixels[6] = 180;
    let out = box_blur_impl(&pixels, 5, 5, &[1]).data();
    assert_eq!(out[0], 45);
    assert_eq!(out[12], 20);
}

#[test]
fn missing_radius_fails() {
    let r = box_blur_impl(&RAMP, 3, 3, &[]);
    assert!(!r.success());
    assert_eq!(r.error(), "Box blur requires radius parameter");
    assert!(r.data().is_empty());
}

#[test]
fn empty_picture_is_blurred_to_itself() {
    let r = box_blur_impl(&[], 0, 0, &[3]);
    assert!(r.success());
    assert!(r.data().is_empty());
}

#[test]
fn blur_takes_the_radius_itself() {
    assert_eq!(blur(&RAMP, 3, 3, 1), vec![30, 35, 40, 45, 50, 55, 60, 65, 70]);
    assert_eq!(blur(&[7, 9], 2, 1, 0), vec![7, 9]);
    assert_eq!(blur(&[7, 10], 1, 2, 1), vec![8, 8]);
}

#[test]
fn blurring_a_mixed_picture_twice_differs_from_once() {
    let once = blur(&RAMP, 3, 3, 1);
    let twice = blur(&once, 3, 3, 1);
    assert_eq!(once, vec![30, 35, 40, 45, 50, 55, 60, 65, 70]);
    assert_eq!(twice, vec![40, 42, 45, 47, 50, 52, 55, 57, 60]);
    assert_ne!(twice, once);
}
