use pixel_kernels::diffusion::{clamp_pixel, diffuse, floyd_steinberg_impl};

fn plain_scan(pixels: &[u8], w: usize, h: usize, threshold: u8) -> Vec<u8> {
    let mut result = pixels.to_vec();
    for y in 0..h {
        for x in 0..w {
            let idx = y * w + x;
            let old_pixel = result[idx];
            let new_pixel: u8 = if old_pixel > threshold { 255 } else { 0 };
            result[idx] = new_pixel;
            let error = old_pixel as i16 - new_pixel as i16;
            if x + 1 < w {
                result[idx + 1] = (result[idx + 1] as i16 + error * 7 / 16).clamp(0, 255) as u8;
            }
            if y + 1 < h {
                if x > 0 {
                    let i = idx + w - 1;
                    result[i] = (result[i] as i16 + error * 3 / 16).clamp(0, 255) as u8;
                }
                let i = idx + w;
                result[i] = (result[i] as i16 + error * 5 / 16).clamp(0, 255) as u8;
                if x + 1 < w {
                    let i = idx + w + 1;
                    result[i] = (result[i] as i16 + error / 16).clamp(0, 255) as u8;
                }
            }
        }
    }
    result
}

#[test]
fn clamp_pixel_limits_to_a_sample() {
    assert_eq!(clamp_pixel(-1), 0);
    assert_eq!(clamp_pixel(i16::MIN), 0);
    assert_eq!(clamp_pixel(0), 0);
    assert_eq!(clamp_pixel(77), 77);
    assert_eq!(clamp_pixel(255), 255);
    assert_eq!(clamp_pixel(256), 255);
    assert_eq!(clamp_pixel(i16::MAX), 255);
}

#[test]
fn two_by_two_golden_vector() {
    let r = floyd_steinberg_impl(&[10, 200, 10, 200], 2, 2, &[128]);
    assert!(r.success());
    assert_eq!(r.error(), "");
    assert_eq!(r.data(), vec![0, 255, 0, 255]);
}

#[test]
fn uniform_just_above_threshold_golden_vector() {
    let r = floyd_steinberg_impl(&[129; 16], 4, 4, &[128]);
    assert!(r.success());
    assert_eq!(r.data(), vec![255, 0, 255, 0, 0, 255, 0, 255, 255, 0, 255, 0, 0, 255, 0, 255]);
    let again = floyd_steinberg_impl(&[129; 16], 4, 4, &[128]);
    assert_eq!(again.data(), r.data());
    let r = floyd_steinberg_impl(&[101; 9], 3, 3, &[100]);
    assert_eq!(r.data(), vec![255, 0, 255, 0, 255, 0, 0, 0, 255]);
}

#[test]
fn residual_moves_right_along_a_single_row() {
    let r = floyd_steinberg_impl(&[100, 100, 100, 100], 4, 1, &[128]);
    assert!(r.success());
    assert_eq!(r.data(), vec![0, 255, 0, 0]);
}

#[test]
fn negative_residual_is_divided_toward_zero() {
    let r = floyd_steinberg_impl(&[0, 60, 120, 180, 240, 255], 3, 2, &[127]);
    assert_eq!(r.data(), vec![0, 0, 255, 255, 255, 255]);
    let r = floyd_steinberg_impl(&[128, 0, 0, 255], 2, 2, &[128]);
    assert_eq!(r.data(), vec![0, 0, 0, 255]);
}

#[test]
fn agrees_with_a_plain_scan_on_a_mixed_picture() {
    let w = 13usize;
    let h = 9usize;
    let mut seed: u32 = 12345;
    let mut pixels = Vec::new();
    for _ in 0..w * h {
        seed = seed.wrapping_mul(1664525).wrapping_add(1013904223);
        pixels.push((seed >> 24) as u8);
    }
    for threshold in [0u8, 1, 64, 128, 200, 254, 255] {
        let r = floyd_steinberg_impl(&pixels, w as u32, h as u32, &[threshold as u64]);
        assert!(r.success());
        let out = r.data();
        assert_eq!(out, plain_scan(&pixels, w, h, threshold));
        assert!(out.iter().all(|v| *v == 0 || *v == 255));
    }
}

#[test]
fn threshold_above_a_sample_saturates() {
    let r = floyd_steinberg_impl(&[255, 255], 2, 1, &[1000]);
    assert!(r.success());
    assert_eq!(r.data(), vec![0, 0]);
}

#[test]
fn missing_threshold_fails() {
    let r = floyd_steinberg_impl(&[1, 2, 3, 4], 2, 2, &[]);
    assert!(!r.success());
    assert_eq!(r.error(), "Floyd-Steinberg requires threshold parameter");
    assert!(r.data().is_empty());
}

#[test]
fn empty_picture_is_dithered_to_itself() {
    let r = floyd_steinberg_impl(&[], 0, 5, &[10]);
    assert!(r.success());
    assert!(r.data().is_empty());
}

#[test]
fn diffuse_takes_the_threshold_itself() {
    assert_eq!(diffuse(&[10, 200, 10, 200], 2, 2, 128), vec![0, 255, 0, 255]);
    assert_eq!(diffuse(&[128, 129], 2, 1, 128), vec![0, 255]);
    assert_eq!(diffuse(&[0, 0], 1, 2, 0), vec![0, 0]);
    assert_eq!(diffuse(&[1, 0], 1, 2, 0), vec![255, 0]);
}
