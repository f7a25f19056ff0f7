use pixel_kernels::ordered::{
    bayer_dither_impl, dither, dither_one, matrix_lookup, BAYER_2X2, BAYER_4X4, BAYER_8X8,
};

fn adjusted(base: u8, m: u8) -> i16 {
    base as i16 + (m as i16 - 128) / 4
}

#[test]
fn matrices_hold_the_fixed_tables() {
    assert_eq!(BAYER_2X2, [0, 128, 192, 64]);
    assert_eq!(BAYER_4X4, [0, 128, 32, 160, 192, 64, 224, 96, 48, 176, 16, 144, 240, 112, 208, 80]);
    assert_eq!(
        BAYER_8X8,
        [
            0, 128, 32, 160, 8, 136, 40, 168, 192, 64, 224, 96, 200, 72, 232, 104, 48, 176, 16, 144,
            56, 184, 24, 152, 240, 112, 208, 80, 248, 120, 216, 88, 12, 140, 44, 172, 4, 132, 36,
            164, 204, 76, 236, 108, 196, 68, 228, 100, 60, 188, 28, 156, 52, 180, 20, 148, 252, 124,
            220, 92, 244, 116, 212, 84
        ]
    );
}

#[test]
fn lookup_reads_row_then_column() {
    assert_eq!(matrix_lookup(2, 1, 0), 192);
    assert_eq!(matrix_lookup(2, 0, 1), 128);
    assert_eq!(matrix_lookup(4, 3, 1), 112);
    assert_eq!(matrix_lookup(4, 1, 3), 96);
    assert_eq!(matrix_lookup(8, 7, 7), 84);
    assert_eq!(matrix_lookup(8, 4, 0), 12);
    assert_eq!(matrix_lookup(8, 0, 4), 8);
}

#[test]
fn threshold_offset_is_a_quarter_toward_zero() {
    // entry 0: 128 + (-128 / 4) = 96
    assert_eq!(dither_one(96, 128, 0), 0);
    assert_eq!(dither_one(97, 128, 0), 255);
    // entry 252: 128 + 124 / 4 = 159
    assert_eq!(dither_one(159, 128, 252), 0);
    assert_eq!(dither_one(160, 128, 252), 255);
    // entry 126: -2 / 4 rounds to 0, not to -1
    assert_eq!(dither_one(128, 128, 126), 0);
    assert_eq!(dither_one(129, 128, 126), 255);
    // entry 124: -4 / 4 = -1
    assert_eq!(dither_one(127, 128, 124), 0);
    assert_eq!(dither_one(128, 128, 124), 255);
    // thresholds below 0 and above 255
    assert_eq!(dither_one(0, 0, 0), 255);
    assert_eq!(dither_one(255, 255, 252), 0);
}

#[test]
fn flat_grey_gives_a_checkerboard() {
    let board = vec![255, 0, 255, 0, 0, 255, 0, 255, 255, 0, 255, 0, 0, 255, 0, 255];
    assert_eq!(bayer_dither_impl(&[128; 16], 4, 4, &[2]).data(), board);
    assert_eq!(bayer_dither_impl(&[128; 16], 4, 4, &[4]).data(), board);
}

#[test]
fn gradient_against_the_four_by_four_matrix() {
    let pixels: Vec<u8> = (0..16).map(|i| (i * 16) as u8).collect();
    let r = bayer_dither_impl(&pixels, 4, 4, &[4, 100]);
    assert!(r.success());
    assert_eq!(r.error(), "");
    assert_eq!(r.data(), vec![0, 0, 0, 0, 0, 0, 0, 255, 255, 255, 255, 255, 255, 255, 255, 255]);
}

#[test]
fn every_entry_of_every_matrix_decides_its_position() {
    for (size, table) in [(2usize, &BAYER_2X2[..]), (4, &BAYER_4X4[..]), (8, &BAYER_8X8[..])] {
        let w = size * 2 + 1;
        let h = size + 3;
        let mut at = Vec::new();
        let mut above = Vec::new();
        for y in 0..h {
            for x in 0..w {
                let t = adjusted(128, table[(y % size) * size + x % size]);
                at.push(t as u8);
                above.push((t + 1) as u8);
            }
        }
        let r = bayer_dither_impl(&at, w as u32, h as u32, &[size as u64]);
        assert_eq!(r.data(), vec![0u8; w * h]);
        let r = bayer_dither_impl(&above, w as u32, h as u32, &[size as u64, 128]);
        assert_eq!(r.data(), vec![255u8; w * h]);
    }
}

#[test]
fn output_repeats_with_the_matrix_period() {
    let w = 6usize;
    let h = 4usize;
    let pixels = vec![140u8; w * h];
    let out = bayer_dither_impl(&pixels, w as u32, h as u32, &[2, 150]).data();
    for y in 0..h {
        for x in 0..w {
            assert_eq!(out[y * w + x], out[(y % 2) * w + x % 2]);
        }
    }
    let r = bayer_dither_impl(&[210, 190, 210, 190, 210, 190, 230, 170, 230, 170, 230, 170], 6, 2, &[2, 200]);
    assert_eq!(r.data(), vec![255, 0, 255, 0, 255, 0, 255, 0, 255, 0, 255, 0]);
}

#[test]
fn base_threshold_defaults_to_128() {
    let with_default = bayer_dither_impl(&[100, 130, 160, 190], 2, 2, &[2]);
    let explicit = bayer_dither_impl(&[100, 130, 160, 190], 2, 2, &[2, 128]);
    assert_eq!(with_default.data(), explicit.data());
    assert_eq!(with_default.data(), vec![255, 255, 255, 255]);
}

#[test]
fn unsupported_sizes_fail() {
    for (n, message) in [
        (3u64, "Unsupported Bayer matrix size: 3"),
        (16, "Unsupported Bayer matrix size: 16"),
        (0, "Unsupported Bayer matrix size: 0"),
        (1, "Unsupported Bayer matrix size: 1"),
        (u64::MAX, "Unsupported Bayer matrix size: 18446744073709551615"),
    ] {
        let r = bayer_dither_impl(&[1, 2, 3, 4], 2, 2, &[n, 10]);
        assert!(!r.success());
        assert_eq!(r.error(), message);
        assert!(r.data().is_empty());
    }
}

#[test]
fn missing_size_fails() {
    let r = bayer_dither_impl(&[1, 2, 3, 4], 2, 2, &[]);
    assert!(!r.success());
    assert_eq!(r.error(), "Bayer dither requires matrix size parameter");
    assert!(r.data().is_empty());
}

#[test]
fn dither_takes_size_and_threshold_themselves() {
    assert_eq!(dither(&[128; 4], 2, 2, 2, 128), vec![255, 0, 0, 255]);
    assert_eq!(dither(&[96, 129, 144, 112], 2, 2, 2, 128), vec![0, 255, 0, 0]);
    assert_eq!(dither(&[97, 128, 145, 113], 2, 2, 2, 128), vec![255, 0, 255, 255]);
}
