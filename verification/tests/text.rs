use pixel_kernels::grid::{index_of, param_as_u8};
use pixel_kernels::text::{joined, push_decimal, same_text, with_number};

#[test]
fn decimal_numerals() {
    assert_eq!(with_number("", 0), "0");
    assert_eq!(with_number("", 7), "7");
    assert_eq!(with_number("n = ", 10), "n = 10");
    assert_eq!(with_number("", 1234567890), "1234567890");
    assert_eq!(with_number("", u64::MAX), "18446744073709551615");
}

#[test]
fn push_decimal_appends() {
    let mut s = String::from("a");
    push_decimal(&mut s, 409);
    push_decimal(&mut s, 0);
    assert_eq!(s, "a4090");
}

#[test]
fn joined_concatenates() {
    assert_eq!(joined("Unknown operation: ", "x y"), "Unknown operation: x y");
    assert_eq!(joined("", ""), "");
}

#[test]
fn same_text_compares_letter_for_letter() {
    assert!(same_text("box_blur", "box_blur"));
    assert!(!same_text("box_blur", "Box_blur"));
    assert!(!same_text("box_blur", "box_blur "));
    assert!(same_text("", ""));
}

#[test]
fn parameters_saturate_to_a_sample() {
    assert_eq!(param_as_u8(0), 0);
    assert_eq!(param_as_u8(128), 128);
    assert_eq!(param_as_u8(255), 255);
    assert_eq!(param_as_u8(256), 255);
    assert_eq!(param_as_u8(u64::MAX), 255);
}

#[test]
fn index_is_row_times_width_plus_column() {
    assert_eq!(index_of(5, 4, 0, 0), 0);
    assert_eq!(index_of(5, 4, 4, 0), 4);
    assert_eq!(index_of(5, 4, 0, 1), 5);
    assert_eq!(index_of(5, 4, 3, 2), 13);
    assert_eq!(index_of(5, 4, 4, 3), 19);
}
