use sudoku_gen::grid::{
    digit_of_mask, mask_of_digit, transform_digit_to_mask, transform_mask_to_digit,
};

#[test]
fn digit_masks_are_single_bits() {
    assert_eq!(mask_of_digit(0), 0);
    assert_eq!(mask_of_digit(1), 1);
    assert_eq!(mask_of_digit(5), 16);
    assert_eq!(mask_of_digit(9), 256);
    assert_eq!(mask_of_digit(10), 0);
    assert_eq!(digit_of_mask(0), 0);
    assert_eq!(digit_of_mask(128), 8);
    assert_eq!(digit_of_mask(512), 0);
}

#[test]
fn digits_survive_the_mask_form() {
    let mut g = [0u8; 81];
    for (i, cell) in g.iter_mut().enumerate() {
        *cell = (i % 10) as u8;
    }
    let masks = transform_digit_to_mask(g);
    assert_eq!(masks[3], 4);
    assert_eq!(masks[10], 0);
    assert_eq!(transform_mask_to_digit(masks), g);
}

#[test]
fn masks_survive_the_digit_form() {
    let mut m = [0u32; 81];
    for (i, cell) in m.iter_mut().enumerate() {
        *cell = 1u32 << (i % 9);
    }
    let digits = transform_mask_to_digit(m);
    assert_eq!(digits[0], 1);
    assert_eq!(digits[8], 9);
    assert_eq!(transform_digit_to_mask(digits), m);
}
