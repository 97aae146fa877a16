//! The board model: cell geometry, digit masks, validity of grids, and the
//! conversions between the mask form and the digit form of a grid.
use vstd::prelude::*;

verus! {

/// Number of cells on the board.
pub const CELLS: usize = 81;

/// The nine digit bits together.
pub const ALL_MASK: u32 = 0x1ff;

pub open spec fn row_of(i: int) -> int {
    i / 9
}

pub open spec fn col_of(i: int) -> int {
    i % 9
}

pub open spec fn box_of(i: int) -> int {
    (i / 27) * 3 + (i % 9) / 3
}

pub open spec fn is_cell(i: int) -> bool {
    0 <= i < 81
}

/// Two cells constrain each other (or are the same cell).
pub open spec fn related(i: int, j: int) -> bool {
    row_of(i) == row_of(j) || col_of(i) == col_of(j) || box_of(i) == box_of(j)
}

/// The `k`-th cell (0 <= k < 9) of the box holding cell `i`, row by row.
pub open spec fn box_cell(i: int, k: int) -> int {
    (i / 27) * 27 + ((i % 9) / 3) * 3 + (k / 3) * 9 + k % 3
}

/// The mask of digit `k + 1`, for 0 <= k < 9.
pub open spec fn dmask(k: int) -> u32 {
    if k == 0 {
        1
    } else if k == 1 {
        2
    } else if k == 2 {
        4
    } else if k == 3 {
        8
    } else if k == 4 {
        16
    } else if k == 5 {
        32
    } else if k == 6 {
        64
    } else if k == 7 {
        128
    } else {
        256
    }
}

/// A mask with exactly one of the nine digit bits set.
pub open spec fn is_digit_mask(m: u32) -> bool {
    m == 1 || m == 2 || m == 4 || m == 8 || m == 16 || m == 32 || m == 64 || m == 128 || m
        == 256
}

/// What a cell of a grid in mask form may hold: nothing, or one digit.
pub open spec fn is_cell_mask(m: u32) -> bool {
    m == 0 || is_digit_mask(m)
}

/// `m` shares a bit with `d`.
pub open spec fn shares_bit(m: u32, d: u32) -> bool {
    m & d != 0
}

pub open spec fn mask_grid_wf(g: Seq<u32>) -> bool {
    g.len() == 81 && forall|i: int| is_cell(i) ==> is_cell_mask(#[trigger] g[i])
}

/// No two distinct related cells hold the same digit.
pub open spec fn masks_consistent(g: Seq<u32>) -> bool {
    forall|i: int, j: int|
        is_cell(i) && is_cell(j) && i != j && related(i, j) && #[trigger] g[i] != 0 ==> g[i]
            != #[trigger] g[j]
}

/// A fully solved grid in mask form.
pub open spec fn solved_masks(g: Seq<u32>) -> bool {
    &&& mask_grid_wf(g)
    &&& masks_consistent(g)
    &&& forall|i: int| is_cell(i) ==> #[trigger] g[i] != 0
}

/// A fully solved grid in digit form.
pub open spec fn solved_digits(g: Seq<u8>) -> bool {
    &&& g.len() == 81
    &&& forall|i: int| is_cell(i) ==> 1 <= #[trigger] g[i] <= 9
    &&& forall|i: int, j: int|
        is_cell(i) && is_cell(j) && i != j && related(i, j) ==> #[trigger] g[i] != #[trigger] g[j]
}

/// The mask of a digit; 0 for an empty cell and for anything above 9.
pub open spec fn mask_of(d: u8) -> u32 {
    if 1 <= d <= 9 {
        dmask(d - 1)
    } else {
        0
    }
}

/// The digit of a mask: its lowest set digit bit, or 0 when none of the nine is set.
pub open spec fn digit_of(m: u32) -> u8 {
    if shares_bit(m, 1) {
        1
    } else if shares_bit(m, 2) {
        2
    } else if shares_bit(m, 4) {
        3
    } else if shares_bit(m, 8) {
        4
    } else if shares_bit(m, 16) {
        5
    } else if shares_bit(m, 32) {
        6
    } else if shares_bit(m, 64) {
        7
    } else if shares_bit(m, 128) {
        8
    } else if shares_bit(m, 256) {
        9
    } else {
        0
    }
}

pub open spec fn digits_of(g: Seq<u32>) -> Seq<u8> {
    Seq::new(g.len(), |i: int| digit_of(g[i]))
}

pub open spec fn masks_of(g: Seq<u8>) -> Seq<u32> {
    Seq::new(g.len(), |i: int| mask_of(g[i]))
}

/// The bits that single digit masks share with each other and with the empty mask.
pub proof fn lemma_mask_bits()
    ensures
        forall|a: u32, b: u32|
            is_digit_mask(a) && is_digit_mask(b) ==> (shares_bit(a, b) <==> a == b),
        forall|a: u32| #[trigger] shares_bit(0, a) == false,
{
    assert(forall|a: u32, b: u32|
        (a == 1 || a == 2 || a == 4 || a == 8 || a == 16 || a == 32 || a == 64 || a == 128 || a
            == 256) && (b == 1 || b == 2 || b == 4 || b == 8 || b == 16 || b == 32 || b == 64 || b
            == 128 || b == 256) ==> (a & b != 0 <==> a == b)) by (bit_vector);
    assert(forall|a: u32| (0u32 & a) == 0) by (bit_vector);
}

/// A digit mask and its digit determine each other.
pub proof fn lemma_digit_mask(m: u32)
    ensures
        is_digit_mask(m) ==> 1 <= digit_of(m) <= 9 && mask_of(digit_of(m)) == m,
        m == 0 ==> digit_of(m) == 0,
{
    lemma_mask_bits();
}

/// Digits 0..=9 survive a trip through the mask form.
pub proof fn lemma_digit_round_trip(d: u8)
    ensures
        d <= 9 ==> digit_of(mask_of(d)) == d,
        is_cell_mask(mask_of(d)),
{
    lemma_mask_bits();
}

/// Converting a well-formed mask grid to digits and back gives the same grid.
pub proof fn lemma_masks_round_trip(g: Seq<u32>)
    requires
        mask_grid_wf(g),
    ensures
        masks_of(digits_of(g)) == g,
{
    assert forall|i: int| 0 <= i < 81 implies masks_of(digits_of(g))[i] == g[i] by {
        lemma_digit_mask(g[i]);
    }
    assert(masks_of(digits_of(g)) =~= g);
}

/// Converting a digit grid with values in 0..=9 to masks and back gives the same grid.
pub proof fn lemma_digits_round_trip(g: Seq<u8>)
    requires
        forall|i: int| 0 <= i < g.len() ==> #[trigger] g[i] <= 9,
    ensures
        digits_of(masks_of(g)) == g,
{
    assert forall|i: int| 0 <= i < g.len() implies digits_of(masks_of(g))[i] == g[i] by {
        lemma_digit_round_trip(g[i]);
    }
    assert(digits_of(masks_of(g)) =~= g);
}

/// A solved mask grid becomes a solved digit grid.
pub proof fn lemma_solved_digits(g: Seq<u32>)
    requires
        solved_masks(g),
    ensures
        solved_digits(digits_of(g)),
{
    let d = digits_of(g);
    assert forall|i: int| is_cell(i) implies 1 <= #[trigger] d[i] <= 9 by {
        lemma_digit_mask(g[i]);
    }
    assert forall|i: int, j: int|
        is_cell(i) && is_cell(j) && i != j && related(i, j) implies #[trigger] d[i]
        != #[trigger] d[j] by {
        lemma_digit_mask(g[i]);
        lemma_digit_mask(g[j]);
        assert(g[i] != 0);
    }
}

/// The mask of each digit: 1 for digit 1 up to 256 for digit 9, 0 for anything else.
pub fn mask_of_digit(d: u8) -> (r: u32)
    ensures
        r == mask_of(d),
{
    match d {
        1 => 1,
        2 => 2,
        3 => 4,
        4 => 8,
        5 => 16,
        6 => 32,
        7 => 64,
        8 => 128,
        9 => 256,
        _ => 0,
    }
}

/// The digit of a mask, reading its lowest set digit bit.
pub fn digit_of_mask(m: u32) -> (r: u8)
    ensures
        r == digit_of(m),
{
    if m & 1 != 0 {
        1
    } else if m & 2 != 0 {
        2
    } else if m & 4 != 0 {
        3
    } else if m & 8 != 0 {
        4
    } else if m & 16 != 0 {
        5
    } else if m & 32 != 0 {
        6
    } else if m & 64 != 0 {
        7
    } else if m & 128 != 0 {
        8
    } else if m & 256 != 0 {
        9
    } else {
        0
    }
}

/// Turns a grid of masks into a grid of digits (0 for an empty cell).
pub fn transform_mask_to_digit(mask_grid: [u32; 81]) -> (r: [u8; 81])
    ensures
        r@ == digits_of(mask_grid@),
{
    let mut digit_result: [u8; 81] = [0; 81];
    let mut idx: usize = 0;
    while idx < CELLS
        invariant
            idx <= 81,
            forall|i: int| 0 <= i < idx ==> digit_result@[i] == digit_of(mask_grid@[i]),
        decreases 81 - idx,
    {
        digit_result[idx] = digit_of_mask(mask_grid[idx]);
        idx += 1;
    }
    assert(digit_result@ =~= digits_of(mask_grid@));
    digit_result
}

/// Turns a grid of digits into a grid of masks; values above 9 count as empty.
pub fn transform_digit_to_mask(digit_grid: [u8; 81]) -> (r: [u32; 81])
    ensures
        r@ == masks_of(digit_grid@),
        mask_grid_wf(r@),
{
    let mut mask_result: [u32; 81] = [0; 81];
    let mut idx: usize = 0;
    while idx < CELLS
        invariant
            idx <= 81,
            forall|i: int| 0 <= i < idx ==> mask_result@[i] == mask_of(digit_grid@[i]),
        decreases 81 - idx,
    {
        mask_result[idx] = mask_of_digit(digit_grid[idx]);
        idx += 1;
    }
    assert(mask_result@ =~= masks_of(digit_grid@));
    assert forall|i: int| is_cell(i) implies is_cell_mask(#[trigger] mask_result@[i]) by {
        lemma_digit_round_trip(digit_grid@[i]);
    }
    mask_result
}

} // verus!
