//! The peer mask: the union of the digits placed in a cell's row, column and box.
use vstd::prelude::*;
use crate::grid::{box_cell, box_of, col_of, is_cell, related, row_of, shares_bit};

verus! {

/// Some cell related to `i` (its row, its column or its box) shares a bit with `d`.
pub open spec fn peer_shares(g: Seq<u32>, i: int, d: u32) -> bool {
    exists|j: int| is_cell(j) && related(i, j) && shares_bit(#[trigger] g[j], d)
}

proof fn lemma_or_bit(a: u32, b: u32, d: u32)
    ensures
        shares_bit(a | b, d) == (shares_bit(a, d) || shares_bit(b, d)),
{
    assert((a | b) & d != 0 <==> (a & d != 0 || b & d != 0)) by (bit_vector);
}

proof fn lemma_box_cell(i: int, k: int)
    requires
        is_cell(i),
        0 <= k < 9,
    ensures
        is_cell(box_cell(i, k)),
        box_of(box_cell(i, k)) == box_of(i),
{
    let a = i / 27;
    let b = (i % 9) / 3;
    let kr = k / 3;
    let kc = k % 3;
    assert(0 <= a < 3 && 0 <= b < 3 && 0 <= kr < 3 && 0 <= kc < 3);
    let cell = 27 * a + 3 * b + 9 * kr + kc;
    assert(box_cell(i, k) == cell);
    assert(cell / 27 == a && cell % 9 == 3 * b + kc) by (nonlinear_arith)
        requires
            cell == 27 * a + 3 * b + 9 * kr + kc,
            0 <= a < 3 && 0 <= b < 3 && 0 <= kr < 3 && 0 <= kc < 3,
    ;
    assert((3 * b + kc) / 3 == b) by (nonlinear_arith)
        requires
            0 <= b < 3 && 0 <= kc < 3,
    ;
}

/// The cells of a box, listed by `box_cell`, are exactly the cells of that box.
pub proof fn lemma_box_cells(i: int, j: int)
    requires
        is_cell(i),
    ensures
        forall|k: int| 0 <= k < 9 ==> is_cell(#[trigger] box_cell(i, k)) && box_of(box_cell(i, k)) == box_of(i),
        is_cell(j) && box_of(j) == box_of(i) ==> box_cell(i, (row_of(j) % 3) * 3 + col_of(j) % 3) == j,
{
    assert forall|k: int| 0 <= k < 9 implies is_cell(#[trigger] box_cell(i, k)) && box_of(box_cell(i, k)) == box_of(i) by {
        lemma_box_cell(i, k);
    }
    if is_cell(j) && box_of(j) == box_of(i) {
        let r = j / 9;
        let c = j % 9;
        let k = (r % 3) * 3 + c % 3;
        assert(j == 9 * r + c);
        assert(0 <= r < 9 && 0 <= c < 9);
        assert(r / 3 == i / 27 && c / 3 == (i % 9) / 3) by {
            assert(j / 27 == r / 3);
        }
        assert(k / 3 == r % 3 && k % 3 == c % 3);
        assert(r == 3 * (r / 3) + r % 3 && c == 3 * (c / 3) + c % 3);
    }
}

/// The bitwise union of the masks in the row, the column and the box of cell `index`.
pub fn get_peer_mask(grid: &[u32; 81], index: &usize) -> (r: u32)
    requires
        *index < 81,
    ensures
        forall|d: u32| #[trigger] shares_bit(r, d) == peer_shares(grid@, *index as int, d),
{
    let i = *index;
    let ghost g = grid@;
    let mut mask: u32 = 0;
    proof {
        assert forall|d: u32| !#[trigger] shares_bit(0u32, d) by {
            assert(0u32 & d == 0) by (bit_vector);
        }
    }

    // the row
    let start = (i / 9) * 9;
    let mut x: usize = start;
    while x < start + 9
        invariant
            i < 81,
            start == (i / 9) * 9,
            start <= x <= start + 9,
            g == grid@,
            forall|d: u32| #[trigger] shares_bit(mask, d) == exists|j: int|
                start <= j < x && shares_bit(#[trigger] g[j], d),
        decreases start + 9 - x,
    {
        let old_mask = mask;
        mask = mask | grid[x];
        proof {
            assert forall|d: u32| #[trigger] shares_bit(mask, d) == exists|j: int|
                start <= j < x + 1 && shares_bit(#[trigger] g[j], d) by {
                lemma_or_bit(old_mask, g[x as int], d);
            }
        }
        x += 1;
    }
    let ghost row_mask = mask;

    // the column
    let mut x: usize = i % 9;
    while x < 81
        invariant
            i < 81,
            x % 9 == i % 9,
            x < 90,
            g == grid@,
            forall|d: u32| #[trigger] shares_bit(mask, d) == ((exists|j: int|
                start <= j < start + 9 && shares_bit(#[trigger] g[j], d)) || exists|j: int|
                0 <= j < x && j % 9 == i % 9 && shares_bit(#[trigger] g[j], d)),
        decreases 90 - x,
    {
        let old_mask = mask;
        mask = mask | grid[x];
        proof {
            assert forall|d: u32| #[trigger] shares_bit(mask, d) == ((exists|j: int|
                start <= j < start + 9 && shares_bit(#[trigger] g[j], d)) || exists|j: int|
                0 <= j < x + 9 && j % 9 == i % 9 && shares_bit(#[trigger] g[j], d)) by {
                lemma_or_bit(old_mask, g[x as int], d);
                if exists|j: int| 0 <= j < x + 9 && j % 9 == i % 9 && shares_bit(#[trigger] g[j], d) {
                    let j = choose|j: int| 0 <= j < x + 9 && j % 9 == i % 9 && shares_bit(#[trigger] g[j], d);
                    if j != x {
                        assert(j < x);
                    }
                }
            }
        }
        x += 9;
    }

    // the box
    let corner = (i / 27) * 27 + ((i % 9) / 3) * 3;
    let mut k: usize = 0;
    while k < 9
        invariant
            i < 81,
            k <= 9,
            corner == (i / 27) * 27 + ((i % 9) / 3) * 3,
            g == grid@,
            forall|d: u32| #[trigger] shares_bit(mask, d) == ((exists|j: int|
                start <= j < start + 9 && shares_bit(#[trigger] g[j], d)) || (exists|j: int|
                0 <= j < 81 && j % 9 == i % 9 && shares_bit(#[trigger] g[j], d)) || exists|t: int|
                0 <= t < k && shares_bit(#[trigger] g[box_cell(i as int, t)], d)),
        decreases 9 - k,
    {
        let cell = corner + (k / 3) * 9 + k % 3;
        assert(cell == box_cell(i as int, k as int));
        proof {
            lemma_box_cells(i as int, 0);
        }
        let old_mask = mask;
        mask = mask | grid[cell];
        proof {
            assert forall|d: u32| #[trigger] shares_bit(mask, d) == ((exists|j: int|
                start <= j < start + 9 && shares_bit(#[trigger] g[j], d)) || (exists|j: int|
                0 <= j < 81 && j % 9 == i % 9 && shares_bit(#[trigger] g[j], d)) || exists|t: int|
                0 <= t < k + 1 && shares_bit(#[trigger] g[box_cell(i as int, t)], d)) by {
                lemma_or_bit(old_mask, g[cell as int], d);
                if exists|t: int| 0 <= t < k + 1 && shares_bit(#[trigger] g[box_cell(i as int, t)], d) {
                    let t = choose|t: int| 0 <= t < k + 1 && shares_bit(#[trigger] g[box_cell(i as int, t)], d);
                    if t != k {
                        assert(t < k);
                    }
                }
            }
        }
        k += 1;
    }
    proof {
        assert forall|d: u32| #[trigger] shares_bit(mask, d) == peer_shares(g, i as int, d) by {
            if peer_shares(g, i as int, d) {
                let j = choose|j: int| is_cell(j) && related(i as int, j) && shares_bit(#[trigger] g[j], d);
                lemma_box_cells(i as int, j);
                if row_of(j) == row_of(i as int) {
                    assert(start <= j < start + 9);
                } else if col_of(j) == col_of(i as int) {
                    assert(j % 9 == i % 9);
                } else {
                    let t = (row_of(j) % 3) * 3 + col_of(j) % 3;
                    assert(g[box_cell(i as int, t)] == g[j]);
                }
            }
            if shares_bit(mask, d) {
                lemma_box_cells(i as int, 0);
                if exists|j: int| start <= j < start + 9 && shares_bit(#[trigger] g[j], d) {
                    let j = choose|j: int| start <= j < start + 9 && shares_bit(#[trigger] g[j], d);
                    assert(is_cell(j) && related(i as int, j));
                } else if exists|j: int| 0 <= j < 81 && j % 9 == i % 9 && shares_bit(#[trigger] g[j], d) {
                    let j = choose|j: int| 0 <= j < 81 && j % 9 == i % 9 && shares_bit(#[trigger] g[j], d);
                    assert(is_cell(j) && related(i as int, j));
                } else {
                    let t = choose|t: int| 0 <= t < 9 && shares_bit(#[trigger] g[box_cell(i as int, t)], d);
                    let j = box_cell(i as int, t);
                    assert(is_cell(j) && related(i as int, j));
                }
            }
        }
    }
    mask
}

} // verus!
