//! Filling a grid at random, checking that a puzzle has one solution, and
//! carving a solved grid into a puzzle.
use vstd::arithmetic::div_mod::{lemma_fundamental_div_mod, lemma_fundamental_div_mod_converse};
use vstd::prelude::*;
use vstd::set_lib::lemma_len_subset;
use crate::candidates::{
    available, lemma_available_distinct, lemma_available_members, present_upto, CandidateIndex,
};
use crate::grid::{
    box_of, digits_of, dmask, is_cell, is_cell_mask, is_digit_mask, lemma_digit_mask, lemma_digit_round_trip,
    lemma_digits_round_trip, lemma_mask_bits, lemma_masks_round_trip, lemma_solved_digits,
    mask_grid_wf, masks_consistent, masks_of, related, shares_bit, solved_digits, solved_masks,
    transform_digit_to_mask, transform_mask_to_digit, ALL_MASK, CELLS,
};
use crate::peers::{get_peer_mask, peer_shares};

verus! {

/// The number of empty cells among the first `n` cells of `g`.
pub open spec fn zeros_upto(g: Seq<u32>, n: nat) -> nat
    decreases n,
{
    if n == 0 {
        0
    } else {
        zeros_upto(g, (n - 1) as nat) + if g[n - 1] == 0 {
            1nat
        } else {
            0nat
        }
    }
}

/// The number of empty cells of a grid.
pub open spec fn zeros(g: Seq<u32>) -> nat {
    zeros_upto(g, 81)
}

/// `big` holds every digit that `small` holds, in the same cells.
pub open spec fn extends(big: Seq<u32>, small: Seq<u32>) -> bool {
    forall|i: int| is_cell(i) && small[i] != 0 ==> big[i] == small[i]
}

/// `sol` is a solution of the puzzle `g`.
pub open spec fn is_completion(sol: Seq<u32>, g: Seq<u32>) -> bool {
    solved_masks(sol) && extends(sol, g)
}

/// `g` has no solution.
pub open spec fn no_completion(g: Seq<u32>) -> bool {
    forall|sol: Seq<u32>| !#[trigger] is_completion(sol, g)
}

/// `g` has exactly one solution.
pub open spec fn unique_completion(g: Seq<u32>) -> bool {
    &&& exists|sol: Seq<u32>| #[trigger] is_completion(sol, g)
    &&& forall|a: Seq<u32>, b: Seq<u32>| #[trigger] is_completion(a, g) && #[trigger] is_completion(b, g) ==> a == b
}

/// `g` has two different solutions.
pub open spec fn two_completions(g: Seq<u32>) -> bool {
    exists|a: Seq<u32>, b: Seq<u32>| #[trigger] is_completion(a, g) && #[trigger] is_completion(b, g) && a != b
}

/// The value `v` stands among the first `k` entries of `opts`.
pub open spec fn tried(opts: Seq<u32>, k: int, v: u32) -> bool {
    exists|t: int| 0 <= t < k && opts[t] == v
}

/// A solved grid is its own and only solution.
proof fn lemma_filled_completion(h: Seq<u32>)
    requires
        solved_masks(h),
    ensures
        is_completion(h, h),
        forall|sol: Seq<u32>| #[trigger] is_completion(sol, h) ==> sol == h,
{
    assert forall|sol: Seq<u32>| #[trigger] is_completion(sol, h) implies sol == h by {
        assert(sol =~= h);
    }
}

proof fn lemma_zeros_update(g: Seq<u32>, n: nat, p: int, v: u32)
    requires
        0 <= p < n <= g.len(),
    ensures
        zeros_upto(g.update(p, v), n) + (if g[p] == 0 { 1nat } else { 0nat }) == zeros_upto(g, n)
            + (if v == 0 { 1nat } else { 0nat }),
        zeros_upto(g, n) <= n,
    decreases n,
{
    if n - 1 > p {
        lemma_zeros_update(g, (n - 1) as nat, p, v);
    } else {
        assert(g.update(p, v).subrange(0, p) =~= g.subrange(0, p));
        lemma_zeros_prefix(g, g.update(p, v), p as nat);
    }
}

proof fn lemma_zeros_prefix(a: Seq<u32>, b: Seq<u32>, n: nat)
    requires
        n <= a.len(),
        n <= b.len(),
        a.subrange(0, n as int) == b.subrange(0, n as int),
    ensures
        zeros_upto(a, n) == zeros_upto(b, n),
        zeros_upto(a, n) <= n,
    decreases n,
{
    if n > 0 {
        assert(a[n - 1] == a.subrange(0, n as int)[n - 1]);
        assert(b[n - 1] == b.subrange(0, n as int)[n - 1]);
        assert(a.subrange(0, n - 1) =~= a.subrange(0, n as int).subrange(0, n - 1));
        assert(b.subrange(0, n - 1) =~= b.subrange(0, n as int).subrange(0, n - 1));
        lemma_zeros_prefix(a, b, (n - 1) as nat);
    }
}

proof fn lemma_zeros_bound(g: Seq<u32>, n: nat)
    requires
        n <= g.len(),
    ensures
        zeros_upto(g, n) <= n,
        zeros_upto(g, n) == 0 <==> forall|i: int| 0 <= i < n ==> g[i] != 0,
    decreases n,
{
    if n > 0 {
        lemma_zeros_bound(g, (n - 1) as nat);
    }
}

/// A digit that a solution puts in an empty cell is free at that cell.
proof fn lemma_completion_is_available(g: Seq<u32>, idx: int, sol: Seq<u32>)
    requires
        mask_grid_wf(g),
        is_cell(idx),
        g[idx] == 0,
        is_completion(sol, g),
    ensures
        is_digit_mask(sol[idx]),
        !peer_shares(g, idx, sol[idx]),
{
    lemma_mask_bits();
    if peer_shares(g, idx, sol[idx]) {
        let j = choose|j: int| is_cell(j) && related(idx, j) && shares_bit(#[trigger] g[j], sol[idx]);
        assert(g[j] != 0);
        assert(g[j] == sol[idx]);
        assert(sol[j] == g[j]);
        assert(j != idx);
    }
}

/// Placing a free digit in an empty cell keeps a grid well formed and free of conflicts.
proof fn lemma_place(g: Seq<u32>, idx: int, v: u32)
    requires
        mask_grid_wf(g),
        masks_consistent(g),
        is_cell(idx),
        g[idx] == 0,
        is_digit_mask(v),
        !peer_shares(g, idx, v),
    ensures
        mask_grid_wf(g.update(idx, v)),
        masks_consistent(g.update(idx, v)),
        forall|sol: Seq<u32>| #[trigger] is_completion(sol, g.update(idx, v)) <==> is_completion(sol, g) && sol[idx] == v,
{
    lemma_mask_bits();
    let h = g.update(idx, v);
    assert forall|i: int, j: int|
        is_cell(i) && is_cell(j) && i != j && related(i, j) && #[trigger] h[i] != 0 implies h[i]
            != #[trigger] h[j] by {
        if i == idx && h[j] == v {
            assert(shares_bit(g[j], v));
        }
        if j == idx && h[i] == v {
            assert(related(idx, i));
            assert(shares_bit(g[i], v));
        }
    }
    assert forall|sol: Seq<u32>| #[trigger] is_completion(sol, h) <==> is_completion(sol, g) && sol[idx] == v by {
        if is_completion(sol, h) {
            assert(sol[idx] == h[idx]);
        }
    }
}

/// Every cell of `g` holds a digit.
pub fn is_grid_filled(grid: [u32; 81]) -> (r: bool)
    ensures
        r == forall|i: int| is_cell(i) ==> grid@[i] != 0,
{
    let mut i: usize = 0;
    while i < CELLS
        invariant
            i <= 81,
            forall|j: int| 0 <= j < i ==> grid@[j] != 0,
        decreases 81 - i,
    {
        if grid[i] == 0 {
            assert(is_cell(i as int) && grid@[i as int] == 0);
            return false;
        }
        i += 1;
    }
    true
}

/// The lowest empty cell of a grid that has one.
fn first_empty(grid: &[u32; 81]) -> (r: usize)
    requires
        exists|i: int| is_cell(i) && grid@[i] == 0,
    ensures
        r < 81,
        grid@[r as int] == 0,
        forall|j: int| 0 <= j < r ==> grid@[j] != 0,
{
    let mut i: usize = 0;
    while i < CELLS
        invariant
            i <= 81,
            exists|j: int| i <= j < 81 && grid@[j] == 0,
            forall|j: int| 0 <= j < i ==> grid@[j] != 0,
        decreases 81 - i,
    {
        if grid[i] == 0 {
            return i;
        }
        i += 1;
    }
    i
}

/// Counts the solutions of a puzzle, stopping as soon as two have been found.
///
/// `solution_counter` carries the count across the recursion: it grows by the
/// number of solutions of `grid`, up to two in all. The result tells whether
/// the count is still at most one.
pub fn is_solvable_grid(table: &CandidateIndex, grid: [u32; 81], solution_counter: &mut u8) -> (r: bool)
    requires
        table.wf(),
        mask_grid_wf(grid@),
        masks_consistent(grid@),
        exists|i: int| is_cell(i) && grid@[i] == 0,
        *old(solution_counter) <= 1,
    ensures
        *old(solution_counter) <= *final(solution_counter) <= 2,
        r == (*final(solution_counter) <= 1),
        *final(solution_counter) == *old(solution_counter) ==> no_completion(grid@),
        *final(solution_counter) == *old(solution_counter) + 1 && r ==> unique_completion(grid@),
        *final(solution_counter) > *old(solution_counter) ==> exists|sol: Seq<u32>| #[trigger] is_completion(sol, grid@),
        *old(solution_counter) == 0 && !r ==> two_completions(grid@),
        *old(solution_counter) == 0 ==> (r <==> !two_completions(grid@)),
    decreases zeros(grid@),
{
    let ghost g0 = grid@;
    let ghost c0 = *solution_counter;
    let mut work = grid;
    let index = first_empty(&work);
    let peer_mask = get_peer_mask(&work, &index);
    let options = table.get_available_options_from_peer_mask(peer_mask);
    proof {
        lemma_available_members(peer_mask);
        lemma_available_distinct(peer_mask);
    }
    let ghost opts = options@;
    let mut k: usize = 0;
    while k < options.len()
        invariant
            table.wf(),
            index < 81,
            g0[index as int] == 0,
            g0 == grid@,
            c0 == *old(solution_counter),
            mask_grid_wf(g0),
            masks_consistent(g0),
            work@ == g0.update(index as int, work@[index as int]),
            options@ == available(peer_mask),
            opts == options@,
            opts.no_duplicates(),
            k <= opts.len(),
            forall|d: u32| #[trigger] shares_bit(peer_mask, d) == peer_shares(g0, index as int, d),
            forall|d: u32| #[trigger] available(peer_mask).contains(d) <==> is_digit_mask(d) && !shares_bit(peer_mask, d),
            c0 <= *solution_counter <= 1,
            *solution_counter == c0 ==> forall|sol: Seq<u32>| #[trigger] is_completion(sol, g0) ==> !tried(opts, k as int, sol[index as int]),
            *solution_counter == c0 + 1 ==> exists|sol: Seq<u32>| #[trigger] is_completion(sol, g0) && tried(opts, k as int, sol[index as int]),
            *solution_counter == c0 + 1 ==> forall|a: Seq<u32>, b: Seq<u32>|
                #[trigger] is_completion(a, g0) && #[trigger] is_completion(b, g0) && tried(opts, k as int, a[index as int])
                    && tried(opts, k as int, b[index as int]) ==> a == b,
        decreases options.len() - k,
    {
        let opt = options[k];
        let ghost cur = *solution_counter;
        assert(available(peer_mask).contains(opt));
        work[index] = opt;
        let ghost h = g0.update(index as int, opt);
        proof {
            lemma_place(g0, index as int, opt);
            assert(work@ == h);
            assert(tried(opts, k + 1, opt));
            assert forall|v: u32| #[trigger] tried(opts, k + 1, v) <==> tried(opts, k as int, v) || v == opt by {
                if tried(opts, k + 1, v) && v != opt {
                    let t = choose|t: int| 0 <= t < k + 1 && opts[t] == v;
                    assert(t < k);
                }
            }
            assert(!tried(opts, k as int, opt));
        }
        if is_grid_filled(work) {
            proof {
                lemma_filled_completion(h);
            }
            *solution_counter = *solution_counter + 1;
            if *solution_counter > 1 {
                proof {
                    assert(is_completion(h, g0));
                    if c0 == 0 {
                        let a = choose|sol: Seq<u32>| #[trigger] is_completion(sol, g0) && tried(opts, k as int, sol[index as int]);
                        assert(a != h);
                        assert(is_completion(a, g0) && is_completion(h, g0));
                    }
                }
                return false;
            }
            proof {
                assert(is_completion(h, g0) && tried(opts, k + 1, h[index as int]));
            }
        } else {
            proof {
                lemma_zeros_update(g0, 81, index as int, opt);
                assert(opt != 0);
                assert(zeros(work@) < zeros(grid@));
            }
            if !is_solvable_grid(table, work, solution_counter) {
                proof {
                    let b = choose|sol: Seq<u32>| #[trigger] is_completion(sol, h);
                    assert(is_completion(b, g0) && b[index as int] == opt);
                    if c0 == 0 {
                        if cur == 0 {
                            let (x, y) = choose|x: Seq<u32>, y: Seq<u32>| #[trigger] is_completion(x, h) && #[trigger] is_completion(y, h) && x != y;
                            assert(is_completion(x, g0) && is_completion(y, g0));
                        } else {
                            let a = choose|sol: Seq<u32>| #[trigger] is_completion(sol, g0) && tried(opts, k as int, sol[index as int]);
                            assert(a != b);
                            assert(is_completion(a, g0) && is_completion(b, g0));
                        }
                    }
                }
                return false;
            }
            proof {
                if *solution_counter == cur + 1 {
                    let b = choose|sol: Seq<u32>| #[trigger] is_completion(sol, h);
                    assert(is_completion(b, g0) && tried(opts, k + 1, b[index as int]));
                }
            }
        }
        proof {
            // every solution of `g0` with `opt` at `index` is one of `h`
            assert forall|sol: Seq<u32>| #[trigger] is_completion(sol, g0) && sol[index as int] == opt implies is_completion(sol, h) by {}
            if *solution_counter == c0 {
                assert forall|sol: Seq<u32>| #[trigger] is_completion(sol, g0) implies !tried(opts, k + 1, sol[index as int]) by {
                    assert(sol[index as int] != opt ==> !tried(opts, k as int, sol[index as int]));
                    if sol[index as int] == opt {
                        assert(is_completion(sol, h));
                    }
                }
            }
            if *solution_counter == c0 + 1 {
                assert forall|a: Seq<u32>, b: Seq<u32>|
                    #[trigger] is_completion(a, g0) && #[trigger] is_completion(b, g0) && tried(opts, k + 1, a[index as int])
                        && tried(opts, k + 1, b[index as int]) implies a == b by {
                    if cur == c0 {
                        assert(a[index as int] == opt && b[index as int] == opt);
                        assert(is_completion(a, h) && is_completion(b, h));
                    } else {
                        assert(a[index as int] != opt);
                        assert(b[index as int] != opt);
                    }
                }
            }
        }
        k += 1;
    }
    work[index] = 0;
    proof {
        assert forall|sol: Seq<u32>| #[trigger] is_completion(sol, g0) implies tried(opts, k as int, sol[index as int]) by {
            lemma_completion_is_available(g0, index as int, sol);
            assert(opts.contains(sol[index as int]));
        }
    }
    *solution_counter <= 1
}

/// The digit index (0..9) of a fixed solved grid: row `r`, column `c`.
pub open spec fn pattern_index(r: int, c: int) -> int {
    (3 * (r % 3) + r / 3 + c) % 9
}

/// Digit index `k`, with the first two digits exchanged when `swap` holds.
pub open spec fn relabel(k: int, swap: bool) -> int {
    if swap && k == 0 {
        1
    } else if swap && k == 1 {
        0
    } else {
        k
    }
}

/// A fixed solved grid, with its digits 1 and 2 exchanged when `swap` holds.
/// It shows that solved grids exist, and that there are more than one.
pub open spec fn pattern_grid(swap: bool) -> Seq<u32> {
    Seq::new(81, |i: int| dmask(relabel(pattern_index(i / 9, i % 9), swap)))
}

proof fn lemma_mod_distinct(k: int, u: int, v: int)
    requires
        0 <= k,
        0 <= u < 9,
        0 <= v < 9,
        u != v,
    ensures
        (k + u) % 9 != (k + v) % 9,
{
    assert((k + u) % 9 != (k + v) % 9) by (nonlinear_arith)
        requires
            0 <= k,
            0 <= u < 9,
            0 <= v < 9,
            u != v,
    ;
}

proof fn lemma_pattern_cells(r1: int, c1: int, r2: int, c2: int)
    requires
        0 <= r1 < 9 && 0 <= c1 < 9 && 0 <= r2 < 9 && 0 <= c2 < 9,
        r1 != r2 || c1 != c2,
        r1 == r2 || c1 == c2 || (r1 / 3 == r2 / 3 && c1 / 3 == c2 / 3),
    ensures
        pattern_index(r1, c1) != pattern_index(r2, c2),
{
    let (a1, x1, a2, x2) = (r1 / 3, r1 % 3, r2 / 3, r2 % 3);
    assert(r1 == 3 * a1 + x1 && r2 == 3 * a2 + x2);
    if r1 == r2 {
        lemma_mod_distinct(3 * x1 + a1, c1, c2);
    } else if c1 == c2 {
        lemma_mod_distinct(c1, 3 * x1 + a1, 3 * x2 + a2);
        assert(3 * x1 + a1 + c1 == c1 + (3 * x1 + a1));
    } else {
        let (b, y1, y2) = (c1 / 3, c1 % 3, c2 % 3);
        assert(c1 == 3 * b + y1 && c2 == 3 * b + y2);
        lemma_mod_distinct(a1 + 3 * b, 3 * x1 + y1, 3 * x2 + y2);
        assert(3 * x1 + a1 + c1 == (a1 + 3 * b) + (3 * x1 + y1));
        assert(3 * x2 + a2 + c2 == (a1 + 3 * b) + (3 * x2 + y2));
    }
}

/// The fixed grids `pattern_grid` are solved, and differ from each other.
pub proof fn lemma_pattern_solved(swap: bool)
    ensures
        solved_masks(pattern_grid(swap)),
        pattern_grid(true)[0] != pattern_grid(false)[0],
{
    let p = pattern_grid(swap);
    assert(pattern_index(0, 0) == 0);
    assert forall|i: int| is_cell(i) implies is_cell_mask(#[trigger] p[i]) && p[i] != 0 by {
        assert(0 <= pattern_index(i / 9, i % 9) < 9);
    }
    assert forall|i: int, j: int|
        is_cell(i) && is_cell(j) && i != j && related(i, j) && #[trigger] p[i] != 0 implies p[i]
            != #[trigger] p[j] by {
        let (r1, c1, r2, c2) = (i / 9, i % 9, j / 9, j % 9);
        assert(i == 9 * r1 + c1 && j == 9 * r2 + c2);
        assert(box_of(i) == (r1 / 3) * 3 + c1 / 3 && box_of(j) == (r2 / 3) * 3 + c2 / 3) by {
            assert(i / 27 == r1 / 3);
            assert(j / 27 == r2 / 3);
        }
        lemma_pattern_cells(r1, c1, r2, c2);
        let k1 = relabel(pattern_index(r1, c1), swap);
        let k2 = relabel(pattern_index(r2, c2), swap);
        assert(0 <= pattern_index(r1, c1) < 9 && 0 <= pattern_index(r2, c2) < 9);
        assert(0 <= k1 < 9 && 0 <= k2 < 9 && k1 != k2);
    }
}

/// The digits among the first `k` that no cell related to cell `i` of `g` holds,
/// in ascending order.
pub open spec fn free_upto(g: Seq<u32>, i: int, k: nat) -> Seq<u32>
    decreases k,
{
    if k == 0 {
        seq![]
    } else {
        let f = free_upto(g, i, (k - 1) as nat);
        if peer_shares(g, i, dmask(k - 1)) {
            f
        } else {
            f.push(dmask(k - 1))
        }
    }
}

/// The digit masks free at cell `i` of `g`, in ascending order.
pub open spec fn free_digits(g: Seq<u32>, i: int) -> Seq<u32> {
    free_upto(g, i, 9)
}

proof fn lemma_free_upto(g: Seq<u32>, i: int, p: u32, k: nat)
    requires
        k <= 9,
        forall|d: u32| #[trigger] shares_bit(p, d) == peer_shares(g, i, d),
    ensures
        present_upto(ALL_MASK & !p, k) == free_upto(g, i, k),
    decreases k,
{
    if k > 0 {
        lemma_free_upto(g, i, p, (k - 1) as nat);
        let d = dmask(k - 1);
        assert(is_digit_mask(d));
        assert((d == 1 || d == 2 || d == 4 || d == 8 || d == 16 || d == 32 || d == 64 || d == 128
            || d == 256) ==> (((0x1ffu32 & !p) & d != 0) <==> (p & d == 0))) by (bit_vector);
        assert(shares_bit(p, d) == peer_shares(g, i, d));
    }
}

/// The pick at position `k` of `ps`, or 0 past its end.
pub open spec fn pick_at(ps: Seq<usize>, k: nat) -> nat {
    if k < ps.len() {
        ps[k as int] as nat
    } else {
        0
    }
}

/// The position read after `k`: the picks are read in a cycle.
pub open spec fn next_pos(ps: Seq<usize>, k: nat) -> nat {
    if k + 1 < ps.len() {
        k + 1
    } else {
        0
    }
}

/// The search at cell `i` of `g`, with the digits `opts` still to try there and
/// the picks read from position `k` of `ps`. Each try takes the digit at the
/// pick modulo the number left, removes it from `opts`, places it, and goes on
/// with the next cell; a dead end comes back and tries another. Gives whether a
/// full grid was reached, the grid (the one given when not), and the next position.
pub open spec fn fill_try(g: Seq<u32>, i: nat, opts: Seq<u32>, ps: Seq<usize>, k: nat) -> (bool, Seq<u32>, nat)
    decreases 81 - i, opts.len(),
{
    if i >= 81 || opts.len() == 0 {
        (false, g, k)
    } else {
        let j = pick_at(ps, k) % opts.len();
        let h = g.update(i as int, opts[j as int]);
        let child = if i + 1 >= 81 {
            (true, h, next_pos(ps, k))
        } else {
            fill_try(h, (i + 1) as nat, free_digits(h, (i + 1) as int), ps, next_pos(ps, k))
        };
        if child.0 {
            child
        } else {
            fill_try(g, i, opts.remove(j as int), ps, child.2)
        }
    }
}

/// The search from cell `i` of `g`, reading the picks from position `k` of `ps`.
pub open spec fn fill_at(g: Seq<u32>, i: nat, ps: Seq<usize>, k: nat) -> (bool, Seq<u32>, nat) {
    if i >= 81 {
        (true, g, k)
    } else {
        fill_try(g, i, free_digits(g, i as int), ps, k)
    }
}

/// The empty board.
pub open spec fn empty_grid() -> Seq<u32> {
    Seq::new(81, |i: int| 0u32)
}

/// The grid that the search from the empty board reaches with the picks `ps`.
pub open spec fn fill_result(ps: Seq<usize>) -> Seq<u32> {
    fill_at(empty_grid(), 0, ps, 0).1
}

/// Fills the cells from `index` on, trying the free digits of each cell in the
/// order that the picks give and backtracking out of dead ends.
fn fill_from(table: &CandidateIndex, grid: &mut [u32; 81], index: usize, picks: &Vec<usize>, pos: &mut usize) -> (ok: bool)
    requires
        table.wf(),
        index <= 81,
        *old(pos) <= picks@.len(),
        mask_grid_wf(old(grid)@),
        masks_consistent(old(grid)@),
        forall|i: int| index <= i < 81 ==> old(grid)@[i] == 0,
        forall|i: int| 0 <= i < index ==> old(grid)@[i] != 0,
    ensures
        (ok, final(grid)@, *final(pos) as nat) == fill_at(old(grid)@, index as nat, picks@, *old(pos) as nat),
        *final(pos) <= picks@.len(),
        ok ==> solved_masks(final(grid)@),
        !ok ==> final(grid)@ == old(grid)@,
        !ok ==> forall|sol: Seq<u32>| !#[trigger] is_completion(sol, old(grid)@),
    decreases 81 - index,
{
    if index == CELLS {
        return true;
    }
    let ghost g0 = grid@;
    let ghost pos0 = *pos as nat;
    let peer_mask = get_peer_mask(grid, &index);
    let mut options = table.get_available_options_from_peer_mask(peer_mask).clone();
    proof {
        lemma_available_members(peer_mask);
        assert(options@ =~= available(peer_mask));
        lemma_free_upto(g0, index as int, peer_mask, 9);
        assert forall|sol: Seq<u32>| #[trigger] is_completion(sol, g0) implies options@.contains(sol[index as int]) by {
            lemma_completion_is_available(g0, index as int, sol);
        }
    }
    while options.len() > 0
        invariant
            table.wf(),
            index < 81,
            g0 == old(grid)@,
            grid@ == g0,
            pos0 == *old(pos) as nat,
            *pos <= picks@.len(),
            mask_grid_wf(g0),
            masks_consistent(g0),
            forall|i: int| index <= i < 81 ==> g0[i] == 0,
            forall|i: int| 0 <= i < index ==> g0[i] != 0,
            forall|d: u32| #[trigger] shares_bit(peer_mask, d) == peer_shares(g0, index as int, d),
            forall|d: u32| #[trigger] options@.contains(d) ==> is_digit_mask(d) && !shares_bit(peer_mask, d),
            forall|sol: Seq<u32>| #[trigger] is_completion(sol, g0) ==> options@.contains(sol[index as int]),
            fill_at(g0, index as nat, picks@, pos0) == fill_try(g0, index as nat, options@, picks@, *pos as nat),
        decreases options.len(),
    {
        let pick = if *pos < picks.len() {
            picks[*pos]
        } else {
            0
        };
        let ghost k = *pos as nat;
        *pos = if picks.len() > 0 && *pos < picks.len() - 1 {
            *pos + 1
        } else {
            0
        };
        let j = pick % options.len();
        let ghost before = options@;
        let current_option = options.remove(j);
        assert(before.contains(current_option));
        proof {
            lemma_place(g0, index as int, current_option);
        }
        grid[index] = current_option;
        proof {
            assert(pick_at(picks@, k) == pick as nat);
            assert(*pos as nat == next_pos(picks@, k));
        }
        let ghost h = grid@;
        let ghost next = *pos as nat;
        if fill_from(table, grid, index + 1, picks, pos) {
            proof {
                assert(h == g0.update(index as int, before[j as int]));
                assert(fill_at(h, (index + 1) as nat, picks@, next).0);
                assert(fill_try(g0, index as nat, before, picks@, k) == fill_at(h, (index + 1) as nat, picks@, next));
                assert(fill_at(g0, index as nat, picks@, pos0) == fill_try(g0, index as nat, before, picks@, k));
                assert((true, grid@, *pos as nat) == fill_at(g0, index as nat, picks@, pos0));
            }
            return true;
        }
        grid[index] = 0;
        proof {
            assert(grid@ =~= g0);
            assert forall|d: u32| #[trigger] options@.contains(d) implies is_digit_mask(d) && !shares_bit(peer_mask, d) by {
                let t = choose|t: int| 0 <= t < options@.len() && options@[t] == d;
                if t < j {
                    assert(before[t] == d);
                } else {
                    assert(before[t + 1] == d);
                }
                assert(before.contains(d));
            }
            assert forall|sol: Seq<u32>| #[trigger] is_completion(sol, g0) implies options@.contains(sol[index as int]) by {
                assert(!is_completion(sol, g0.update(index as int, current_option)));
                let t = choose|t: int| 0 <= t < before.len() && before[t] == sol[index as int];
                if t < j {
                    assert(options@[t] == sol[index as int]);
                } else {
                    assert(t != j);
                    assert(options@[t - 1] == sol[index as int]);
                }
            }
        }
    }
    false
}

/// How many picks are drawn for one random grid; past them the search reads
/// them again from the start.
pub const FILL_PICKS: usize = 4096;

/// Picks are drawn from `0..PICK_RANGE`. Every count of digits from 1 to 9
/// divides it, so a pick modulo that count is uniform too.
pub const PICK_RANGE: usize = 2520;

/// The solved grid, in digit form, that the search reaches when its choices
/// are read from `picks`, in a cycle.
pub fn generate_filled_grid_from_picks(table: &CandidateIndex, picks: &Vec<usize>) -> (r: [u8; 81])
    requires
        table.wf(),
    ensures
        solved_digits(r@),
        r@ == digits_of(fill_result(picks@)),
{
    let mut grid: [u32; 81] = [0; 81];
    let mut pos: usize = 0;
    proof {
        lemma_mask_bits();
        assert(grid@ =~= empty_grid());
    }
    let ok = fill_from(table, &mut grid, 0, picks, &mut pos);
    proof {
        if !ok {
            lemma_pattern_solved(false);
            assert(is_completion(pattern_grid(false), empty_grid()));
        }
        lemma_solved_digits(grid@);
    }
    transform_mask_to_digit(grid)
}

/// A solved grid, in digit form, chosen at random.
pub fn generate_filled_grid() -> (r: [u8; 81])
    ensures
        solved_digits(r@),
        exists|ps: Seq<usize>| r@ == digits_of(#[trigger] fill_result(ps)),
{
    let table = CandidateIndex::new();
    generate_filled_grid_with(&table)
}

/// A solved grid, in digit form, chosen at random, using a candidate index built beforehand.
pub fn generate_filled_grid_with(table: &CandidateIndex) -> (r: [u8; 81])
    requires
        table.wf(),
    ensures
        solved_digits(r@),
        exists|ps: Seq<usize>| r@ == digits_of(#[trigger] fill_result(ps)),
{
    let mut picks: Vec<usize> = Vec::with_capacity(FILL_PICKS);
    let mut n: usize = 0;
    while n < FILL_PICKS
        invariant
            n <= FILL_PICKS,
        decreases FILL_PICKS - n,
    {
        picks.push(random_below(PICK_RANGE));
        n += 1;
    }
    let r = generate_filled_grid_from_picks(table, &picks);
    assert(r@ == digits_of(fill_result(picks@)));
    r
}

/// The nine digit masks, in ascending order.
pub open spec fn all_digit_masks() -> Seq<u32> {
    seq![1u32, 2, 4, 8, 16, 32, 64, 128, 256]
}

/// A solved grid with one cell cleared still has exactly one solution: the
/// other eight cells of its row leave a single digit for it.
pub proof fn lemma_one_hole_unique(start: Seq<u32>, c: int)
    requires
        solved_masks(start),
        is_cell(c),
    ensures
        unique_completion(start.update(c, 0)),
{
    let t = start.update(c, 0);
    assert(is_completion(start, t));
    let base = (c / 9) * 9;
    let rs = Seq::new(9, |k: int| start[base + k]);
    let full = all_digit_masks();
    assert forall|a: int, b: int| 0 <= a < 9 && 0 <= b < 9 && a != b implies rs[a] != rs[b] by {
        assert(related(base + a, base + b));
        assert(start[base + a] != 0);
    }
    assert(rs.no_duplicates());
    rs.unique_seq_to_set();
    full.lemma_cardinality_of_set();
    assert forall|sol: Seq<u32>| #[trigger] is_completion(sol, t) implies sol == start by {
        let v = sol[c];
        if v != start[c] {
            assert(is_digit_mask(v));
            assert(full.contains(v)) by {
                if v == 1 { assert(full[0] == v); }
                else if v == 2 { assert(full[1] == v); }
                else if v == 4 { assert(full[2] == v); }
                else if v == 8 { assert(full[3] == v); }
                else if v == 16 { assert(full[4] == v); }
                else if v == 32 { assert(full[5] == v); }
                else if v == 64 { assert(full[6] == v); }
                else if v == 128 { assert(full[7] == v); }
                else { assert(full[8] == v); }
            }
            if !rs.to_set().contains(v) {
                assert forall|x: u32| #[trigger] rs.to_set().contains(x) implies full.to_set().remove(v).contains(x) by {
                    let k = choose|k: int| 0 <= k < 9 && rs[k] == x;
                    assert(is_digit_mask(start[base + k]));
                    let x = rs[k];
                    if x == 1 { assert(full[0] == x); }
                    else if x == 2 { assert(full[1] == x); }
                    else if x == 4 { assert(full[2] == x); }
                    else if x == 8 { assert(full[3] == x); }
                    else if x == 16 { assert(full[4] == x); }
                    else if x == 32 { assert(full[5] == x); }
                    else if x == 64 { assert(full[6] == x); }
                    else if x == 128 { assert(full[7] == x); }
                    else { assert(full[8] == x); }
                }
                assert(full.to_set().contains(v));
                lemma_len_subset(rs.to_set(), full.to_set().remove(v));
                assert(false);
            }
            let k = choose|k: int| 0 <= k < 9 && rs[k] == v;
            let j = base + k;
            assert(j != c);
            assert(related(c, j));
            assert(is_cell(j));
            assert(t[j] == start[j] && start[j] != 0);
            assert(sol[j] == t[j]);
            assert(false);
        }
        assert(sol =~= start);
    }
}

/// The filled cells among the first `n` cells of `m`, in ascending order.
pub open spec fn filled_upto(m: Seq<u32>, n: nat) -> Seq<usize>
    decreases n,
{
    if n == 0 {
        seq![]
    } else {
        let f = filled_upto(m, (n - 1) as nat);
        if m[n - 1] != 0 {
            f.push((n - 1) as usize)
        } else {
            f
        }
    }
}

/// The filled cells of a grid, in ascending order.
pub open spec fn filled(m: Seq<u32>) -> Seq<usize> {
    filled_upto(m, 81)
}

/// One carving step with the random pick `pick`: the cell it names among the
/// filled ones is cleared, and the removal is kept when the puzzle still has
/// exactly one solution. Also tells whether the removal was rejected.
pub open spec fn carve_step(m: Seq<u32>, pick: nat) -> (Seq<u32>, bool) {
    let cells = filled(m);
    if cells.len() == 0 {
        (m, false)
    } else {
        let t = m.update(cells[(pick % cells.len()) as int] as int, 0);
        if unique_completion(t) {
            (t, false)
        } else {
            (m, true)
        }
    }
}

/// The grid after carving steps with the picks `ps`, and how many removals were rejected.
pub open spec fn carve_run(m: Seq<u32>, ps: Seq<nat>) -> (Seq<u32>, nat)
    decreases ps.len(),
{
    if ps.len() == 0 {
        (m, 0)
    } else {
        let prev = carve_run(m, ps.drop_last());
        let next = carve_step(prev.0, ps.last());
        (next.0, prev.1 + if next.1 {
            1nat
        } else {
            0nat
        })
    }
}

/// Carving `m` with the picks `ps` stops right after them with the budget `d`:
/// the last pick brings the rejections to `d`, and none before it did.
pub open spec fn carve_stops(m: Seq<u32>, ps: Seq<nat>, d: nat) -> bool {
    &&& carve_run(m, ps).1 == d
    &&& forall|j: int| 0 <= j < ps.len() ==> (#[trigger] carve_run(m, ps.take(j))).1 < d
}

proof fn lemma_filled_upto(m: Seq<u32>, n: nat)
    requires
        n <= 81,
        m.len() == 81,
    ensures
        forall|t: int| 0 <= t < filled_upto(m, n).len() ==> (#[trigger] filled_upto(m, n)[t]) < n && m[filled_upto(m, n)[t] as int] != 0,
        filled_upto(m, n).len() == 0 ==> forall|i: int| 0 <= i < n ==> m[i] == 0,
    decreases n,
{
    if n > 0 {
        lemma_filled_upto(m, (n - 1) as nat);
    }
}

/// A carving step never fills a cell back.
proof fn lemma_step_zeros(m: Seq<u32>, pick: nat)
    requires
        m.len() == 81,
    ensures
        zeros(carve_step(m, pick).0) >= zeros(m),
        carve_step(m, pick).0.len() == 81,
{
    lemma_filled_upto(m, 81);
    let cells = filled(m);
    if cells.len() > 0 {
        let c = cells[(pick % cells.len()) as int] as int;
        assert(m[c] != 0);
        lemma_zeros_update(m, 81, c, 0);
    }
}

proof fn lemma_run_take(ps: Seq<nat>, j: int)
    requires
        0 <= j < ps.len(),
    ensures
        ps.take(j + 1).drop_last() == ps.take(j),
        ps.take(j + 1).last() == ps[j],
{
    assert(ps.take(j + 1).drop_last() =~= ps.take(j));
}

/// Along one sequence of picks, the empty cells and the rejections only grow.
proof fn lemma_run_grows(m: Seq<u32>, ps: Seq<nat>, i: int, j: int)
    requires
        m.len() == 81,
        0 <= i <= j <= ps.len(),
    ensures
        zeros(carve_run(m, ps.take(i)).0) <= zeros(carve_run(m, ps.take(j)).0),
        carve_run(m, ps.take(i)).1 <= carve_run(m, ps.take(j)).1,
        carve_run(m, ps.take(j)).0.len() == 81,
    decreases j - i, j,
{
    if j == 0 {
        assert(ps.take(0) =~= ps.take(j));
    } else {
        lemma_run_take(ps, j - 1);
        lemma_run_grows(m, ps, if i == j { j - 1 } else { i }, j - 1);
        lemma_step_zeros(carve_run(m, ps.take(j - 1)).0, ps[j - 1]);
        if i == j {
            lemma_run_grows(m, ps, j - 1, j - 1);
        }
    }
}

/// With the same random picks, a larger budget never leaves more clues: if carving
/// `m` with the picks `ps` stops after the first `n1` of them with budget `d1`, and
/// after the first `n2` with budget `d2 >= d1`, then the second puzzle has at least
/// as many empty cells as the first.
pub proof fn lemma_more_budget_fewer_clues(m: Seq<u32>, ps: Seq<nat>, n1: nat, n2: nat, d1: nat, d2: nat)
    requires
        m.len() == 81,
        n1 <= ps.len(),
        n2 <= ps.len(),
        d1 <= d2,
        carve_stops(m, ps.take(n1 as int), d1),
        carve_stops(m, ps.take(n2 as int), d2),
    ensures
        zeros(carve_run(m, ps.take(n1 as int)).0) <= zeros(carve_run(m, ps.take(n2 as int)).0),
{
    if n2 < n1 {
        assert(ps.take(n1 as int).take(n2 as int) =~= ps.take(n2 as int));
        assert(carve_run(m, ps.take(n1 as int).take(n2 as int)).1 < d1);
        assert(false);
    }
    lemma_run_grows(m, ps, n1 as int, n2 as int);
}

/// The first `n` picks read from `ps` in a cycle; all 0 when `ps` is empty.
pub open spec fn cycle(ps: Seq<usize>, n: nat) -> Seq<nat> {
    Seq::new(n, |t: int| if ps.len() == 0 { 0nat } else { ps[t % ps.len() as int] as nat })
}

/// With the same picks, a larger budget never leaves more clues: if carving `m`
/// with the picks read in a cycle from `ps` stops after `n1` picks with budget
/// `d1`, and after `n2` picks with budget `d2 >= d1`, then the second puzzle has
/// at least as many empty cells as the first.
pub proof fn lemma_same_picks_more_budget(m: Seq<u32>, ps: Seq<usize>, n1: nat, n2: nat, d1: nat, d2: nat)
    requires
        m.len() == 81,
        d1 <= d2,
        carve_stops(m, cycle(ps, n1), d1),
        carve_stops(m, cycle(ps, n2), d2),
    ensures
        zeros(carve_run(m, cycle(ps, n1)).0) <= zeros(carve_run(m, cycle(ps, n2)).0),
{
    let n = if n1 < n2 { n2 } else { n1 };
    let all = cycle(ps, n);
    assert(all.take(n1 as int) =~= cycle(ps, n1));
    assert(all.take(n2 as int) =~= cycle(ps, n2));
    lemma_more_budget_fewer_clues(m, all, n1, n2, d1, d2);
}

/// Why a puzzle cannot be carved.
#[derive(Debug, Clone, Copy, PartialEq, Eq, Structural)]
pub enum CarveError {
    /// The difficulty is above the largest one accepted.
    InvalidArgument,
}

/// The largest difficulty accepted.
pub const MAX_DIFFICULTY: u32 = 50_000;

/// The filled cells of a grid, in ascending order.
fn filled_cells(grid: &[u32; 81]) -> (r: Vec<usize>)
    ensures
        r@ == filled(grid@),
{
    let mut cells: Vec<usize> = Vec::new();
    let mut i: usize = 0;
    while i < CELLS
        invariant
            i <= 81,
            cells@ == filled_upto(grid@, i as nat),
        decreases 81 - i,
    {
        if grid[i] != 0 {
            cells.push(i);
        }
        i += 1;
    }
    cells
}

/// Removes digits from a solved grid, one random cell at a time, keeping each
/// removal after which the puzzle still has a single solution. Each rejected
/// removal uses one unit of `difficulty`; carving stops when none is left.
pub fn create_puzzle_from_complete_grid(grid: [u8; 81], difficulty: u32) -> (r: Result<[u8; 81], CarveError>)
    requires
        solved_digits(grid@),
    ensures
        difficulty > MAX_DIFFICULTY <==> r is Err,
        r is Err ==> r == Err::<[u8; 81], CarveError>(CarveError::InvalidArgument),
        r is Ok ==> forall|i: int| is_cell(i) ==> (#[trigger] r->Ok_0@[i] == 0 || r->Ok_0@[i] == grid@[i]),
        r is Ok ==> forall|sol: Seq<u32>| #[trigger] is_completion(sol, masks_of(r->Ok_0@)) <==> sol == masks_of(grid@),
        r is Ok ==> exists|ps: Seq<nat>|
            carve_stops(masks_of(grid@), ps, difficulty as nat) && #[trigger] carve_run(masks_of(grid@), ps).0 == masks_of(r->Ok_0@),
        difficulty == 0 ==> r == Ok::<[u8; 81], CarveError>(grid),
        r is Ok && difficulty > 0 ==> exists|i: int| is_cell(i) && #[trigger] r->Ok_0@[i] == 0,
{
    let table = CandidateIndex::new();
    create_puzzle_with(&table, grid, difficulty)
}

/// Carves a puzzle as `create_puzzle_from_complete_grid` does, using a candidate
/// index built beforehand.
pub fn create_puzzle_with(table: &CandidateIndex, grid: [u8; 81], difficulty: u32) -> (r: Result<[u8; 81], CarveError>)
    requires
        table.wf(),
        solved_digits(grid@),
    ensures
        difficulty > MAX_DIFFICULTY <==> r is Err,
        r is Err ==> r == Err::<[u8; 81], CarveError>(CarveError::InvalidArgument),
        r is Ok ==> forall|i: int| is_cell(i) ==> (#[trigger] r->Ok_0@[i] == 0 || r->Ok_0@[i] == grid@[i]),
        r is Ok ==> forall|sol: Seq<u32>| #[trigger] is_completion(sol, masks_of(r->Ok_0@)) <==> sol == masks_of(grid@),
        r is Ok ==> exists|ps: Seq<nat>|
            carve_stops(masks_of(grid@), ps, difficulty as nat) && #[trigger] carve_run(masks_of(grid@), ps).0 == masks_of(r->Ok_0@),
        difficulty == 0 ==> r == Ok::<[u8; 81], CarveError>(grid),
        r is Ok && difficulty > 0 ==> exists|i: int| is_cell(i) && #[trigger] r->Ok_0@[i] == 0,
{
    carve(table, grid, difficulty, &Vec::new(), true)
}

/// Carves a puzzle as `create_puzzle_from_complete_grid` does, reading the
/// random picks from `picks`, in a cycle: each names, modulo their number, one
/// of the filled cells in ascending order.
pub fn create_puzzle_from_picks(table: &CandidateIndex, grid: [u8; 81], difficulty: u32, picks: &Vec<usize>) -> (r: Result<[u8; 81], CarveError>)
    requires
        table.wf(),
        solved_digits(grid@),
    ensures
        difficulty > MAX_DIFFICULTY <==> r is Err,
        r is Err ==> r == Err::<[u8; 81], CarveError>(CarveError::InvalidArgument),
        r is Ok ==> forall|i: int| is_cell(i) ==> (#[trigger] r->Ok_0@[i] == 0 || r->Ok_0@[i] == grid@[i]),
        r is Ok ==> forall|sol: Seq<u32>| #[trigger] is_completion(sol, masks_of(r->Ok_0@)) <==> sol == masks_of(grid@),
        r is Ok ==> exists|n: nat|
            carve_stops(masks_of(grid@), cycle(picks@, n), difficulty as nat) && #[trigger] carve_run(masks_of(grid@), cycle(picks@, n)).0 == masks_of(r->Ok_0@),
        difficulty == 0 ==> r == Ok::<[u8; 81], CarveError>(grid),
        r is Ok && difficulty > 0 ==> exists|i: int| is_cell(i) && #[trigger] r->Ok_0@[i] == 0,
{
    let r = carve(table, grid, difficulty, picks, false);
    proof {
        if r is Ok {
            let ps = choose|ps: Seq<nat>| carve_stops(masks_of(grid@), ps, difficulty as nat) && #[trigger] carve_run(masks_of(grid@), ps).0 == masks_of(r->Ok_0@) && ps == cycle(picks@, ps.len());
            assert(carve_run(masks_of(grid@), cycle(picks@, ps.len())).0 == masks_of(r->Ok_0@));
        }
    }
    r
}

fn carve(table: &CandidateIndex, grid: [u8; 81], difficulty: u32, picks: &Vec<usize>, random: bool) -> (r: Result<[u8; 81], CarveError>)
    requires
        table.wf(),
        solved_digits(grid@),
    ensures
        difficulty > MAX_DIFFICULTY <==> r is Err,
        r is Err ==> r == Err::<[u8; 81], CarveError>(CarveError::InvalidArgument),
        r is Ok ==> forall|i: int| is_cell(i) ==> (#[trigger] r->Ok_0@[i] == 0 || r->Ok_0@[i] == grid@[i]),
        r is Ok ==> forall|sol: Seq<u32>| #[trigger] is_completion(sol, masks_of(r->Ok_0@)) <==> sol == masks_of(grid@),
        r is Ok ==> exists|ps: Seq<nat>|
            carve_stops(masks_of(grid@), ps, difficulty as nat) && #[trigger] carve_run(masks_of(grid@), ps).0 == masks_of(r->Ok_0@)
                && (!random ==> ps == cycle(picks@, ps.len())),
        difficulty == 0 ==> r == Ok::<[u8; 81], CarveError>(grid),
        r is Ok && difficulty > 0 ==> exists|i: int| is_cell(i) && #[trigger] r->Ok_0@[i] == 0,
{
    if difficulty > MAX_DIFFICULTY {
        return Err(CarveError::InvalidArgument);
    }
    let mut masks = transform_digit_to_mask(grid);
    let ghost start = masks@;
    proof {
        lemma_digits_round_trip(grid@);
        lemma_zeros_bound(masks@, 81);
        assert forall|i: int, j: int|
            is_cell(i) && is_cell(j) && i != j && related(i, j) && #[trigger] masks@[i] != 0 implies masks@[i]
                != #[trigger] masks@[j] by {
            lemma_digit_round_trip(grid@[i]);
            lemma_digit_round_trip(grid@[j]);
        }
        assert forall|i: int| is_cell(i) implies #[trigger] masks@[i] != 0 by {
            lemma_digit_round_trip(grid@[i]);
        }
        lemma_filled_completion(start);
    }
    let mut attempts = difficulty;
    let mut pos: usize = 0;
    let ghost mut ps: Seq<nat> = seq![];
    while attempts > 0
        invariant
            table.wf(),
            start == masks_of(grid@),
            mask_grid_wf(masks@),
            masks_consistent(masks@),
            forall|i: int| is_cell(i) ==> (#[trigger] masks@[i] == 0 || masks@[i] == start[i]),
            zeros(masks@) <= 81,
            attempts <= difficulty,
            difficulty == 0 ==> masks@ == start,
            solved_masks(start),
            forall|sol: Seq<u32>| #[trigger] is_completion(sol, masks@) <==> sol == start,
            carve_run(start, ps) == (masks@, (difficulty - attempts) as nat),
            forall|j: int| 0 <= j < ps.len() ==> (#[trigger] carve_run(start, ps.take(j))).1 < difficulty,
            pos <= picks@.len(),
            !random ==> ps == cycle(picks@, ps.len()),
            ps.len() == 0 ==> masks@ == start,
            ps.len() > 0 ==> zeros(masks@) > 0,
            !random ==> pos == if picks@.len() == 0 { 0 } else { ps.len() % picks@.len() },
        ensures
            attempts == 0,
        decreases attempts, 81 - zeros(masks@),
    {
        let cells = filled_cells(&masks);
        proof {
            lemma_filled_upto(masks@, 81);
        }
        if cells.len() == 0 {
            proof {
                lemma_pattern_solved(false);
                lemma_pattern_solved(true);
                assert(is_completion(pattern_grid(false), masks@));
                assert(is_completion(pattern_grid(true), masks@));
                assert(pattern_grid(false)[0] != pattern_grid(true)[0]);
                assert(false);
            }
            break;
        }
        let raw = if random {
            random_below(cells.len())
        } else if pos < picks.len() {
            picks[pos]
        } else {
            0
        };
        proof {
            if !random && picks@.len() > 0 {
                let n = ps.len() as int;
                let l = picks@.len() as int;
                let (q, r) = (n / l, n % l);
                lemma_fundamental_div_mod(n, l);
                assert(q * l == l * q && (q + 1) * l == q * l + l) by (nonlinear_arith);
                assert(n == q * l + r);
                if r + 1 < l {
                    lemma_fundamental_div_mod_converse(n + 1, l, q, r + 1);
                } else {
                    lemma_fundamental_div_mod_converse(n + 1, l, q + 1, 0);
                }
            }
        }
        pos = if picks.len() > 0 && pos < picks.len() - 1 {
            pos + 1
        } else {
            0
        };
        let index = cells[raw % cells.len()];
        let ghost step = carve_step(masks@, raw as nat);
        let ghost next_ps = ps.push(raw as nat);
        proof {
            if !random {
                assert(next_ps =~= cycle(picks@, next_ps.len()));
            }
            assert(next_ps.drop_last() =~= ps);
            assert forall|j: int| 0 <= j < next_ps.len() implies (#[trigger] carve_run(start, next_ps.take(j))).1 < difficulty by {
                if j < ps.len() {
                    assert(next_ps.take(j) =~= ps.take(j));
                } else {
                    assert(next_ps.take(j) =~= ps);
                }
            }
        }
        let removed_value = masks[index];
        let ghost before = masks@;
        masks[index] = 0;
        proof {
            lemma_zeros_update(before, 81, index as int, 0);
            lemma_zeros_bound(masks@, 81);
            assert(is_cell(index as int) && masks@[index as int] == 0);
        }
        let puzzle = masks;
        let mut counter: u8 = 0;
        proof {
            assert(is_completion(start, masks@));
            assert(filled(before)[((raw as nat) % (cells@.len() as nat)) as int] == index);
            assert(masks@ == before.update(index as int, 0));
            assert(puzzle@ == masks@);
        }
        if !is_solvable_grid(table, puzzle, &mut counter) {
            proof {
                let (x, y) = choose|x: Seq<u32>, y: Seq<u32>| #[trigger] is_completion(x, masks@) && #[trigger] is_completion(y, masks@) && x != y;
                assert(!unique_completion(masks@));
                assert(step.0 == before);
                if ps.len() == 0 {
                    lemma_one_hole_unique(start, index as int);
                }
            }
            attempts -= 1;
            masks[index] = removed_value;
            assert(masks@ =~= before);
        } else {
            proof {
                assert(counter == 1);
                assert(unique_completion(masks@));
                assert(step.0 == masks@);
                assert forall|sol: Seq<u32>| #[trigger] is_completion(sol, masks@) <==> sol == start by {
                    if is_completion(sol, masks@) {
                        assert(is_completion(start, masks@));
                    }
                }
            }
        }
        proof {
            assert(step.0 == masks@);
            ps = next_ps;
        }
    }
    let out = transform_mask_to_digit(masks);
    proof {
        assert forall|i: int| is_cell(i) implies (#[trigger] out@[i] == 0 || out@[i] == grid@[i]) by {
            lemma_digit_round_trip(grid@[i]);
            lemma_digit_mask(masks@[i]);
        }
        lemma_masks_round_trip(masks@);
        assert(masks_of(out@) == masks@);
        assert(carve_stops(start, ps, difficulty as nat));
        assert(carve_run(masks_of(grid@), ps).0 == masks_of(out@));
        assert(!random ==> cycle(picks@, ps.len()) == ps);
        if difficulty > 0 {
            assert(ps.len() > 0);
            lemma_zeros_bound(masks@, 81);
            let i = choose|i: int| 0 <= i < 81 && masks@[i] == 0;
            lemma_digit_mask(masks@[i]);
            assert(is_cell(i) && out@[i] == 0);
            assert(exists|i: int| is_cell(i) && #[trigger] out@[i] == 0);
        }
        if difficulty == 0 {
            lemma_masks_round_trip(start);
            assert(out@ =~= grid@);
            assert(out =~= grid);
        }
    }
    assert(difficulty > 0 ==> exists|i: int| is_cell(i) && #[trigger] out@[i] == 0);
    let r: Result<[u8; 81], CarveError> = Ok(out);
    assert(r->Ok_0 == out);
    r
}

/// Relies on fastrand::usize: a value drawn at random from the range `0..n`,
/// which must not be empty.
#[verifier::external_body]
fn random_below(n: usize) -> (r: usize)
    requires
        n > 0,
    ensures
        r < n,
{
    fastrand::usize(..n)
}

} // verus!
