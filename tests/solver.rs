use sudoku_gen::candidates::CandidateIndex;
use sudoku_gen::grid::transform_digit_to_mask;
use sudoku_gen::solver::{
    create_puzzle_from_complete_grid, create_puzzle_from_picks, create_puzzle_with,
    generate_filled_grid, generate_filled_grid_from_picks, generate_filled_grid_with, is_grid_filled, is_solvable_grid,
    CarveError, MAX_DIFFICULTY,
};

fn groups() -> Vec<Vec<usize>> {
    let mut out = Vec::new();
    for k in 0..9 {
        out.push((0..9).map(|c| k * 9 + c).collect());
        out.push((0..9).map(|r| r * 9 + k).collect());
        let corner = (k / 3) * 27 + (k % 3) * 3;
        out.push((0..9).map(|t| corner + (t / 3) * 9 + t % 3).collect());
    }
    out
}

fn is_solved(g: &[u8; 81]) -> bool {
    g.iter().all(|d| (1..=9).contains(d))
        && groups().iter().all(|grp| {
            let mut seen = [false; 10];
            grp.iter().all(|&i| !std::mem::replace(&mut seen[g[i] as usize], true))
        })
}

fn clues(g: &[u8; 81]) -> usize {
    g.iter().filter(|d| **d != 0).count()
}

#[test]
fn filled_grids_are_solved() {
    for _ in 0..20 {
        assert!(is_solved(&generate_filled_grid()));
    }
}

#[test]
fn difficulty_zero_keeps_the_grid() {
    let g = generate_filled_grid();
    let p = create_puzzle_from_complete_grid(g, 0).unwrap();
    assert_eq!(p, g);
    assert_eq!(clues(&p), 81);
}

#[test]
fn difficulty_above_the_limit_is_refused() {
    let g = generate_filled_grid();
    assert_eq!(MAX_DIFFICULTY, 50_000);
    assert_eq!(
        create_puzzle_from_complete_grid(g, 50_001),
        Err(CarveError::InvalidArgument)
    );
    assert_eq!(
        create_puzzle_from_complete_grid(g, u32::MAX),
        Err(CarveError::InvalidArgument)
    );
}

#[test]
fn carved_puzzles_agree_with_their_solution_and_are_unique() {
    let table = CandidateIndex::new();
    let g = generate_filled_grid();
    let p = create_puzzle_from_complete_grid(g, 20).unwrap();
    assert!(clues(&p) < 81);
    for i in 0..81 {
        assert!(p[i] == 0 || p[i] == g[i]);
    }
    let mut counter = 0u8;
    assert!(is_solvable_grid(&table, transform_digit_to_mask(p), &mut counter));
    assert_eq!(counter, 1);
}

#[test]
fn more_budget_never_leaves_more_clues() {
    fastrand::seed(11);
    let g = generate_filled_grid();
    let low = create_puzzle_from_complete_grid(g, 2).unwrap();
    fastrand::seed(11);
    let g2 = generate_filled_grid();
    assert_eq!(g, g2);
    let high = create_puzzle_from_complete_grid(g2, 10).unwrap();
    assert!(clues(&high) <= clues(&low));
}

#[test]
fn one_missing_cell_is_unique() {
    let table = CandidateIndex::new();
    let mut masks = transform_digit_to_mask(generate_filled_grid());
    masks[40] = 0;
    let mut counter = 0u8;
    assert!(is_solvable_grid(&table, masks, &mut counter));
    assert_eq!(counter, 1);
}

#[test]
fn swappable_pair_is_not_unique() {
    let table = CandidateIndex::new();
    let mut found = 0;
    for _ in 0..200 {
        let g = generate_filled_grid();
        // two rows of one band, two columns of different stacks, holding a and b crosswise
        for r1 in 0..9 {
            for r2 in (r1 + 1)..9 {
                if r1 / 3 != r2 / 3 {
                    continue;
                }
                for c1 in 0..9 {
                    for c2 in (c1 + 1)..9 {
                        let (a, b) = (g[r1 * 9 + c1], g[r1 * 9 + c2]);
                        if g[r2 * 9 + c1] == b && g[r2 * 9 + c2] == a {
                            let mut masks = transform_digit_to_mask(g);
                            for i in [r1 * 9 + c1, r1 * 9 + c2, r2 * 9 + c1, r2 * 9 + c2] {
                                masks[i] = 0;
                            }
                            let mut counter = 0u8;
                            assert!(!is_solvable_grid(&table, masks, &mut counter));
                            assert_eq!(counter, 2);
                            found += 1;
                        }
                    }
                }
            }
        }
        if found > 0 {
            break;
        }
    }
    assert!(found > 0);
}

#[test]
fn empty_board_is_not_unique() {
    let table = CandidateIndex::new();
    let mut counter = 0u8;
    assert!(!is_solvable_grid(&table, [0u32; 81], &mut counter));
    assert_eq!(counter, 2);
}

#[test]
fn filled_check_spots_an_empty_cell() {
    let mut masks = transform_digit_to_mask(generate_filled_grid());
    assert!(is_grid_filled(masks));
    masks[80] = 0;
    assert!(!is_grid_filled(masks));
}

#[test]
fn generate_then_carve_end_to_end() {
    let table = CandidateIndex::new();
    let g = generate_filled_grid();
    let full = create_puzzle_from_complete_grid(g, 0).unwrap();
    assert_eq!(clues(&full), 81);
    assert_eq!(full, g);
    let p = create_puzzle_from_complete_grid(g, 40).unwrap();
    assert!(clues(&p) < 81);
    let mut counter = 0u8;
    assert!(is_solvable_grid(&table, transform_digit_to_mask(p), &mut counter));
}

#[test]
fn one_index_serves_many_puzzles() {
    let table = CandidateIndex::new();
    for _ in 0..3 {
        let g = generate_filled_grid_with(&table);
        assert!(is_solved(&g));
        let p = create_puzzle_with(&table, g, 5).unwrap();
        for i in 0..81 {
            assert!(p[i] == 0 || p[i] == g[i]);
        }
        assert_eq!(create_puzzle_with(&table, g, 0).unwrap(), g);
        assert_eq!(create_puzzle_with(&table, g, 50_001), Err(CarveError::InvalidArgument));
    }
}

#[test]
fn row_missing_four_and_seven_is_not_unique() {
    let table = CandidateIndex::new();
    let mut digits = [0u8; 81];
    for (c, d) in [1u8, 2, 3, 0, 5, 6, 0, 8, 9].iter().enumerate() {
        digits[c] = *d;
    }
    let mut counter = 0u8;
    assert!(!is_solvable_grid(&table, transform_digit_to_mask(digits), &mut counter));
    assert_eq!(counter, 2);
}

#[test]
fn large_budget_gives_a_sparse_unique_puzzle() {
    let table = CandidateIndex::new();
    let fill_picks: Vec<usize> = (0..300).map(|i| (i * 7919 + 13) % 2520).collect();
    let g = generate_filled_grid_from_picks(&table, &fill_picks);
    let picks: Vec<usize> = (0..500).map(|i| (i * 104729 + 7) % 1000).collect();
    let p = create_puzzle_from_picks(&table, g, 150, &picks).unwrap();
    assert!(clues(&p) < 60);
    for i in 0..81 {
        assert!(p[i] == 0 || p[i] == g[i]);
    }
    let mut counter = 0u8;
    assert!(is_solvable_grid(&table, transform_digit_to_mask(p), &mut counter));
    assert_eq!(counter, 1);
}

#[test]
fn zero_picks_fill_the_smallest_grid() {
    let table = CandidateIndex::new();
    let g = generate_filled_grid_from_picks(&table, &vec![]);
    assert!(is_solved(&g));
    assert_eq!(&g[0..9], &[1, 2, 3, 4, 5, 6, 7, 8, 9]);
    assert_eq!(&g[9..18], &[4, 5, 6, 7, 8, 9, 1, 2, 3]);
    assert_eq!(&g[18..27], &[7, 8, 9, 1, 2, 3, 4, 5, 6]);
    assert_eq!(generate_filled_grid_from_picks(&table, &vec![0, 0, 0]), g);
}

#[test]
fn same_picks_fill_the_same_grid() {
    let table = CandidateIndex::new();
    let picks: Vec<usize> = (0..300).map(|i| (i * 7919 + 13) % 2520).collect();
    let a = generate_filled_grid_from_picks(&table, &picks);
    let b = generate_filled_grid_from_picks(&table, &picks);
    assert!(is_solved(&a));
    assert_eq!(a, b);
    let other: Vec<usize> = (0..300).map(|i| (i * 104729 + 5) % 2520).collect();
    assert!(is_solved(&generate_filled_grid_from_picks(&table, &other)));
}

#[test]
fn same_picks_and_more_budget_never_leave_more_clues() {
    let table = CandidateIndex::new();
    let g = generate_filled_grid_from_picks(&table, &vec![]);
    let picks: Vec<usize> = (0..500).map(|i| (i * 7919 + 3) % 1000).collect();
    let mut last = 81;
    for d in [0u32, 1, 3, 8, 20] {
        let p = create_puzzle_from_picks(&table, g, d, &picks).unwrap();
        assert_eq!(create_puzzle_from_picks(&table, g, d, &picks).unwrap(), p);
        for i in 0..81 {
            assert!(p[i] == 0 || p[i] == g[i]);
        }
        assert!(clues(&p) <= last);
        last = clues(&p);
    }
    assert!(last < 81);
    assert_eq!(
        create_puzzle_from_picks(&table, g, 50_001, &picks),
        Err(CarveError::InvalidArgument)
    );
}
