use sudoku_gen::report::{count_clues, dedup, print_json_set, same_grid, SudokuSolution};

fn grid_with(first: u8) -> [u8; 81] {
    let mut g = [0u8; 81];
    g[0] = first;
    g
}

#[test]
fn clues_are_counted() {
    let mut g = [0u8; 81];
    assert_eq!(count_clues(&g), 0);
    g[5] = 3;
    g[80] = 9;
    assert_eq!(count_clues(&g), 2);
    assert_eq!(SudokuSolution::new(g, g).num_clues, 2);
}

#[test]
fn repeated_puzzles_keep_their_first_record() {
    let mut v = vec![
        SudokuSolution::new(grid_with(1), grid_with(5)),
        SudokuSolution::new(grid_with(2), grid_with(6)),
        SudokuSolution::new(grid_with(1), grid_with(7)),
        SudokuSolution::new(grid_with(2), grid_with(8)),
        SudokuSolution::new(grid_with(3), grid_with(9)),
    ];
    dedup(&mut v);
    assert_eq!(v.len(), 3);
    assert_eq!(v[0].solution[0], 5);
    assert_eq!(v[1].solution[0], 6);
    assert_eq!(v[2].solution[0], 9);
    assert!(same_grid(&v[0].puzzle, &grid_with(1)));
    assert!(!same_grid(&v[0].puzzle, &v[1].puzzle));
}

fn cells(g: &[u8; 81]) -> String {
    g.iter().map(|d| d.to_string()).collect::<Vec<_>>().join(",")
}

#[test]
fn json_text_of_records() {
    assert_eq!(print_json_set(&vec![]), "[]");
    let mut sol = [0u8; 81];
    for (i, d) in sol.iter_mut().enumerate() {
        *d = (i % 9 + 1) as u8;
    }
    let puzzle = grid_with(1);
    let a = SudokuSolution::new(puzzle, sol);
    let b = SudokuSolution { num_clues: 123, puzzle: grid_with(200), solution: sol };
    let expect_a = format!(
        "{{\"numClues\":1,\"solution\":[{}],\"puzzle\":[{}]}}",
        cells(&sol),
        cells(&puzzle)
    );
    let expect_b = format!(
        "{{\"numClues\":123,\"solution\":[{}],\"puzzle\":[{}]}}",
        cells(&sol),
        cells(&grid_with(200))
    );
    assert_eq!(print_json_set(&vec![a]), format!("[{}]", expect_a));
    assert_eq!(print_json_set(&vec![a, b]), format!("[{},\n{}]", expect_a, expect_b));
}
