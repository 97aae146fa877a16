//! The solution record handed to callers, its JSON text, and removal of
//! records whose puzzles repeat.
use vstd::prelude::*;
use vstd::string::StringExecFns;

verus! {

/// A puzzle, the solved grid it was carved from, and the number of its clues.
#[derive(Clone, Copy, Debug)]
pub struct SudokuSolution {
    pub num_clues: usize,
    pub puzzle: [u8; 81],
    pub solution: [u8; 81],
}

/// The number of non-empty cells among the first `n` cells of `g`.
pub open spec fn clues_upto(g: Seq<u8>, n: nat) -> nat
    decreases n,
{
    if n == 0 {
        0
    } else {
        clues_upto(g, (n - 1) as nat) + if g[n - 1] != 0 {
            1nat
        } else {
            0nat
        }
    }
}

/// The number of clues of a grid in digit form.
pub open spec fn clues(g: Seq<u8>) -> nat {
    clues_upto(g, g.len())
}

/// The number of non-empty cells of a grid.
pub fn count_clues(grid: &[u8; 81]) -> (r: usize)
    ensures
        r == clues(grid@),
{
    let mut n: usize = 0;
    let mut i: usize = 0;
    while i < 81
        invariant
            i <= 81,
            n == clues_upto(grid@, i as nat),
            n <= i,
        decreases 81 - i,
    {
        if grid[i] != 0 {
            n += 1;
        }
        i += 1;
    }
    n
}

impl SudokuSolution {
    /// The record of `puzzle`, carved from `solution`, with its clues counted.
    pub fn new(puzzle: [u8; 81], solution: [u8; 81]) -> (r: SudokuSolution)
        ensures
            r.puzzle == puzzle,
            r.solution == solution,
            r.num_clues == clues(puzzle@),
    {
        let num_clues = count_clues(&puzzle);
        SudokuSolution { num_clues, puzzle, solution }
    }
}

/// Whether two grids hold the same digits in every cell.
pub fn same_grid(a: &[u8; 81], b: &[u8; 81]) -> (r: bool)
    ensures
        r == (a@ == b@),
{
    let mut i: usize = 0;
    while i < 81
        invariant
            i <= 81,
            forall|j: int| 0 <= j < i ==> a@[j] == b@[j],
        decreases 81 - i,
    {
        if a[i] != b[i] {
            return false;
        }
        i += 1;
    }
    assert(a@ =~= b@);
    true
}

/// Some record in `s` has the puzzle `p`.
pub open spec fn has_puzzle(s: Seq<SudokuSolution>, p: Seq<u8>) -> bool {
    exists|k: int| 0 <= k < s.len() && (#[trigger] s[k]).puzzle@ == p
}

/// The first `n` records of `s`, keeping only the first record of each puzzle.
pub open spec fn unique_upto(s: Seq<SudokuSolution>, n: nat) -> Seq<SudokuSolution>
    decreases n,
{
    if n == 0 {
        seq![]
    } else {
        let kept = unique_upto(s, (n - 1) as nat);
        if has_puzzle(kept, s[n - 1].puzzle@) {
            kept
        } else {
            kept.push(s[n - 1])
        }
    }
}

/// The records of `s`, in order, keeping only the first record of each puzzle.
pub open spec fn unique_puzzles(s: Seq<SudokuSolution>) -> Seq<SudokuSolution> {
    unique_upto(s, s.len())
}

/// Drops every record whose puzzle an earlier record already has.
pub fn dedup(solutions: &mut Vec<SudokuSolution>)
    ensures
        final(solutions)@ == unique_puzzles(old(solutions)@),
{
    let mut kept: Vec<SudokuSolution> = Vec::new();
    let mut i: usize = 0;
    while i < solutions.len()
        invariant
            i <= solutions@.len(),
            solutions@ == old(solutions)@,
            kept@ == unique_upto(solutions@, i as nat),
        decreases solutions@.len() - i,
    {
        let candidate = solutions[i];
        let mut seen = false;
        let mut k: usize = 0;
        while k < kept.len()
            invariant
                k <= kept@.len(),
                seen == exists|t: int| 0 <= t < k && (#[trigger] kept@[t]).puzzle@ == candidate.puzzle@,
            decreases kept@.len() - k,
        {
            if same_grid(&kept[k].puzzle, &candidate.puzzle) {
                seen = true;
            }
            k += 1;
        }
        if !seen {
            kept.push(candidate);
        }
        i += 1;
    }
    *solutions = kept;
}

/// The text of one decimal digit.
pub open spec fn digit_text(d: nat) -> Seq<char> {
    if d == 0 {
        "0"@
    } else if d == 1 {
        "1"@
    } else if d == 2 {
        "2"@
    } else if d == 3 {
        "3"@
    } else if d == 4 {
        "4"@
    } else if d == 5 {
        "5"@
    } else if d == 6 {
        "6"@
    } else if d == 7 {
        "7"@
    } else if d == 8 {
        "8"@
    } else {
        "9"@
    }
}

/// The decimal text of `n`, without leading zeros.
pub open spec fn decimal(n: nat) -> Seq<char>
    decreases n,
{
    if n < 10 {
        digit_text(n)
    } else {
        decimal(n / 10) + digit_text(n % 10)
    }
}

/// The first `n` cells of `g`, in decimal, separated by commas.
pub open spec fn cells_text(g: Seq<u8>, n: nat) -> Seq<char>
    decreases n,
{
    if n == 0 {
        seq![]
    } else if n == 1 {
        decimal(g[0] as nat)
    } else {
        cells_text(g, (n - 1) as nat) + ","@ + decimal(g[n - 1] as nat)
    }
}

/// The JSON object of one record.
pub open spec fn solution_json(s: SudokuSolution) -> Seq<char> {
    "{"@ + "\"numClues\":"@ + decimal(s.num_clues as nat) + ","@ + "\"solution\":"@ + "["@
        + cells_text(s.solution@, 81) + "]"@ + ","@ + "\"puzzle\":"@ + "["@ + cells_text(s.puzzle@, 81)
        + "]"@ + "}"@
}

/// The JSON objects of the first `n` records, separated by a comma and a line break.
pub open spec fn objects_text(s: Seq<SudokuSolution>, n: nat) -> Seq<char>
    decreases n,
{
    if n == 0 {
        seq![]
    } else if n == 1 {
        solution_json(s[0])
    } else {
        objects_text(s, (n - 1) as nat) + ",\n"@ + solution_json(s[n - 1])
    }
}

/// The JSON array of all the records.
pub open spec fn json_set(s: Seq<SudokuSolution>) -> Seq<char> {
    "["@ + objects_text(s, s.len()) + "]"@
}

fn push_digit(out: &mut String, d: usize)
    requires
        d < 10,
    ensures
        final(out)@ == old(out)@ + digit_text(d as nat),
{
    let t = match d {
        0 => "0",
        1 => "1",
        2 => "2",
        3 => "3",
        4 => "4",
        5 => "5",
        6 => "6",
        7 => "7",
        8 => "8",
        _ => "9",
    };
    out.append(t);
}

fn push_decimal(out: &mut String, n: usize)
    ensures
        final(out)@ == old(out)@ + decimal(n as nat),
    decreases n,
{
    if n < 10 {
        push_digit(out, n);
    } else {
        push_decimal(out, n / 10);
        push_digit(out, n % 10);
        assert(final(out)@ =~= old(out)@ + decimal(n as nat));
    }
}

fn push_cells(out: &mut String, g: &[u8; 81])
    ensures
        final(out)@ == old(out)@ + cells_text(g@, 81),
{
    let ghost start = out@;
    let mut i: usize = 0;
    while i < 81
        invariant
            i <= 81,
            out@ == start + cells_text(g@, i as nat),
        decreases 81 - i,
    {
        if i > 0 {
            out.append(",");
        }
        push_decimal(out, g[i] as usize);
        i += 1;
        assert(out@ =~= start + cells_text(g@, i as nat));
    }
}

fn print_json(suln: &SudokuSolution) -> (r: String)
    ensures
        r@ == solution_json(*suln),
{
    let mut out = String::new();
    out.append("{");
    out.append("\"numClues\":");
    push_decimal(&mut out, suln.num_clues);
    out.append(",");
    out.append("\"solution\":");
    out.append("[");
    push_cells(&mut out, &suln.solution);
    out.append("]");
    out.append(",");
    out.append("\"puzzle\":");
    out.append("[");
    push_cells(&mut out, &suln.puzzle);
    out.append("]");
    out.append("}");
    assert(out@ =~= solution_json(*suln));
    out
}

/// The records as a JSON array of objects with the fields `numClues`,
/// `solution` and `puzzle`, one object per line.
pub fn print_json_set(solutions: &Vec<SudokuSolution>) -> (r: String)
    ensures
        r@ == json_set(solutions@),
{
    let mut out = String::new();
    out.append("[");
    let ghost start = out@;
    let mut i: usize = 0;
    while i < solutions.len()
        invariant
            i <= solutions@.len(),
            out@ == start + objects_text(solutions@, i as nat),
            start == "["@,
        decreases solutions@.len() - i,
    {
        if i > 0 {
            out.append(",\n");
        }
        let row = print_json(&solutions[i]);
        out.append(row.as_str());
        i += 1;
        assert(out@ =~= start + objects_text(solutions@, i as nat));
    }
    out.append("]");
    assert(out@ =~= json_set(solutions@));
    out
}

} // verus!
