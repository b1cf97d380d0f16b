//! The board: 81 cells in row-major order, 0 for an empty cell, 1..9 for a
//! placed digit, with the row/column/box uniqueness constraint as its
//! mathematical model.
use vstd::prelude::*;

verus! {

/// Number of cells on a board: nine rows of nine columns.
pub const SIZE: usize = 81;

/// The row (0..9) of a linear position.
pub open spec fn row_of(p: int) -> int {
    p / 9
}

/// The column (0..9) of a linear position.
pub open spec fn col_of(p: int) -> int {
    p % 9
}

/// The 3x3 box (0..9) of a linear position.
pub open spec fn box_of(p: int) -> int {
    (p / 27) * 3 + (p % 9) / 3
}

/// Two positions constrain each other when they share a row, a column or a box.
/// A position shares a unit with itself.
pub open spec fn same_unit(p: int, q: int) -> bool {
    row_of(p) == row_of(q) || col_of(p) == col_of(q) || box_of(p) == box_of(q)
}

/// Cell `k` (0..9) of constraint unit `u` (0..27): units 0..9 are the rows,
/// 9..18 the columns, and 18..27 the boxes.
pub open spec fn unit_cell(u: int, k: int) -> int {
    if u < 9 {
        9 * u + k
    } else if u < 18 {
        9 * k + (u - 9)
    } else {
        27 * ((u - 18) / 3) + 3 * ((u - 18) % 3) + 9 * (k / 3) + k % 3
    }
}

/// Every cell value lies in 0..=9.
pub open spec fn cells_in_range(g: Seq<u8>) -> bool {
    forall|i: int| 0 <= i < g.len() ==> g[i] <= 9
}

/// No two cells of a common unit hold the same nonzero digit.
pub open spec fn consistent(g: Seq<u8>) -> bool {
    forall|p: int, q: int|
        0 <= p < g.len() && 0 <= q < g.len() && p != q && #[trigger] same_unit(p, q) && g[p] != 0
            ==> g[p] != g[q]
}

/// Every cell holds a digit: no empty cells remain.
pub open spec fn complete(g: Seq<u8>) -> bool {
    forall|i: int| 0 <= i < g.len() ==> 1 <= #[trigger] g[i] <= 9
}

/// Every originally given (nonzero) cell keeps its value in `s`.
pub open spec fn extends(g: Seq<u8>, s: Seq<u8>) -> bool {
    forall|i: int| 0 <= i < g.len() && g[i] != 0 ==> #[trigger] s[i] == g[i]
}

/// `s` is a full, constraint-satisfying assignment that preserves the clues of `g`.
pub open spec fn is_solution(g: Seq<u8>, s: Seq<u8>) -> bool {
    s.len() == 81 && complete(s) && consistent(s) && extends(g, s)
}

/// Row-major lexicographic order on boards: the order in which the solver
/// prefers completions.
pub open spec fn grid_le(a: Seq<u8>, b: Seq<u8>) -> bool {
    a == b || exists|i: int|
        0 <= i < a.len() && i < b.len() && (forall|m: int| 0 <= m < i ==> a[m] == b[m])
            && #[trigger] a[i] < #[trigger] b[i]
}

/// Digit `v` already occurs in the row, column or box of `pos` (the cell at
/// `pos` itself included).
pub open spec fn value_blocked(g: Seq<u8>, pos: int, v: u8) -> bool {
    exists|q: int| 0 <= q < 81 && #[trigger] same_unit(pos, q) && g[q] == v
}

/// The failure modes of a solve call.
#[derive(Clone, Copy, Debug, PartialEq, Eq, Structural)]
pub enum SolveError {
    /// The input held a cell value outside 0..=9.
    InvalidInput,
    /// No assignment satisfies all constraints for the given clues.
    Unsolvable,
}

/// An 81-cell board, row-major; a value object whose only content is its cells.
#[derive(Debug)]
pub struct Board(pub [u8; SIZE]);

impl View for Board {
    type V = Seq<u8>;

    open spec fn view(&self) -> Seq<u8> {
        self.0@
    }
}

impl Board {
    /// Wraps 81 raw cell values as a board.
    pub fn new(board: [u8; SIZE]) -> (r: Self)
        ensures
            r@ == board@,
    {
        Board(board)
    }
}

/// The character for a single digit 0..=9.
pub open spec fn digit_char(v: u8) -> char {
    if v == 0 {
        '0'
    } else if v == 1 {
        '1'
    } else if v == 2 {
        '2'
    } else if v == 3 {
        '3'
    } else if v == 4 {
        '4'
    } else if v == 5 {
        '5'
    } else if v == 6 {
        '6'
    } else if v == 7 {
        '7'
    } else if v == 8 {
        '8'
    } else {
        '9'
    }
}

/// The textual form of a board: nine lines of nine digits, row-major, no
/// separators.
pub open spec fn render_spec(g: Seq<u8>) -> Seq<char> {
    Seq::new(90, |i: int| if i % 10 == 9 {
        '\n'
    } else {
        digit_char(g[(i / 10) * 9 + i % 10])
    })
}

/// The one-character string for a digit 0..=9.
fn digit_str(v: u8) -> (s: &'static str)
    requires
        v <= 9,
    ensures
        s@ == seq![digit_char(v)],
{
    proof {
        reveal_strlit("0");
        reveal_strlit("1");
        reveal_strlit("2");
        reveal_strlit("3");
        reveal_strlit("4");
        reveal_strlit("5");
        reveal_strlit("6");
        reveal_strlit("7");
        reveal_strlit("8");
        reveal_strlit("9");
    }
    let s = match v {
        0 => "0",
        1 => "1",
        2 => "2",
        3 => "3",
        4 => "4",
        5 => "5",
        6 => "6",
        7 => "7",
        8 => "8",
        _ => "9",
    };
    proof {
        assert(s@ =~= seq![digit_char(v)]);
    }
    s
}

impl Board {
    /// Renders the board as nine lines of nine digits, row-major.
    pub fn render(&self) -> (out: String)
        requires
            cells_in_range(self@),
        ensures
            out@ == render_spec(self@),
    {
        let ghost g = self@;
        let mut out = String::new();
        let mut r: usize = 0;
        while r < 9
            invariant
                r <= 9,
                cells_in_range(g),
                g == self@,
                out@ == render_spec(g).take(10 * r),
            decreases 9 - r,
        {
            let mut c: usize = 0;
            while c < 9
                invariant
                    r < 9,
                    c <= 9,
                    cells_in_range(g),
                    g == self@,
                    out@ == render_spec(g).take(10 * r + c),
                decreases 9 - c,
            {
                let v = self.0[9 * r + c];
                out.append(digit_str(v));
                proof {
                    let k = 10 * r + c;
                    assert(render_spec(g)[k as int] == digit_char(g[9 * r + c]));
                    assert(render_spec(g).take(k as int + 1) =~= render_spec(g).take(k as int)
                        + seq![render_spec(g)[k as int]]);
                }
                c += 1;
            }
            out.append("\n");
            proof {
                reveal_strlit("\n");
                let k = 10 * r + 9;
                assert(render_spec(g)[k as int] == '\n');
                assert(render_spec(g).take(k as int + 1) =~= render_spec(g).take(k as int) + seq![
                    render_spec(g)[k as int],
                ]);
                assert("\n"@ =~= seq!['\n']);
            }
            r += 1;
        }
        proof {
            assert(render_spec(g).take(90) =~= render_spec(g));
        }
        out
    }
}

impl PartialEq for Board {
    /// Cell-wise comparison over all 81 positions.
    fn eq(&self, other: &Board) -> (r: bool) {
        let mut p: usize = 0;
        while p < SIZE
            invariant
                p <= 81,
                forall|m: int| 0 <= m < p ==> self.0@[m] == other.0@[m],
            decreases 81 - p,
        {
            if self.0[p] != other.0[p] {
                return false;
            }
            p += 1;
        }
        proof {
            assert(self.0@ =~= other.0@);
        }
        true
    }
}

impl vstd::std_specs::cmp::PartialEqSpecImpl for Board {
    open spec fn obeys_eq_spec() -> bool {
        true
    }

    open spec fn eq_spec(&self, other: &Board) -> bool {
        self.0@ == other.0@
    }
}

} // verus!
