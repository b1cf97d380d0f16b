//! The backtracking search: per-cell status, the ordered hole list, candidate
//! computation, and the chronological backtracking loop.
use vstd::prelude::*;

use crate::grid::{
    Board, SolveError, SIZE, cells_in_range, complete, consistent, is_solution, grid_le,
    same_unit, row_of, col_of, box_of, value_blocked,
};

verus! {

/// Status of one position during the search.
#[derive(Clone, Copy, Debug)]
pub enum Cell {
    /// A given clue; never altered by the search.
    Fixed(u8),
    /// A trial value placed by the search; may be retracted.
    Guess(u8),
    /// No value assigned yet.
    Hole,
}

/// The digit a cell contributes to the board: its value, or 0 when empty.
pub open spec fn cell_val(c: Cell) -> u8 {
    match c {
        Cell::Fixed(x) => x,
        Cell::Guess(x) => x,
        Cell::Hole => 0,
    }
}

impl Cell {
    /// The digit this cell contributes to the board, 0 when empty.
    #[inline]
    pub fn as_val(self) -> (v: u8)
        ensures
            v == cell_val(self),
    {
        match self {
            Cell::Fixed(x) => x,
            Cell::Guess(x) => x,
            Cell::Hole => 0,
        }
    }
}

/// Working state of one solve call: per-position status plus the ordered list
/// of positions that were empty in the input (the holes), in row-major order.
pub struct Cells {
    pub inner: [Cell; SIZE],
    pub holes: [usize; SIZE],
    pub hole_count: usize,
}

/// A hit while scanning the row and column of a position.
pub open spec fn rc_hit(g: Seq<u8>, row: int, col: int, m: int, v: u8) -> bool {
    g[9 * m + col] == v || g[9 * row + m] == v
}

/// A hit while scanning the box with top-left corner `corner`, cell number `m`.
pub open spec fn box_hit(g: Seq<u8>, corner: int, m: int, v: u8) -> bool {
    g[corner + 9 * (m / 3) + m % 3] == v
}

/// Digit `v` occurs among the first `x` scanned cells of the row and column.
pub open spec fn seen_rc(g: Seq<u8>, row: int, col: int, x: int, v: u8) -> bool {
    exists|m: int| 0 <= m < x && #[trigger] rc_hit(g, row, col, m, v)
}

/// Digit `v` occurs among the first `t` scanned cells of the box.
pub open spec fn seen_box(g: Seq<u8>, corner: int, t: int, v: u8) -> bool {
    exists|m: int| 0 <= m < t && #[trigger] box_hit(g, corner, m, v)
}

/// Powers of ten, the radix of the termination measure.
pub open spec fn pow10(n: nat) -> nat
    decreases n,
{
    if n == 0 {
        1
    } else {
        10 * pow10((n - 1) as nat)
    }
}

/// Digit `j` of the termination measure at cursor `c`: the hole's current
/// value up to the cursor, and the maximal digit 9 beyond it.
pub open spec fn pdigit(s: Cells, c: int, j: int) -> nat {
    if j <= c {
        s.hole_val(j) as nat
    } else {
        9
    }
}

/// The measure digits `j..hole_count` read as a base-10 number, most
/// significant first. Placing a larger digit, or padding a retracted hole with
/// 9, strictly increases it, which bounds the backtracking loop.
pub open spec fn padded(s: Cells, c: int, j: int) -> nat
    decreases s.hole_count - j,
{
    if j < 0 || j >= s.hole_count {
        0
    } else {
        pdigit(s, c, j) * pow10((s.hole_count - 1 - j) as nat) + padded(s, c, j + 1)
    }
}

proof fn lemma_pow10_pos(n: nat)
    ensures
        pow10(n) >= 1,
    decreases n,
{
    if n > 0 {
        lemma_pow10_pos((n - 1) as nat);
    }
}

/// Every measure digit of a well-formed state is at most 9.
proof fn lemma_digits_bounded(s: Cells, c: int)
    requires
        s.wf(),
    ensures
        forall|j: int| 0 <= j < s.hole_count ==> #[trigger] pdigit(s, c, j) <= 9,
{
    assert forall|j: int| 0 <= j < s.hole_count implies #[trigger] pdigit(s, c, j) <= 9 by {
        assert(s.holes@[j] < 81);
    }
}

/// The padded number over digits `j..` is below `pow10(hole_count - j)`.
proof fn lemma_padded_bound(s: Cells, c: int, j: int)
    requires
        forall|k: int| 0 <= k < s.hole_count ==> #[trigger] pdigit(s, c, k) <= 9,
        0 <= j,
    ensures
        padded(s, c, j) < pow10(if j <= s.hole_count {
            (s.hole_count - j) as nat
        } else {
            0
        }),
    decreases s.hole_count - j,
{
    if j >= s.hole_count {
        lemma_pow10_pos(0);
    } else {
        lemma_padded_bound(s, c, j + 1);
        let p = pow10((s.hole_count - 1 - j) as nat);
        lemma_pow10_pos((s.hole_count - 1 - j) as nat);
        assert(pdigit(s, c, j) * p <= 9 * p) by (nonlinear_arith)
            requires
                pdigit(s, c, j) <= 9,
                p >= 0,
        ;
        assert(pow10((s.hole_count - j) as nat) == 10 * p);
    }
}

/// Two states with digits equal from `j` on have equal padded numbers.
proof fn lemma_padded_equal(s1: Cells, c1: int, s2: Cells, c2: int, j: int)
    requires
        s1.hole_count == s2.hole_count,
        forall|k: int| j <= k < s1.hole_count ==> #[trigger] pdigit(s1, c1, k) == pdigit(s2, c2, k),
    ensures
        padded(s1, c1, j) == padded(s2, c2, j),
    decreases s1.hole_count - j,
{
    if 0 <= j && j < s1.hole_count {
        lemma_padded_equal(s1, c1, s2, c2, j + 1);
    }
}

/// A strictly larger digit at `m`, with equal digits before it, makes the
/// padded number strictly larger.
proof fn lemma_padded_increases(s1: Cells, c1: int, s2: Cells, c2: int, j: int, m: int)
    requires
        s1.hole_count == s2.hole_count,
        0 <= j <= m < s1.hole_count,
        forall|k: int| j <= k < m ==> #[trigger] pdigit(s1, c1, k) == pdigit(s2, c2, k),
        pdigit(s1, c1, m) > pdigit(s2, c2, m),
        forall|k: int| 0 <= k < s2.hole_count ==> #[trigger] pdigit(s2, c2, k) <= 9,
    ensures
        padded(s1, c1, j) > padded(s2, c2, j),
    decreases m - j,
{
    if j == m {
        let p = pow10((s1.hole_count - 1 - j) as nat);
        lemma_pow10_pos((s1.hole_count - 1 - j) as nat);
        lemma_padded_bound(s2, c2, j + 1);
        let d1 = pdigit(s1, c1, j);
        let d2 = pdigit(s2, c2, j);
        assert(d1 * p >= (d2 + 1) * p) by (nonlinear_arith)
            requires
                d1 >= d2 + 1,
                p >= 0,
        ;
        assert((d2 + 1) * p == d2 * p + p) by (nonlinear_arith);
        assert(padded(s2, c2, j + 1) < p);
    } else {
        lemma_padded_increases(s1, c1, s2, c2, j + 1, m);
    }
}

/// Sharing a unit is a symmetric relation.
proof fn lemma_same_unit_symmetric(p: int, q: int)
    ensures
        same_unit(p, q) == same_unit(q, p),
{
}

/// `sol` matches the first `j` holes' current values.
pub open spec fn prefix_agrees(s: Cells, sol: Seq<u8>, j: int) -> bool {
    forall|m: int| 0 <= m < j ==> sol[#[trigger] s.hole_pos(m)] == s.hole_val(m)
}

/// `sol` matches the holes below `j` and exceeds the current value at hole `j`.
pub open spec fn exceeds_at(s: Cells, sol: Seq<u8>, j: int) -> bool {
    prefix_agrees(s, sol, j) && sol[s.hole_pos(j)] > s.hole_val(j)
}

/// Up to the cursor `c`, `sol` lies strictly above the current partial
/// assignment in hole order: the search has not passed it by.
pub open spec fn dominated(s: Cells, c: int, sol: Seq<u8>) -> bool {
    exists|j: int| 0 <= j < s.hole_count && j <= c && #[trigger] exceeds_at(s, sol, j)
}

/// A solution that agrees with the guesses below hole `i` cannot place, at
/// hole `i`, a digit that is blocked by the current board there.
proof fn lemma_solution_value_not_blocked(s: Cells, i: int, sol: Seq<u8>)
    requires
        s.wf(),
        0 <= i < s.hole_count,
        forall|j: int| i < j < s.hole_count ==> s.inner@[#[trigger] s.hole_pos(j)] is Hole,
        is_solution(s.origin(), sol),
        prefix_agrees(s, sol, i),
        sol[s.hole_pos(i)] > s.hole_val(i),
    ensures
        !value_blocked(s.grid(), s.hole_pos(i), sol[s.hole_pos(i)]),
{
    let pos = s.hole_pos(i);
    let u = sol[pos];
    if value_blocked(s.grid(), pos, u) {
        let q = choose|q: int| 0 <= q < 81 && #[trigger] same_unit(pos, q) && s.grid()[q] == u;
        assert(u > 0);
        assert(q != pos);
        assert(sol[q] == u) by {
            if s.inner@[q] is Fixed {
                assert(s.origin()[q] == u);
            } else {
                assert(s.listed(q));
                let m = choose|m: int| 0 <= m < s.hole_count && #[trigger] s.holes@[m] == q;
                assert(s.hole_pos(m) == q);
                if m > i {
                    assert(s.inner@[s.hole_pos(m)] is Hole);
                }
                assert(m < i);
                assert(sol[s.hole_pos(m)] == s.hole_val(m));
            }
        }
        assert(sol[pos] != sol[q]);
    }
}

/// Placing the first unblocked digit above the old value keeps every solution
/// at or above the search's position in the lexicographic hole order.
proof fn lemma_step_forward(pre: Cells, post: Cells, i: int, sol: Seq<u8>)
    requires
        pre.wf(),
        post.wf(),
        0 <= i < pre.hole_count,
        post.holes@ == pre.holes@,
        post.hole_count == pre.hole_count,
        post.origin() == pre.origin(),
        forall|j: int| i < j < pre.hole_count ==> pre.inner@[#[trigger] pre.hole_pos(j)] is Hole,
        post.inner@ == pre.inner@.update(pre.hole_pos(i), post.inner@[pre.hole_pos(i)]),
        pre.hole_val(i) < post.hole_val(i) <= 9,
        forall|u: u8|
            pre.hole_val(i) < u < post.hole_val(i) ==> value_blocked(
                pre.grid(),
                pre.hole_pos(i),
                u,
            ),
        is_solution(pre.origin(), sol),
        dominated(pre, i, sol),
    ensures
        dominated(post, i + 1, sol) || (i + 1 == post.hole_count && prefix_agrees(
            post,
            sol,
            post.hole_count as int,
        )),
{
    let pos = pre.hole_pos(i);
    assert forall|m: int|
        0 <= m < pre.hole_count && m != i implies #[trigger] post.hole_pos(m) == pre.hole_pos(m)
        && post.hole_val(m) == pre.hole_val(m) by {
        assert(post.hole_pos(m) != pos) by {
            if m < i {
                assert(pre.holes@[m] < pre.holes@[i]);
            } else {
                assert(pre.holes@[i] < pre.holes@[m]);
            }
        }
    }
    let j = choose|j: int| 0 <= j < pre.hole_count && j <= i && #[trigger] exceeds_at(pre, sol, j);
    if j < i {
        assert(exceeds_at(post, sol, j));
    } else {
        // j == i: sol agrees below hole i and exceeds the old value there.
        let w = post.hole_val(i);
        assert(sol[pos] >= w) by {
            if sol[pos] < w {
                assert(1 <= sol[pos] <= 9);
                assert(value_blocked(pre.grid(), pos, sol[pos]));
                lemma_solution_value_not_blocked(pre, i, sol);
            }
        }
        assert(prefix_agrees(post, sol, i));
        if sol[pos] > w {
            assert(exceeds_at(post, sol, i));
        } else {
            assert(prefix_agrees(post, sol, i + 1));
            if i + 1 < post.hole_count {
                assert(post.inner@[post.hole_pos(i + 1)] is Hole);
                assert(post.hole_val(i + 1) == 0);
                assert(1 <= sol[post.hole_pos(i + 1)]);
                assert(exceeds_at(post, sol, i + 1));
            }
        }
    }
}

/// Exhausting every digit above the current value at hole `i` and retracting
/// it keeps every solution at or above the search's position.
proof fn lemma_step_backward(pre: Cells, post: Cells, i: int, sol: Seq<u8>)
    requires
        pre.wf(),
        post.wf(),
        1 <= i < pre.hole_count,
        post.holes@ == pre.holes@,
        post.hole_count == pre.hole_count,
        post.origin() == pre.origin(),
        forall|j: int| i < j < pre.hole_count ==> pre.inner@[#[trigger] pre.hole_pos(j)] is Hole,
        post.inner@ == pre.inner@.update(pre.hole_pos(i), Cell::Hole),
        forall|u: u8|
            pre.hole_val(i) < u <= 9 ==> value_blocked(pre.grid(), pre.hole_pos(i), u),
        is_solution(pre.origin(), sol),
        dominated(pre, i, sol),
    ensures
        dominated(post, i - 1, sol),
{
    let pos = pre.hole_pos(i);
    assert forall|m: int|
        0 <= m < pre.hole_count && m != i implies #[trigger] post.hole_pos(m) == pre.hole_pos(m)
        && post.hole_val(m) == pre.hole_val(m) by {
        assert(post.hole_pos(m) != pos) by {
            if m < i {
                assert(pre.holes@[m] < pre.holes@[i]);
            } else {
                assert(pre.holes@[i] < pre.holes@[m]);
            }
        }
    }
    let j = choose|j: int| 0 <= j < pre.hole_count && j <= i && #[trigger] exceeds_at(pre, sol, j);
    if j == i {
        assert(1 <= sol[pos] <= 9);
        assert(value_blocked(pre.grid(), pos, sol[pos]));
        lemma_solution_value_not_blocked(pre, i, sol);
    } else {
        assert(exceeds_at(post, sol, j));
    }
}

/// When the first hole has exhausted every digit above its current value, no
/// solution is left at or above the search's position: none exists at all.
proof fn lemma_exhausted_at_first_hole(s: Cells, sol: Seq<u8>)
    requires
        s.wf(),
        s.hole_count > 0,
        forall|j: int| 0 < j < s.hole_count ==> s.inner@[#[trigger] s.hole_pos(j)] is Hole,
        forall|u: u8| s.hole_val(0) < u <= 9 ==> value_blocked(s.grid(), s.hole_pos(0), u),
        dominated(s, 0, sol),
    ensures
        !is_solution(s.origin(), sol),
{
    if is_solution(s.origin(), sol) {
        let j = choose|j: int| 0 <= j < s.hole_count && j <= 0 && #[trigger] exceeds_at(s, sol, j);
        assert(j == 0);
        assert(1 <= sol[s.hole_pos(0)] <= 9);
        assert(value_blocked(s.grid(), s.hole_pos(0), sol[s.hole_pos(0)]));
        lemma_solution_value_not_blocked(s, 0, sol);
    }
}

/// At a finished search every solution lies at or above the final board in
/// row-major lexicographic order.
proof fn lemma_exit_minimal(s: Cells, sol: Seq<u8>)
    requires
        s.wf(),
        is_solution(s.origin(), sol),
        dominated(s, s.hole_count as int, sol) || prefix_agrees(s, sol, s.hole_count as int),
    ensures
        grid_le(s.grid(), sol),
{
    if dominated(s, s.hole_count as int, sol) {
        let j = choose|j: int|
            0 <= j < s.hole_count && j <= s.hole_count && #[trigger] exceeds_at(s, sol, j);
        let i0 = s.hole_pos(j);
        assert forall|m: int| 0 <= m < i0 implies s.grid()[m] == sol[m] by {
            if s.inner@[m] is Fixed {
                assert(s.origin()[m] != 0);
            } else {
                assert(s.listed(m));
                let k = choose|k: int| 0 <= k < s.hole_count && #[trigger] s.holes@[k] == m;
                assert(s.hole_pos(k) == m);
                assert(k < j) by {
                    if k > j {
                        assert(s.holes@[j] < s.holes@[k]);
                    }
                }
                assert(sol[s.hole_pos(k)] == s.hole_val(k));
            }
        }
        assert(s.grid()[i0] < sol[i0]);
        assert(grid_le(s.grid(), sol)) by {
            assert(0 <= i0 < s.grid().len() && i0 < sol.len() && (forall|m: int|
                0 <= m < i0 ==> s.grid()[m] == sol[m]) && s.grid()[i0] < sol[i0]);
        }
    } else {
        assert forall|m: int| 0 <= m < 81 implies s.grid()[m] == sol[m] by {
            if s.inner@[m] is Fixed {
                assert(s.origin()[m] != 0);
            } else {
                assert(s.listed(m));
                let k = choose|k: int| 0 <= k < s.hole_count && #[trigger] s.holes@[k] == m;
                assert(s.hole_pos(k) == m);
                assert(sol[s.hole_pos(k)] == s.hole_val(k));
            }
        }
        assert(s.grid() =~= sol);
    }
}

/// Overwriting one non-fixed cell with a non-fixed cell keeps the search state
/// well-formed and leaves the input board it represents unchanged.
proof fn lemma_after_update(pre: Cells, post: Cells, pos: int, c: Cell)
    requires
        pre.wf(),
        0 <= pos < 81,
        !(pre.inner@[pos] is Fixed),
        !(c is Fixed),
        (c matches Cell::Guess(v) ==> 1 <= v <= 9),
        post.holes@ == pre.holes@,
        post.hole_count == pre.hole_count,
        post.inner@ == pre.inner@.update(pos, c),
    ensures
        post.wf(),
        post.origin() == pre.origin(),
{
    assert(post.origin() =~= pre.origin());
    assert forall|p2: int| 0 <= p2 < 81 && !(post.inner@[p2] is Fixed) implies post.listed(p2) by {
        assert(!(pre.inner@[p2] is Fixed));
        let j = choose|j: int| 0 <= j < pre.hole_count && #[trigger] pre.holes@[j] == p2;
        assert(post.holes@[j] == p2);
    }
}

impl Cells {
    /// The current board: each cell's effective value.
    pub open spec fn grid(self) -> Seq<u8> {
        Seq::new(81, |i: int| cell_val(self.inner@[i]))
    }

    /// The input board this state was built from: clues where fixed, 0 elsewhere.
    pub open spec fn origin(self) -> Seq<u8> {
        Seq::new(
            81,
            |i: int|
                match self.inner@[i] {
                    Cell::Fixed(v) => v,
                    _ => 0,
                },
        )
    }

    /// Position `p` appears in the hole list.
    pub open spec fn listed(self, p: int) -> bool {
        exists|j: int| 0 <= j < self.hole_count && #[trigger] self.holes@[j] == p
    }

    /// Structural soundness of the search state: the hole list is a strictly
    /// increasing enumeration of exactly the non-fixed positions, and every
    /// stored digit lies in 1..=9.
    pub open spec fn wf(self) -> bool {
        &&& self.hole_count <= 81
        &&& forall|j: int| 0 <= j < self.hole_count ==> #[trigger] self.holes@[j] < 81
        &&& forall|j: int, k: int|
            0 <= j < k < self.hole_count ==> #[trigger] self.holes@[j] < #[trigger] self.holes@[k]
        &&& forall|j: int|
            0 <= j < self.hole_count ==> !(#[trigger] self.inner@[self.holes@[j] as int] is Fixed)
        &&& forall|p: int| 0 <= p < 81 && !(#[trigger] self.inner@[p] is Fixed) ==> self.listed(p)
        &&& forall|p: int|
            0 <= p < 81 ==> match #[trigger] self.inner@[p] {
                Cell::Fixed(v) => 1 <= v <= 9,
                Cell::Guess(v) => 1 <= v <= 9,
                Cell::Hole => true,
            }
    }

    /// Builds the search state: nonzero input cells become fixed, the rest are
    /// holes, collected in row-major order.
    pub fn new(board: &[u8; SIZE]) -> (r: Cells)
        requires
            cells_in_range(board@),
        ensures
            r.wf(),
            r.origin() == board@,
            r.grid() == board@,
            forall|j: int| 0 <= j < r.hole_count ==> r.inner@[#[trigger] r.holes@[j] as int] is Hole,
    {
        let mut cells: [Cell; SIZE] = [Cell::Hole; SIZE];
        let mut holes: [usize; SIZE] = [0; SIZE];
        let mut hole_count: usize = 0;
        let mut p: usize = 0;
        while p < SIZE
            invariant
                p <= 81,
                hole_count <= p,
                cells_in_range(board@),
                forall|i: int| 0 <= i < p && board@[i] > 0 ==> #[trigger] cells@[i] == Cell::Fixed(board@[i]),
                forall|i: int| 0 <= i < p && board@[i] == 0 ==> #[trigger] cells@[i] is Hole,
                forall|i: int| p <= i < 81 ==> #[trigger] cells@[i] is Hole,
                forall|j: int| 0 <= j < hole_count ==> #[trigger] holes@[j] < p,
                forall|j: int| 0 <= j < hole_count ==> board@[#[trigger] holes@[j] as int] == 0,
                forall|j: int, k: int|
                    0 <= j < k < hole_count ==> #[trigger] holes@[j] < #[trigger] holes@[k],
                forall|i: int|
                    0 <= i < p && board@[i] == 0 ==> exists|j: int|
                        0 <= j < hole_count && #[trigger] holes@[j] == i,
            decreases 81 - p,
        {
            if board[p] > 0 {
                cells[p] = Cell::Fixed(board[p]);
            } else {
                let ghost holes0 = holes@;
                let ghost hc0 = hole_count;
                holes[hole_count] = p;
                hole_count += 1;
                proof {
                    assert forall|i: int|
                        0 <= i < p as int + 1 && board@[i] == 0 implies exists|j: int|
                        0 <= j < hole_count && #[trigger] holes@[j] == i by {
                        if i == p as int {
                            assert(holes@[hc0 as int] == i);
                        } else {
                            let j = choose|j: int| 0 <= j < hc0 && #[trigger] holes0[j] == i;
                            assert(holes@[j] == i);
                        }
                    }
                }
            }
            p += 1;
        }
        let r = Cells { inner: cells, holes, hole_count };
        proof {
            assert forall|pp: int| 0 <= pp < 81 && !(r.inner@[pp] is Fixed) implies r.listed(pp) by {
                assert(board@[pp] == 0);
                let j = choose|j: int| 0 <= j < hole_count && #[trigger] holes@[j] == pp;
                assert(r.holes@[j] == pp);
            }
            assert(r.origin() =~= board@);
            assert(r.grid() =~= board@);
        }
        r
    }

    /// The candidate table for `pos`: for each digit 1..=9, whether it is
    /// currently absent from the row, column and box of `pos`. Slots 0 is
    /// meaningless and may hold anything either way.
    #[verifier::rlimit(100)]
    pub fn get_valid(&self, pos: usize) -> (valid: [bool; 10])
        requires
            self.wf(),
            pos < 81,
        ensures
            forall|v: u8|
                1 <= v <= 9 ==> #[trigger] valid@[v as int] == !value_blocked(
                    self.grid(),
                    pos as int,
                    v,
                ),
    {
        let ghost g = self.grid();
        let mut result: [bool; 10] = [true; 10];
        let row_idx = pos / 9;
        let col_idx = pos % 9;
        let corners: [usize; 9] = [0, 3, 6, 27, 30, 33, 54, 57, 60];
        let corner = corners[(row_idx / 3) * 3 + (col_idx / 3)];
        proof {
            assert(corner == 27 * ((pos / 9) / 3) + 3 * ((pos % 9) / 3));
        }

        let mut x: usize = 0;
        while x < 9
            invariant
                x <= 9,
                self.wf(),
                pos < 81,
                g == self.grid(),
                row_idx == pos / 9,
                col_idx == pos % 9,
                forall|v: u8|
                    1 <= v <= 9 ==> #[trigger] result@[v as int] == !seen_rc(
                        g,
                        row_idx as int,
                        col_idx as int,
                        x as int,
                        v,
                    ),
            decreases 9 - x,
        {
            let qc = 9 * x + col_idx;
            let qr = 9 * row_idx + x;
            let vc = self.inner[qc].as_val();
            let vr = self.inner[qr].as_val();
            result[vc as usize] = false;
            result[vr as usize] = false;
            proof {
                assert(g[qc as int] == vc);
                assert(g[qr as int] == vr);
                assert(rc_hit(g, row_idx as int, col_idx as int, x as int, vc) || rc_hit(
                    g,
                    row_idx as int,
                    col_idx as int,
                    x as int,
                    vr,
                ));
                assert forall|v: u8| 1 <= v <= 9 implies #[trigger] result@[v as int] == !seen_rc(
                    g,
                    row_idx as int,
                    col_idx as int,
                    x as int + 1,
                    v,
                ) by {
                    if v == vc || v == vr {
                        assert(rc_hit(g, row_idx as int, col_idx as int, x as int, v));
                    } else {
                        assert(seen_rc(g, row_idx as int, col_idx as int, x as int + 1, v)
                            == seen_rc(g, row_idx as int, col_idx as int, x as int, v)) by {
                            if seen_rc(g, row_idx as int, col_idx as int, x as int + 1, v) {
                                let m = choose|m: int|
                                    0 <= m < x as int + 1 && #[trigger] rc_hit(
                                        g,
                                        row_idx as int,
                                        col_idx as int,
                                        m,
                                        v,
                                    );
                                assert(m < x as int);
                            }
                        }
                    }
                }
            }
            x += 1;
        }

        let mut t: usize = 0;
        while t < 9
            invariant
                t <= 9,
                self.wf(),
                pos < 81,
                g == self.grid(),
                row_idx == pos / 9,
                col_idx == pos % 9,
                corner == 27 * ((pos / 9) / 3) + 3 * ((pos % 9) / 3),
                forall|v: u8|
                    1 <= v <= 9 ==> #[trigger] result@[v as int] == !(seen_rc(
                        g,
                        row_idx as int,
                        col_idx as int,
                        9,
                        v,
                    ) || seen_box(g, corner as int, t as int, v)),
            decreases 9 - t,
        {
            let q = corner + 9 * (t / 3) + t % 3;
            let vb = self.inner[q].as_val();
            result[vb as usize] = false;
            proof {
                assert(g[q as int] == vb);
                assert(box_hit(g, corner as int, t as int, vb));
                assert forall|v: u8| 1 <= v <= 9 implies #[trigger] result@[v as int] == !(seen_rc(
                    g,
                    row_idx as int,
                    col_idx as int,
                    9,
                    v,
                ) || seen_box(g, corner as int, t as int + 1, v)) by {
                    if v != vb {
                        assert(seen_box(g, corner as int, t as int + 1, v) == seen_box(
                            g,
                            corner as int,
                            t as int,
                            v,
                        )) by {
                            if seen_box(g, corner as int, t as int + 1, v) {
                                let m = choose|m: int|
                                    0 <= m < t as int + 1 && #[trigger] box_hit(g, corner as int, m, v);
                                assert(m < t as int);
                            }
                        }
                    }
                }
            }
            t += 1;
        }

        proof {
            let p = pos as int;
            let row = row_idx as int;
            let col = col_idx as int;
            let cor = corner as int;
            assert forall|v: u8| 1 <= v <= 9 implies #[trigger] result@[v as int] == !value_blocked(
                g,
                p,
                v,
            ) by {
                assert((seen_rc(g, row, col, 9, v) || seen_box(g, cor, 9, v)) == value_blocked(
                    g,
                    p,
                    v,
                )) by {
                    if seen_rc(g, row, col, 9, v) {
                        let m = choose|m: int| 0 <= m < 9 && #[trigger] rc_hit(g, row, col, m, v);
                        if g[9 * m + col] == v {
                            assert(col_of(9 * m + col) == col_of(p));
                            assert(same_unit(p, 9 * m + col));
                        } else {
                            assert(row_of(9 * row + m) == row_of(p));
                            assert(same_unit(p, 9 * row + m));
                        }
                    }
                    if seen_box(g, cor, 9, v) {
                        let m = choose|m: int| 0 <= m < 9 && #[trigger] box_hit(g, cor, m, v);
                        let q = cor + 9 * (m / 3) + m % 3;
                        assert(q / 9 == 3 * ((p / 9) / 3) + m / 3) by {
                            assert(q == 9 * (3 * ((p / 9) / 3) + m / 3) + (3 * ((p % 9) / 3) + m % 3));
                            assert(0 <= 3 * ((p % 9) / 3) + m % 3 < 9);
                        }
                        assert(q % 9 == 3 * ((p % 9) / 3) + m % 3) by {
                            assert(q == 9 * (3 * ((p / 9) / 3) + m / 3) + (3 * ((p % 9) / 3) + m % 3));
                            assert(0 <= 3 * ((p % 9) / 3) + m % 3 < 9);
                        }
                        assert(box_of(q) == box_of(p)) by {
                            assert((q / 9) / 3 == (p / 9) / 3);
                            assert((q % 9) / 3 == (p % 9) / 3);
                        }
                        assert(same_unit(p, q));
                    }
                    if value_blocked(g, p, v) {
                        let q = choose|q: int| 0 <= q < 81 && #[trigger] same_unit(p, q) && g[q] == v;
                        if row_of(q) == row_of(p) {
                            assert(q == 9 * row + (q % 9));
                            assert(rc_hit(g, row, col, q % 9, v));
                        } else if col_of(q) == col_of(p) {
                            assert(q == 9 * (q / 9) + col);
                            assert(rc_hit(g, row, col, q / 9, v));
                        } else {
                            let m = 3 * ((q / 9) % 3) + (q % 9) % 3;
                            assert(m / 3 == (q / 9) % 3 && m % 3 == (q % 9) % 3);
                            assert((q / 9) / 3 == (p / 9) / 3 && (q % 9) / 3 == (p % 9) / 3);
                            assert(cor + 9 * (m / 3) + m % 3 == q) by {
                                assert(q / 9 == 3 * ((q / 9) / 3) + (q / 9) % 3);
                                assert(q % 9 == 3 * ((q % 9) / 3) + (q % 9) % 3);
                                assert(q == 9 * (q / 9) + q % 9);
                            }
                            assert(box_hit(g, cor, m, v));
                        }
                    }
                }
            }
        }
        result
    }

    /// The board position of hole number `idx`.
    pub open spec fn hole_pos(self, idx: int) -> int {
        self.holes@[idx] as int
    }

    /// The digit currently at hole number `idx`, 0 when empty.
    pub open spec fn hole_val(self, idx: int) -> u8 {
        cell_val(self.inner@[self.hole_pos(idx)])
    }

    /// One backtracking step at hole `idx`: scan for the next candidate above
    /// the hole's current value; on success place it and advance the cursor,
    /// otherwise retract the hole and step the cursor back, failing at the
    /// first hole.
    pub fn update_hole(&mut self, idx: usize) -> (r: Result<usize, ()>)
        requires
            old(self).wf(),
            idx < old(self).hole_count,
            consistent(old(self).grid()),
        ensures
            final(self).wf(),
            final(self).holes@ == old(self).holes@,
            final(self).hole_count == old(self).hole_count,
            final(self).origin() == old(self).origin(),
            consistent(final(self).grid()),
            r is Err ==> *final(self) == *old(self) && idx == 0 && forall|u: u8|
                old(self).hole_val(idx as int) < u <= 9 ==> value_blocked(
                    old(self).grid(),
                    old(self).hole_pos(idx as int),
                    u,
                ),
            r is Ok ==> r->Ok_0 == idx + 1 || (idx >= 1 && r->Ok_0 == idx - 1),
            (r is Ok && r->Ok_0 == idx + 1) ==> {
                &&& final(self).inner@ == old(self).inner@.update(
                    old(self).hole_pos(idx as int),
                    final(self).inner@[old(self).hole_pos(idx as int)],
                )
                &&& final(self).inner@[old(self).hole_pos(idx as int)] is Guess
                &&& old(self).hole_val(idx as int) < final(self).hole_val(idx as int) <= 9
                &&& !value_blocked(
                    old(self).grid(),
                    old(self).hole_pos(idx as int),
                    final(self).hole_val(idx as int),
                )
                &&& forall|u: u8|
                    old(self).hole_val(idx as int) < u < final(self).hole_val(idx as int)
                        ==> value_blocked(old(self).grid(), old(self).hole_pos(idx as int), u)
                &&& final(self).grid() == old(self).grid().update(
                    old(self).hole_pos(idx as int),
                    final(self).hole_val(idx as int),
                )
            },
            (r is Ok && r->Ok_0 != idx + 1) ==> {
                &&& idx >= 1
                &&& final(self).inner@ == old(self).inner@.update(
                    old(self).hole_pos(idx as int),
                    Cell::Hole,
                )
                &&& final(self).grid() == old(self).grid().update(old(self).hole_pos(idx as int), 0u8)
                &&& forall|u: u8|
                    old(self).hole_val(idx as int) < u <= 9 ==> value_blocked(
                        old(self).grid(),
                        old(self).hole_pos(idx as int),
                        u,
                    )
            },
    {
        let ghost g = self.grid();
        let pos = self.holes[idx];
        let cell = self.inner[pos];
        let valid = self.get_valid(pos);
        let ghost a = cell_val(cell);
        let mut value: u8 = cell.as_val() + 1;
        while value <= 9 && !valid[value as usize]
            invariant
                a <= 9,
                a + 1 <= value <= 10,
                forall|u: u8| a < u < value ==> value_blocked(g, pos as int, u),
                pos < 81,
                forall|v: u8|
                    1 <= v <= 9 ==> #[trigger] valid@[v as int] == !value_blocked(g, pos as int, v),
            decreases 10 - value,
        {
            value = value + 1;
        }
        if value > 9 {
            if idx == 0 {
                return Err(());
            }
            self.inner[pos] = Cell::Hole;
            proof {
                lemma_after_update(*old(self), *self, pos as int, Cell::Hole);
                assert(self.grid() =~= g.update(pos as int, 0u8));
                assert forall|p2: int, q2: int|
                    0 <= p2 < 81 && 0 <= q2 < 81 && p2 != q2 && #[trigger] same_unit(p2, q2)
                        && self.grid()[p2] != 0 implies self.grid()[p2] != self.grid()[q2] by {
                    assert(self.grid()[p2] == g[p2]);
                }
            }
            Ok(idx - 1)
        } else {
            self.inner[pos] = Cell::Guess(value);
            proof {
                lemma_after_update(*old(self), *self, pos as int, Cell::Guess(value));
                assert(self.grid() =~= g.update(pos as int, value));
                assert(!value_blocked(g, pos as int, value));
                assert forall|p2: int, q2: int|
                    0 <= p2 < 81 && 0 <= q2 < 81 && p2 != q2 && #[trigger] same_unit(p2, q2)
                        && self.grid()[p2] != 0 implies self.grid()[p2] != self.grid()[q2] by {
                    if p2 == pos as int {
                        if self.grid()[q2] == value {
                            assert(value_blocked(g, pos as int, value));
                        }
                    } else if q2 == pos as int {
                        if self.grid()[p2] == value {
                            assert(same_unit(pos as int, p2)) by {
                                lemma_same_unit_symmetric(p2, pos as int);
                            }
                            assert(value_blocked(g, pos as int, value));
                        }
                    }
                }
            }
            Ok(idx + 1)
        }
    }

    /// Runs the backtracking search over the hole list. On success every hole
    /// holds a guess and the board is a complete, consistent extension of the
    /// input. A board without holes is returned unchanged.
    #[verifier::loop_isolation(false)]
    pub fn solve(&mut self) -> (r: Result<(), ()>)
        requires
            old(self).wf(),
            consistent(old(self).grid()),
            forall|j: int|
                0 <= j < old(self).hole_count ==> old(self).inner@[#[trigger] old(
                    self,
                ).hole_pos(j)] is Hole,
        ensures
            final(self).wf(),
            final(self).origin() == old(self).origin(),
            r is Ok ==> complete(final(self).grid()) && consistent(final(self).grid()),
            old(self).hole_count == 0 ==> r is Ok && *final(self) == *old(self),
            r is Ok ==> forall|sol: Seq<u8>|
                #[trigger] is_solution(old(self).origin(), sol) ==> grid_le(
                    final(self).grid(),
                    sol,
                ),
            r is Err ==> forall|sol: Seq<u8>| !is_solution(old(self).origin(), sol),
    {
        let ghost orig = self.origin();
        let ghost hc0 = self.hole_count;
        let ghost at_entry = *self;
        let mut hole_index: usize = 0;
        proof {
            assert forall|sol: Seq<u8>| #[trigger] is_solution(orig, sol) implies dominated(
                *self,
                0,
                sol,
            ) || (0 == self.hole_count && prefix_agrees(*self, sol, self.hole_count as int)) by {
                if self.hole_count > 0 {
                    assert(self.inner@[self.hole_pos(0)] is Hole);
                    assert(self.hole_val(0) == 0);
                    assert(0 <= self.hole_pos(0) < 81);
                    assert(1 <= sol[self.hole_pos(0)]);
                    assert(exceeds_at(*self, sol, 0));
                }
            }
        }
        loop
            invariant
                hc0 == 0 ==> *self == at_entry,
                forall|sol: Seq<u8>|
                    #[trigger] is_solution(orig, sol) ==> dominated(
                        *self,
                        hole_index as int,
                        sol,
                    ) || (hole_index == self.hole_count && prefix_agrees(
                        *self,
                        sol,
                        self.hole_count as int,
                    )),
                self.wf(),
                self.hole_count == hc0,
                self.origin() == orig,
                hole_index <= self.hole_count,
                consistent(self.grid()),
                forall|j: int|
                    0 <= j < hole_index ==> self.inner@[#[trigger] self.hole_pos(j)] is Guess,
                forall|j: int|
                    hole_index < j < self.hole_count ==> self.inner@[#[trigger] self.hole_pos(
                        j,
                    )] is Hole,
            decreases pow10(hc0 as nat) - padded(*self, hole_index as int, 0), hole_index,
        {
            if hole_index >= self.hole_count {
                break;
            }
            let ghost pre = *self;
            let ghost i = hole_index as int;
            match self.update_hole(hole_index) {
                Ok(n) => {
                    proof {
                        lemma_digits_bounded(pre, i);
                        lemma_digits_bounded(*self, n as int);
                        lemma_padded_bound(*self, n as int, 0);
                        let pos = pre.hole_pos(i);
                        assert forall|j: int|
                            0 <= j < self.hole_count && j != i implies #[trigger] self.inner@[self.hole_pos(
                            j,
                        )] == pre.inner@[pre.hole_pos(j)] && self.hole_val(j) == pre.hole_val(
                            j,
                        ) by {
                            assert(self.hole_pos(j) != pos) by {
                                if j < i {
                                    assert(pre.holes@[j] < pre.holes@[i]);
                                } else {
                                    assert(pre.holes@[i] < pre.holes@[j]);
                                }
                            }
                        }
                        assert forall|j: int| 0 <= j < n implies self.inner@[#[trigger] self.hole_pos(
                            j,
                        )] is Guess by {
                            if j == i {
                                assert(n == i + 1);
                            }
                        }
                        assert forall|j: int|
                            n < j < self.hole_count implies self.inner@[#[trigger] self.hole_pos(
                            j,
                        )] is Hole by {
                            if j == i {
                                assert(n != i + 1);
                            }
                        }
                        if n == hole_index + 1 {
                            assert forall|k: int| 0 <= k < i implies #[trigger] pdigit(
                                *self,
                                n as int,
                                k,
                            ) == pdigit(pre, i, k) by {}
                            assert(pdigit(*self, n as int, i) > pdigit(pre, i, i));
                            lemma_padded_increases(*self, n as int, pre, i, 0, i);
                        } else {
                            let a = pre.hole_val(i);
                            assert(self.hole_val(i) == 0);
                            if a == 9 {
                                assert forall|k: int|
                                    0 <= k < self.hole_count implies #[trigger] pdigit(
                                    *self,
                                    n as int,
                                    k,
                                ) == pdigit(pre, i, k) by {}
                                lemma_padded_equal(*self, n as int, pre, i, 0);
                            } else {
                                assert forall|k: int| 0 <= k < i implies #[trigger] pdigit(
                                    *self,
                                    n as int,
                                    k,
                                ) == pdigit(pre, i, k) by {}
                                assert(pdigit(*self, n as int, i) == 9);
                                lemma_padded_increases(*self, n as int, pre, i, 0, i);
                            }
                        }
                        assert forall|sol: Seq<u8>| #[trigger] is_solution(orig, sol) implies
                            dominated(*self, n as int, sol) || (n == self.hole_count
                            && prefix_agrees(*self, sol, self.hole_count as int)) by {
                            assert(dominated(pre, i, sol));
                            if n == hole_index + 1 {
                                lemma_step_forward(pre, *self, i, sol);
                            } else {
                                lemma_step_backward(pre, *self, i, sol);
                            }
                        }
                    }
                    hole_index = n;
                }
                Err(()) => {
                    proof {
                        assert forall|sol: Seq<u8>| !is_solution(orig, sol) by {
                            if is_solution(orig, sol) {
                                assert(dominated(pre, i, sol));
                                lemma_exhausted_at_first_hole(pre, sol);
                            }
                        }
                    }
                    return Err(());
                }
            }
        }
        proof {
            assert forall|p: int| 0 <= p < 81 implies 1 <= #[trigger] self.grid()[p] <= 9 by {
                if !(self.inner@[p] is Fixed) {
                    assert(self.listed(p));
                    let j = choose|j: int|
                        0 <= j < self.hole_count && #[trigger] self.holes@[j] == p;
                    assert(self.hole_pos(j) == p);
                    assert(self.inner@[self.hole_pos(j)] is Guess);
                }
            }
            assert forall|sol: Seq<u8>| #[trigger] is_solution(orig, sol) implies grid_le(
                self.grid(),
                sol,
            ) by {
                lemma_exit_minimal(*self, sol);
            }
        }
        Ok(())
    }

    /// Reads the effective value of every position back into a board.
    pub fn as_board(self) -> (r: Board)
        ensures
            r@ == self.grid(),
    {
        let mut board: [u8; SIZE] = [0; SIZE];
        let mut p: usize = 0;
        while p < SIZE
            invariant
                p <= 81,
                forall|i: int| 0 <= i < p ==> #[trigger] board@[i] == cell_val(self.inner@[i]),
            decreases 81 - p,
        {
            board[p] = self.inner[p].as_val();
            p += 1;
        }
        proof {
            assert(board@ =~= self.grid());
        }
        Board(board)
    }
}

/// Whether positions `p` and `q` share a row, a column or a box.
fn same_unit_exec(p: usize, q: usize) -> (b: bool)
    requires
        p < 81,
        q < 81,
    ensures
        b == same_unit(p as int, q as int),
{
    p / 9 == q / 9 || p % 9 == q % 9 || (p / 27 == q / 27 && (p % 9) / 3 == (q % 9) / 3)
}

/// Whether every cell value lies in 0..=9.
fn check_in_range(board: &[u8; SIZE]) -> (b: bool)
    ensures
        b == cells_in_range(board@),
{
    let mut p: usize = 0;
    while p < SIZE
        invariant
            p <= 81,
            forall|i: int| 0 <= i < p ==> board@[i] <= 9,
        decreases 81 - p,
    {
        if board[p] > 9 {
            return false;
        }
        p += 1;
    }
    true
}

/// Whether no two cells of a common unit hold the same nonzero digit.
fn check_consistent(board: &[u8; SIZE]) -> (b: bool)
    ensures
        b == consistent(board@),
{
    let mut p: usize = 0;
    while p < SIZE
        invariant
            p <= 81,
            forall|pp: int, qq: int|
                0 <= pp < p && 0 <= qq < 81 && pp != qq && #[trigger] same_unit(pp, qq)
                    && board@[pp] != 0 ==> board@[pp] != board@[qq],
        decreases 81 - p,
    {
        let mut q: usize = 0;
        while q < SIZE
            invariant
                p < 81,
                q <= 81,
                forall|qq: int|
                    0 <= qq < q && p != qq && #[trigger] same_unit(p as int, qq) && board@[p as int]
                        != 0 ==> board@[p as int] != board@[qq],
            decreases 81 - q,
        {
            if p != q && board[p] != 0 && board[p] == board[q] && same_unit_exec(p, q) {
                return false;
            }
            q += 1;
        }
        p += 1;
    }
    true
}

impl Board {
    /// Solves the board: returns the lexicographically first (row-major,
    /// smallest digit first) complete, constraint-satisfying assignment that
    /// preserves every given clue, `SolveError::InvalidInput` when a cell
    /// value lies outside 0..=9, and `SolveError::Unsolvable` when no such
    /// assignment exists. A board that is already completely and consistently
    /// filled comes back unchanged.
    pub fn solve(self) -> (r: Result<Board, SolveError>)
        ensures
            !cells_in_range(self@) <==> r == Err::<Board, SolveError>(SolveError::InvalidInput),
            cells_in_range(self@) && !consistent(self@) ==> r == Err::<Board, SolveError>(
                SolveError::Unsolvable,
            ),
            r is Ok ==> is_solution(self@, r->Ok_0@),
            r is Ok ==> forall|sol: Seq<u8>|
                #[trigger] is_solution(self@, sol) ==> grid_le(r->Ok_0@, sol),
            r == Err::<Board, SolveError>(SolveError::Unsolvable) ==> forall|sol: Seq<u8>|
                !is_solution(self@, sol),
            cells_in_range(self@) && (exists|sol: Seq<u8>| is_solution(self@, sol)) ==> r is Ok,
            cells_in_range(self@) && complete(self@) && consistent(self@) ==> r is Ok && r->Ok_0@
                == self@,
    {
        if !check_in_range(&self.0) {
            return Err(SolveError::InvalidInput);
        }
        if !check_consistent(&self.0) {
            proof {
                assert forall|sol: Seq<u8>| !is_solution(self@, sol) by {
                    crate::laws::lemma_conflicting_givens_unsolvable(self@, sol);
                }
            }
            return Err(SolveError::Unsolvable);
        }
        let mut cells = Cells::new(&self.0);
        proof {
            if complete(self@) {
                if cells.hole_count > 0 {
                    assert(cells.inner@[cells.hole_pos(0)] is Hole);
                    assert(cells.grid()[cells.hole_pos(0)] == 0);
                }
            }
        }
        match cells.solve() {
            Ok(()) => {
                proof {
                    assert forall|p: int|
                        0 <= p < 81 && cells.origin()[p] != 0 implies #[trigger] cells.grid()[p]
                        == cells.origin()[p] by {
                        assert(cells.inner@[p] is Fixed);
                    }
                }
                let board = cells.as_board();
                Ok(board)
            },
            Err(()) => Err(SolveError::Unsolvable),
        }
    }
}

} // verus!
