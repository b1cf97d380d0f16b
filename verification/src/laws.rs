//! Laws of the solving model: consequences that hold for every solve call,
//! proved once over the specification functions that the contracts use.
use vstd::prelude::*;

use crate::grid::{box_of, col_of, complete, consistent, grid_le, is_solution, row_of, same_unit,
    unit_cell};

verus! {

/// The nine cells of one unit lie on the board, share that unit, and are
/// pairwise distinct positions.
#[verifier::rlimit(100)]
proof fn lemma_unit_cells(u: int, k1: int, k2: int)
    requires
        0 <= u < 27,
        0 <= k1 < 9,
        0 <= k2 < 9,
    ensures
        0 <= unit_cell(u, k1) < 81,
        same_unit(unit_cell(u, k1), unit_cell(u, k2)),
        k1 != k2 ==> unit_cell(u, k1) != unit_cell(u, k2),
{
    let p = unit_cell(u, k1);
    let q = unit_cell(u, k2);
    if u < 9 {
        assert(row_of(p) == u && row_of(q) == u);
    } else if u < 18 {
        assert(col_of(p) == u - 9 && col_of(q) == u - 9);
    } else {
        let b = u - 18;
        assert(p == 9 * (3 * (b / 3) + k1 / 3) + (3 * (b % 3) + k1 % 3));
        assert(q == 9 * (3 * (b / 3) + k2 / 3) + (3 * (b % 3) + k2 % 3));
        assert(p / 9 == 3 * (b / 3) + k1 / 3 && p % 9 == 3 * (b % 3) + k1 % 3);
        assert(q / 9 == 3 * (b / 3) + k2 / 3 && q % 9 == 3 * (b % 3) + k2 % 3);
        assert(box_of(p) == b && box_of(q) == b) by {
            assert((p / 9) / 3 == b / 3 && (p % 9) / 3 == b % 3);
            assert((q / 9) / 3 == b / 3 && (q % 9) / 3 == b % 3);
        }
        if k1 != k2 {
            assert(k1 / 3 != k2 / 3 || k1 % 3 != k2 % 3);
        }
    }
}

/// In a complete, consistent board, two distinct cells of one unit hold
/// distinct digits: no digit appears twice in a unit.
pub proof fn lemma_solved_unit_distinct(g: Seq<u8>, u: int, k1: int, k2: int)
    requires
        g.len() == 81,
        complete(g),
        consistent(g),
        0 <= u < 27,
        0 <= k1 < 9,
        0 <= k2 < 9,
        k1 != k2,
    ensures
        g[unit_cell(u, k1)] != g[unit_cell(u, k2)],
{
    lemma_unit_cells(u, k1, k2);
    assert(g[unit_cell(u, k1)] != 0);
}

/// The set of digits among the first `m` cells of unit `u`.
spec fn unit_values_upto(g: Seq<u8>, u: int, m: int) -> Set<int> {
    Set::new(|v: int| exists|k: int| 0 <= k < m && g[#[trigger] unit_cell(u, k)] == v)
}

/// With pairwise distinct cell values, the first `m` cells of a unit
/// contribute exactly `m` distinct digits.
proof fn lemma_unit_values_card(g: Seq<u8>, u: int, m: int)
    requires
        g.len() == 81,
        complete(g),
        consistent(g),
        0 <= u < 27,
        0 <= m <= 9,
    ensures
        unit_values_upto(g, u, m).finite(),
        unit_values_upto(g, u, m).len() == m,
    decreases m,
{
    if m == 0 {
        assert(unit_values_upto(g, u, 0) =~= Set::<int>::empty());
    } else {
        lemma_unit_values_card(g, u, m - 1);
        lemma_unit_cells(u, m - 1, m - 1);
        let x = g[unit_cell(u, m - 1)] as int;
        assert(unit_values_upto(g, u, m) =~= unit_values_upto(g, u, m - 1).insert(x)) by {
            assert forall|v: int| unit_values_upto(g, u, m).contains(v) implies unit_values_upto(
                g,
                u,
                m - 1,
            ).insert(x).contains(v) by {
                let k = choose|k: int| 0 <= k < m && g[#[trigger] unit_cell(u, k)] == v;
                if k < m - 1 {
                    assert(unit_values_upto(g, u, m - 1).contains(v));
                }
            }
            assert forall|v: int|
                unit_values_upto(g, u, m - 1).insert(x).contains(v) implies unit_values_upto(
                g,
                u,
                m,
            ).contains(v) by {
                if v == x {
                    assert(g[unit_cell(u, m - 1)] == v);
                } else {
                    let k = choose|k: int| 0 <= k < m - 1 && g[#[trigger] unit_cell(u, k)] == v;
                    assert(0 <= k < m && g[unit_cell(u, k)] == v);
                }
            }
        }
        assert(!unit_values_upto(g, u, m - 1).contains(x)) by {
            if unit_values_upto(g, u, m - 1).contains(x) {
                let k = choose|k: int| 0 <= k < m - 1 && g[#[trigger] unit_cell(u, k)] == x;
                lemma_solved_unit_distinct(g, u, k, m - 1);
            }
        }
    }
}

/// In a complete, consistent board every unit contains every digit 1..=9;
/// with `lemma_solved_unit_distinct` this makes each unit's nine values a
/// permutation of 1 through 9.
pub proof fn lemma_solved_unit_has_every_digit(g: Seq<u8>, u: int, d: u8)
    requires
        g.len() == 81,
        complete(g),
        consistent(g),
        0 <= u < 27,
        1 <= d <= 9,
    ensures
        exists|k: int| 0 <= k < 9 && g[#[trigger] unit_cell(u, k)] == d,
{
    if !(exists|k: int| 0 <= k < 9 && g[#[trigger] unit_cell(u, k)] == d) {
        lemma_unit_values_card(g, u, 9);
        let vals = unit_values_upto(g, u, 9);
        let range = vstd::set_lib::set_int_range(1, 10);
        vstd::set_lib::lemma_int_range(1, 10);
        assert(vals.subset_of(range.remove(d as int))) by {
            assert forall|v: int| vals.contains(v) implies range.remove(d as int).contains(v) by {
                let k = choose|k: int| 0 <= k < 9 && g[#[trigger] unit_cell(u, k)] == v;
                lemma_unit_cells(u, k, k);
                assert(1 <= g[unit_cell(u, k)] <= 9);
            }
        }
        vstd::set_lib::lemma_len_subset(vals, range.remove(d as int));
    }
}

/// Clues that already violate row/column/box uniqueness admit no solution:
/// any complete assignment preserving them repeats the conflicting digit
/// inside one unit. Together with the solve contract this means such a board
/// is always reported unsolvable, never completed.
pub proof fn lemma_conflicting_givens_unsolvable(g: Seq<u8>, s: Seq<u8>)
    requires
        g.len() == 81,
        !consistent(g),
    ensures
        !is_solution(g, s),
{
    if is_solution(g, s) {
        let (p, q) = choose|p: int, q: int|
            0 <= p < 81 && 0 <= q < 81 && p != q && #[trigger] same_unit(p, q) && g[p] != 0 && g[p]
                == g[q];
        assert(s[p] == g[p] && s[q] == g[q]);
        assert(s[p] != s[q]);
    }
}

/// The lexicographic order on equal-length boards is antisymmetric.
pub proof fn lemma_grid_le_antisymmetric(a: Seq<u8>, b: Seq<u8>)
    requires
        a.len() == b.len(),
        grid_le(a, b),
        grid_le(b, a),
    ensures
        a == b,
{
    if a != b {
        let i = choose|i: int|
            0 <= i < a.len() && i < b.len() && (forall|m: int| 0 <= m < i ==> a[m] == b[m])
                && #[trigger] a[i] < #[trigger] b[i];
        let j = choose|j: int|
            0 <= j < b.len() && j < a.len() && (forall|m: int| 0 <= m < j ==> b[m] == a[m])
                && #[trigger] b[j] < #[trigger] a[j];
        if i < j {
            assert(b[i] == a[i]);
        } else if j < i {
            assert(a[j] == b[j]);
        }
    }
}

/// Determinism of solving: two boards that are both lexicographically least
/// solutions of the same input are the same board, so every output the solve
/// contract permits for a given input is one fixed board.
pub proof fn lemma_solution_unique(g: Seq<u8>, s1: Seq<u8>, s2: Seq<u8>)
    requires
        is_solution(g, s1),
        is_solution(g, s2),
        forall|t: Seq<u8>| #[trigger] is_solution(g, t) ==> grid_le(s1, t),
        forall|t: Seq<u8>| #[trigger] is_solution(g, t) ==> grid_le(s2, t),
    ensures
        s1 == s2,
{
    lemma_grid_le_antisymmetric(s1, s2);
}

} // verus!
