//! The constraint engine: per-cell candidate sets computed from the row,
//! column and box constraints, and the propagation pass that eagerly commits
//! every forced cell (an empty cell with exactly one candidate) until a fixed
//! point is reached.

use vstd::arithmetic::div_mod::{lemma_fundamental_div_mod, lemma_mod_bound};
use vstd::prelude::*;

use crate::grid::{
    extends, grid_complete, grid_wf, idx, in_cell_range, is_solution, no_conflict, same_unit, Grid,
};

verus! {

/// First row (or column) of the 3x3 box containing row (or column) `x`.
pub open spec fn box_base(x: int) -> int {
    (x / 3) * 3
}

/// Placing `v` at `(r, c)` violates no uniqueness constraint against the
/// currently filled cells of `s`: `v` appears nowhere in the row, the column
/// or the 3x3 box of the cell.
pub open spec fn cell_legal(s: Seq<u8>, r: int, c: int, v: u8) -> bool {
    &&& (forall|j: int| 0 <= j < 9 ==> #[trigger] s[idx(r, j)] != v)
    &&& (forall|i: int| 0 <= i < 9 ==> #[trigger] s[idx(i, c)] != v)
    &&& (forall|i: int, j: int|
        box_base(r) <= i < box_base(r) + 3 && box_base(c) <= j < box_base(c) + 3
            ==> #[trigger] s[idx(i, j)] != v)
}

/// Reports whether placing `value` at `cell` violates no row, column or box
/// uniqueness constraint against the currently filled cells of `board`.
pub fn possible(board: &Grid, cell: (usize, usize), value: u8) -> (res: bool)
    requires
        board.wf(),
        cell.0 < 9,
        cell.1 < 9,
    ensures
        res == cell_legal(board@, cell.0 as int, cell.1 as int, value),
{
    let (cr, cc) = cell;

    for c in 0..9usize
        invariant
            board.wf(),
            cr == cell.0,
            cc == cell.1,
            cr < 9,
            cc < 9,
            forall|j: int| 0 <= j < c ==> #[trigger] board@[idx(cr as int, j)] != value,
    {
        if board.get(cr, c) == value {
            proof {
                assert(!cell_legal(board@, cr as int, cc as int, value)) by {
                    if cell_legal(board@, cr as int, cc as int, value) {
                        assert(board@[idx(cr as int, c as int)] != value);
                    }
                }
            }
            return false;
        }
    }

    for r in 0..9usize
        invariant
            board.wf(),
            cr == cell.0,
            cc == cell.1,
            cr < 9,
            cc < 9,
            forall|i: int| 0 <= i < r ==> #[trigger] board@[idx(i, cc as int)] != value,
    {
        if board.get(r, cc) == value {
            proof {
                assert(!cell_legal(board@, cr as int, cc as int, value)) by {
                    if cell_legal(board@, cr as int, cc as int, value) {
                        assert(board@[idx(r as int, cc as int)] != value);
                    }
                }
            }
            return false;
        }
    }

    let rs = cr / 3 * 3;
    let cs = cc / 3 * 3;

    for i in rs..rs + 3
        invariant
            board.wf(),
            cr == cell.0,
            cc == cell.1,
            cr < 9,
            cc < 9,
            rs == box_base(cr as int),
            cs == box_base(cc as int),
            forall|i2: int, j2: int|
                rs <= i2 < i && cs <= j2 < cs + 3 ==> #[trigger] board@[idx(i2, j2)] != value,
    {
        for j in cs..cs + 3
            invariant
                board.wf(),
                cr == cell.0,
                cc == cell.1,
                cr < 9,
                cc < 9,
                rs == box_base(cr as int),
                cs == box_base(cc as int),
                rs <= i < rs + 3,
                forall|i2: int, j2: int|
                    rs <= i2 < i && cs <= j2 < cs + 3 ==> #[trigger] board@[idx(i2, j2)] != value,
                forall|j2: int|
                    cs <= j2 < j ==> #[trigger] board@[idx(i as int, j2)] != value,
        {
            if board.get(i, j) == value {
                proof {
                    assert(!cell_legal(board@, cr as int, cc as int, value)) by {
                        if cell_legal(board@, cr as int, cc as int, value) {
                            assert(board@[idx(i as int, j as int)] != value);
                        }
                    }
                }
                return false;
            }
        }
    }

    true
}

/// The candidates for `(r, c)` among the digits 1 through `n`, in increasing
/// order.
pub open spec fn cands_up_to(s: Seq<u8>, r: int, c: int, n: int) -> Seq<u8>
    decreases n,
{
    if n <= 0 {
        Seq::empty()
    } else {
        let p = cands_up_to(s, r, c, n - 1);
        if cell_legal(s, r, c, n as u8) {
            p.push(n as u8)
        } else {
            p
        }
    }
}

/// The candidate set of the cell `(r, c)`: the digits 1 through 9 that can
/// legally be placed there, in increasing order.
pub open spec fn candidates_of(s: Seq<u8>, r: int, c: int) -> Seq<u8> {
    cands_up_to(s, r, c, 9)
}

/// The candidate list for digits up to `n` holds exactly the legal digits
/// among 1 through `n`, each once, in increasing order.
pub proof fn lemma_cands_up_to(s: Seq<u8>, r: int, c: int, n: int)
    requires
        0 <= n <= 9,
    ensures
        cands_up_to(s, r, c, n).len() <= n,
        forall|k: int|
            0 <= k < cands_up_to(s, r, c, n).len()
                ==> 1 <= #[trigger] cands_up_to(s, r, c, n)[k] <= n
                    && cell_legal(s, r, c, cands_up_to(s, r, c, n)[k]),
        forall|v: u8|
            1 <= v <= n && cell_legal(s, r, c, v) ==> cands_up_to(s, r, c, n).contains(v),
        forall|k1: int, k2: int|
            0 <= k1 < k2 < cands_up_to(s, r, c, n).len()
                ==> #[trigger] cands_up_to(s, r, c, n)[k1] < #[trigger] cands_up_to(s, r, c, n)[k2],
    decreases n,
{
    if n > 0 {
        lemma_cands_up_to(s, r, c, n - 1);
        let p = cands_up_to(s, r, c, n - 1);
        let q = cands_up_to(s, r, c, n);
        if cell_legal(s, r, c, n as u8) {
            assert forall|v: u8|
                1 <= v <= n && cell_legal(s, r, c, v) implies q.contains(v) by {
                if v < n {
                    let k = choose|k: int| 0 <= k < p.len() && p[k] == v;
                    assert(q[k] == v);
                } else {
                    assert(q[q.len() - 1] == v);
                }
            }
        } else {
            assert forall|v: u8|
                1 <= v <= n && cell_legal(s, r, c, v) implies q.contains(v) by {
                assert(v < n || v == n);
                if v < n {
                    let k = choose|k: int| 0 <= k < p.len() && p[k] == v;
                    assert(q[k] == v);
                }
            }
        }
    }
}

/// All the facts of `lemma_cands_up_to` for the full candidate set.
pub proof fn lemma_candidates(s: Seq<u8>, r: int, c: int)
    ensures
        candidates_of(s, r, c).len() <= 9,
        forall|k: int|
            0 <= k < candidates_of(s, r, c).len()
                ==> 1 <= #[trigger] candidates_of(s, r, c)[k] <= 9
                    && cell_legal(s, r, c, candidates_of(s, r, c)[k]),
        forall|v: u8|
            1 <= v <= 9 && cell_legal(s, r, c, v) ==> candidates_of(s, r, c).contains(v),
        forall|k1: int, k2: int|
            0 <= k1 < k2 < candidates_of(s, r, c).len()
                ==> #[trigger] candidates_of(s, r, c)[k1] < #[trigger] candidates_of(s, r, c)[k2],
{
    lemma_cands_up_to(s, r, c, 9);
}

/// Computes the candidate set of the empty cell `(r, c)` by testing each
/// digit 1 through 9 with `possible`.
pub fn candidates(board: &Grid, r: usize, c: usize) -> (vals: Vec<u8>)
    requires
        board.wf(),
        r < 9,
        c < 9,
    ensures
        vals@ == candidates_of(board@, r as int, c as int),
{
    let mut vals: Vec<u8> = Vec::new();
    let mut v: u8 = 1;
    while v <= 9
        invariant
            board.wf(),
            r < 9,
            c < 9,
            1 <= v <= 10,
            vals@ == cands_up_to(board@, r as int, c as int, v - 1),
        decreases 10 - v,
    {
        if possible(board, (r, c), v) {
            vals.push(v);
        }
        v = v + 1;
    }
    vals
}

/// Number of unassigned cells among the first `n` cells.
pub open spec fn empties_up_to(s: Seq<u8>, n: int) -> nat
    decreases n,
{
    if n <= 0 {
        0
    } else {
        empties_up_to(s, n - 1) + if s[n - 1] == 0 {
            1nat
        } else {
            0nat
        }
    }
}

/// Number of unassigned cells of the grid.
pub open spec fn empties(s: Seq<u8>) -> nat {
    empties_up_to(s, 81)
}

proof fn lemma_empties_update(s: Seq<u8>, i: int, v: u8, n: int)
    requires
        s.len() == 81,
        0 <= i < 81,
        s[i] == 0,
        v != 0,
        0 <= n <= 81,
    ensures
        i < n ==> empties_up_to(s.update(i, v), n) + 1 == empties_up_to(s, n),
        i >= n ==> empties_up_to(s.update(i, v), n) == empties_up_to(s, n),
    decreases n,
{
    if n > 0 {
        lemma_empties_update(s, i, v, n - 1);
    }
}

/// Filling an empty cell lowers the count of unassigned cells by one.
pub proof fn lemma_empties_set(s: Seq<u8>, i: int, v: u8)
    requires
        s.len() == 81,
        0 <= i < 81,
        s[i] == 0,
        v != 0,
    ensures
        empties(s.update(i, v)) + 1 == empties(s),
{
    lemma_empties_update(s, i, v, 81);
}

proof fn lemma_div3(x: int)
    requires
        0 <= x,
    ensures
        3 * (x / 3) <= x < 3 * (x / 3) + 3,
{
    lemma_fundamental_div_mod(x, 3);
    lemma_mod_bound(x, 3);
}

/// Two rows (or columns) lie in the same band exactly when one lies in the
/// 3-wide range starting at the other's box base.
proof fn lemma_same_box(x: int, y: int)
    requires
        0 <= x < 9,
        0 <= y < 9,
    ensures
        (x / 3 == y / 3) <==> (box_base(x) <= y < box_base(x) + 3),
{
    lemma_div3(x);
    lemma_div3(y);
}

/// Any cell sharing a unit with `(r, c)` and differing from it holds a value
/// other than `v`, when placing `v` at `(r, c)` is legal.
proof fn lemma_legal_unit_values(s: Seq<u8>, r: int, c: int, v: u8, a: int, b: int)
    requires
        in_cell_range(r, c),
        in_cell_range(a, b),
        !(a == r && b == c),
        same_unit(r, c, a, b),
        cell_legal(s, r, c, v),
    ensures
        s[idx(a, b)] != v,
{
    if a == r {
        assert(s[idx(r, b)] != v);
    } else if b == c {
        assert(s[idx(a, c)] != v);
    } else {
        lemma_same_box(r, a);
        lemma_same_box(c, b);
        assert(s[idx(a, b)] != v);
    }
}

/// Filling an empty cell with a legal digit: what it preserves, and how it
/// restricts the solutions.
pub proof fn lemma_fill(s: Seq<u8>, r: int, c: int, v: u8)
    requires
        grid_wf(s),
        in_cell_range(r, c),
        s[idx(r, c)] == 0,
        1 <= v <= 9,
        cell_legal(s, r, c, v),
    ensures
        grid_wf(s.update(idx(r, c), v)),
        extends(s, s.update(idx(r, c), v)),
        empties(s.update(idx(r, c), v)) + 1 == empties(s),
        no_conflict(s) ==> no_conflict(s.update(idx(r, c), v)),
        forall|t: Seq<u8>|
            is_solution(s.update(idx(r, c), v), t) <==> (is_solution(s, t) && t[idx(r, c)] == v),
{
    let i0 = idx(r, c);
    let s2 = s.update(i0, v);
    assert(0 <= i0 < 81);
    lemma_empties_set(s, i0, v);
    if no_conflict(s) {
        assert forall|r1: int, c1: int, r2: int, c2: int|
            in_cell_range(r1, c1) && in_cell_range(r2, c2) && !(r1 == r2 && c1 == c2)
                && same_unit(r1, c1, r2, c2) && #[trigger] s2[idx(r1, c1)] != 0
                implies s2[idx(r1, c1)] != #[trigger] s2[idx(r2, c2)] by {
            assert(0 <= idx(r1, c1) < 81);
            assert(0 <= idx(r2, c2) < 81);
            if idx(r1, c1) == i0 {
                assert(r1 == r && c1 == c);
                assert(idx(r2, c2) != i0);
                lemma_legal_unit_values(s, r, c, v, r2, c2);
            } else if idx(r2, c2) == i0 {
                assert(r2 == r && c2 == c);
                lemma_legal_unit_values(s, r, c, v, r1, c1);
            } else {
                assert(s[idx(r1, c1)] != 0);
                assert(s[idx(r1, c1)] != s[idx(r2, c2)]);
            }
        }
    }
    assert forall|t: Seq<u8>|
        is_solution(s2, t) <==> (is_solution(s, t) && t[idx(r, c)] == v) by {
        if is_solution(s2, t) {
            assert(s2[i0] == v);
            assert(t[i0] == v);
            assert forall|i: int| 0 <= i < 81 && s[i] != 0 implies t[i] == s[i] by {
                assert(s2[i] == s[i]);
            }
        }
        if is_solution(s, t) && t[i0] == v {
            assert forall|i: int| 0 <= i < 81 && s2[i] != 0 implies t[i] == s2[i] by {
                if i != i0 {
                    assert(s2[i] == s[i]);
                }
            }
        }
    }
}

/// The value a solution assigns to an empty cell is one of that cell's
/// candidates.
pub proof fn lemma_solution_value_is_candidate(s: Seq<u8>, r: int, c: int, t: Seq<u8>)
    requires
        grid_wf(s),
        in_cell_range(r, c),
        s[idx(r, c)] == 0,
        is_solution(s, t),
    ensures
        1 <= t[idx(r, c)] <= 9,
        candidates_of(s, r, c).contains(t[idx(r, c)]),
{
    let i0 = idx(r, c);
    assert(0 <= i0 < 81);
    let w = t[i0];
    assert(1 <= w <= 9);
    assert(cell_legal(s, r, c, w)) by {
        assert forall|j: int| 0 <= j < 9 implies #[trigger] s[idx(r, j)] != w by {
            if s[idx(r, j)] != 0 {
                assert(j != c);
                assert(t[idx(r, j)] == s[idx(r, j)]);
                assert(t[i0] != t[idx(r, j)]);
            }
        }
        assert forall|i: int| 0 <= i < 9 implies #[trigger] s[idx(i, c)] != w by {
            if s[idx(i, c)] != 0 {
                assert(i != r);
                assert(t[idx(i, c)] == s[idx(i, c)]);
                assert(t[i0] != t[idx(i, c)]);
            }
        }
        assert forall|i: int, j: int|
            box_base(r) <= i < box_base(r) + 3 && box_base(c) <= j < box_base(c) + 3
                implies #[trigger] s[idx(i, j)] != w by {
            lemma_div3(r);
            lemma_div3(c);
            lemma_same_box(r, i);
            lemma_same_box(c, j);
            if s[idx(i, j)] != 0 {
                assert(!(i == r && j == c));
                assert(same_unit(r, c, i, j));
                assert(t[idx(i, j)] == s[idx(i, j)]);
                assert(t[i0] != t[idx(i, j)]);
            }
        }
    }
    lemma_candidates(s, r, c);
}

/// One forced-cell commitment: the cell `(r, c)` is empty, its candidate set
/// is exactly `[v]`, and the step fills it with `v`.
pub open spec fn forced_step_at(s1: Seq<u8>, s2: Seq<u8>, r: int, c: int, v: u8) -> bool {
    in_cell_range(r, c) && s1[idx(r, c)] == 0 && candidates_of(s1, r, c) == seq![v]
        && s2 == s1.update(idx(r, c), v)
}

/// Some forced-cell commitment leads from `s1` to `s2`.
pub open spec fn forced_step(s1: Seq<u8>, s2: Seq<u8>) -> bool {
    exists|r: int, c: int, v: u8| forced_step_at(s1, s2, r, c, v)
}

/// A nonempty sequence of grids linked by forced-cell commitments.
pub open spec fn is_prop_chain(ch: Seq<Seq<u8>>) -> bool {
    ch.len() >= 1 && (forall|i: int| 0 <= i < ch.len() - 1 ==> forced_step(#[trigger] ch[i], ch[i + 1]))
}

/// `s2` arises from `s1` by zero or more forced-cell commitments: the
/// relation propagation computes.
pub open spec fn propagated(s1: Seq<u8>, s2: Seq<u8>) -> bool {
    exists|ch: Seq<Seq<u8>>| #[trigger] is_prop_chain(ch) && ch.first() == s1 && ch.last() == s2
}

/// A forced step keeps the grid well formed and conflict-free, fills one
/// cell, and preserves the set of solutions exactly.
proof fn lemma_step(s1: Seq<u8>, s2: Seq<u8>)
    requires
        grid_wf(s1),
        forced_step(s1, s2),
    ensures
        grid_wf(s2),
        extends(s1, s2),
        empties(s2) + 1 == empties(s1),
        no_conflict(s1) ==> no_conflict(s2),
        forall|t: Seq<u8>| #![auto] is_solution(s1, t) <==> is_solution(s2, t),
{
    let (r, c, v) = choose|r: int, c: int, v: u8| forced_step_at(s1, s2, r, c, v);
    lemma_candidates(s1, r, c);
    assert(candidates_of(s1, r, c)[0] == v);
    assert(1 <= v <= 9);
    assert(cell_legal(s1, r, c, v));
    lemma_fill(s1, r, c, v);
    assert forall|t: Seq<u8>| #![auto] is_solution(s1, t) <==> is_solution(s2, t) by {
        if is_solution(s1, t) {
            lemma_solution_value_is_candidate(s1, r, c, t);
            let k = choose|k: int|
                0 <= k < candidates_of(s1, r, c).len() && candidates_of(s1, r, c)[k] == t[idx(r, c)];
            assert(k == 0);
            assert(t[idx(r, c)] == v);
        }
    }
}

/// The facts of `lemma_step`, composed along a whole chain.
proof fn lemma_chain(ch: Seq<Seq<u8>>)
    requires
        is_prop_chain(ch),
        grid_wf(ch.first()),
    ensures
        grid_wf(ch.last()),
        extends(ch.first(), ch.last()),
        empties(ch.last()) <= empties(ch.first()),
        no_conflict(ch.first()) ==> no_conflict(ch.last()),
        forall|t: Seq<u8>| #![auto] is_solution(ch.first(), t) <==> is_solution(ch.last(), t),
    decreases ch.len(),
{
    if ch.len() == 1 {
        assert(ch.first() == ch.last());
    } else {
        assert(forced_step(ch[0], ch[1]));
        lemma_step(ch[0], ch[1]);
        let ch2 = ch.drop_first();
        assert(is_prop_chain(ch2)) by {
            assert forall|i: int| 0 <= i < ch2.len() - 1 implies forced_step(#[trigger] ch2[i], ch2[i + 1]) by {
                assert(ch2[i] == ch[i + 1]);
                assert(ch2[i + 1] == ch[i + 2]);
                assert(forced_step(ch[i + 1], ch[i + 2]));
            }
        }
        assert(ch2.first() == ch[1]);
        assert(ch2.last() == ch.last());
        lemma_chain(ch2);
        assert forall|i: int| 0 <= i < 81 && ch.first()[i] != 0 implies ch.last()[i] == ch.first()[i] by {
            assert(ch[1][i] == ch.first()[i]);
        }
    }
}

/// What a whole propagation pass guarantees: the final grid extends the
/// starting one, stays well formed and conflict-free, and has exactly the
/// same solutions.
pub proof fn lemma_propagated(s1: Seq<u8>, s2: Seq<u8>)
    requires
        grid_wf(s1),
        propagated(s1, s2),
    ensures
        grid_wf(s2),
        extends(s1, s2),
        empties(s2) <= empties(s1),
        no_conflict(s1) ==> no_conflict(s2),
        forall|t: Seq<u8>| #![auto] is_solution(s1, t) <==> is_solution(s2, t),
{
    let ch = choose|ch: Seq<Seq<u8>>|
        #[trigger] is_prop_chain(ch) && ch.first() == s1 && ch.last() == s2;
    lemma_chain(ch);
}

/// No empty cell has a candidate set with exactly one member: the fixed
/// point that propagation runs to.
pub open spec fn no_singletons(s: Seq<u8>) -> bool {
    forall|r: int, c: int|
        in_cell_range(r, c) && s[idx(r, c)] == 0
            ==> #[trigger] candidates_of(s, r, c).len() != 1
}

/// Propagation is idempotent once no singleton candidates remain: a first
/// pass ends in a grid without forced cells, and a second pass run on that
/// grid can only return the very same grid — and with it, since the
/// candidate map is a function of the grid, the very same candidate map.
pub proof fn lemma_propagate_idempotent(s0: Seq<u8>, s1: Seq<u8>, s2: Seq<u8>)
    requires
        propagated(s0, s1),
        no_singletons(s1),
        propagated(s1, s2),
    ensures
        s2 == s1,
        candidate_map_spec(s2) == candidate_map_spec(s1),
{
    let ch = choose|ch: Seq<Seq<u8>>|
        #[trigger] is_prop_chain(ch) && ch.first() == s1 && ch.last() == s2;
    if ch.len() >= 2 {
        assert(forced_step(ch[0], ch[1]));
        let (r, c, v) = choose|r: int, c: int, v: u8| forced_step_at(ch[0], ch[1], r, c, v);
        assert(candidates_of(s1, r, c).len() == 1);
        assert(false);
    }
    assert(ch.last() == ch.first());
}

/// The digits filled somewhere in row `r`.
pub open spec fn row_digits(s: Seq<u8>, r: int) -> Set<u8> {
    Set::new(|v: u8| exists|j: int| 0 <= j < 9 && s[idx(r, j)] == v)
}

/// The digits filled somewhere in column `c`.
pub open spec fn col_digits(s: Seq<u8>, c: int) -> Set<u8> {
    Set::new(|v: u8| exists|i: int| 0 <= i < 9 && s[idx(i, c)] == v)
}

/// The digits filled somewhere in the 3x3 box containing `(r, c)`.
pub open spec fn box_digits(s: Seq<u8>, r: int, c: int) -> Set<u8> {
    Set::new(
        |v: u8|
            exists|i: int, j: int|
                box_base(r) <= i < box_base(r) + 3 && box_base(c) <= j < box_base(c) + 3
                    && s[idx(i, j)] == v,
    )
}

/// Legality agrees with a direct recomputation of the row, column and box
/// digit sets: a placement is legal exactly when the digit lies in none of
/// the three.
pub proof fn lemma_legal_agrees_with_digit_sets(s: Seq<u8>, r: int, c: int, v: u8)
    ensures
        cell_legal(s, r, c, v) <==> (!row_digits(s, r).contains(v) && !col_digits(s, c).contains(v)
            && !box_digits(s, r, c).contains(v)),
{
    if cell_legal(s, r, c, v) {
        if row_digits(s, r).contains(v) {
            let j = choose|j: int| 0 <= j < 9 && s[idx(r, j)] == v;
            assert(s[idx(r, j)] != v);
        }
        if col_digits(s, c).contains(v) {
            let i = choose|i: int| 0 <= i < 9 && s[idx(i, c)] == v;
            assert(s[idx(i, c)] != v);
        }
        if box_digits(s, r, c).contains(v) {
            let (i, j) = choose|i: int, j: int|
                box_base(r) <= i < box_base(r) + 3 && box_base(c) <= j < box_base(c) + 3
                    && s[idx(i, j)] == v;
            assert(s[idx(i, j)] != v);
        }
    }
    if !row_digits(s, r).contains(v) && !col_digits(s, c).contains(v) && !box_digits(
        s,
        r,
        c,
    ).contains(v) {
        assert forall|j: int| 0 <= j < 9 implies #[trigger] s[idx(r, j)] != v by {
            if s[idx(r, j)] == v {
                assert(row_digits(s, r).contains(v));
            }
        }
        assert forall|i: int| 0 <= i < 9 implies #[trigger] s[idx(i, c)] != v by {
            if s[idx(i, c)] == v {
                assert(col_digits(s, c).contains(v));
            }
        }
        assert forall|i: int, j: int|
            box_base(r) <= i < box_base(r) + 3 && box_base(c) <= j < box_base(c) + 3
                implies #[trigger] s[idx(i, j)] != v by {
            if s[idx(i, j)] == v {
                assert(box_digits(s, r, c).contains(v));
            }
        }
    }
}

/// One empty cell together with its candidate set, as propagation hands it
/// to the search.
pub struct CellCandidates {
    pub row: usize,
    pub col: usize,
    pub values: Vec<u8>,
}

impl View for CellCandidates {
    type V = (int, int, Seq<u8>);

    open spec fn view(&self) -> (int, int, Seq<u8>) {
        (self.row as int, self.col as int, self.values@)
    }
}

/// The candidate map of a grid: one entry per empty cell among the first
/// `n`, in row-major order, carrying that cell's candidate set.
pub open spec fn cmap_up_to(s: Seq<u8>, n: int) -> Seq<(int, int, Seq<u8>)>
    decreases n,
{
    if n <= 0 {
        Seq::empty()
    } else {
        let p = cmap_up_to(s, n - 1);
        if s[n - 1] == 0 {
            p.push(((n - 1) / 9, (n - 1) % 9, candidates_of(s, (n - 1) / 9, (n - 1) % 9)))
        } else {
            p
        }
    }
}

/// The full candidate map: every empty cell of the grid, row-major.
pub open spec fn candidate_map_spec(s: Seq<u8>) -> Seq<(int, int, Seq<u8>)> {
    cmap_up_to(s, 81)
}

proof fn lemma_cmap_up_to(s: Seq<u8>, n: int)
    requires
        0 <= n <= 81,
    ensures
        forall|k: int|
            0 <= k < cmap_up_to(s, n).len() ==> {
                let e = #[trigger] cmap_up_to(s, n)[k];
                in_cell_range(e.0, e.1) && s[idx(e.0, e.1)] == 0 && e.2 == candidates_of(
                    s,
                    e.0,
                    e.1,
                ) && idx(e.0, e.1) < n
            },
        forall|i: int| 0 <= i < n && #[trigger] s[i] == 0 ==> cmap_up_to(s, n).len() > 0,
    decreases n,
{
    if n > 0 {
        lemma_cmap_up_to(s, n - 1);
        let p = cmap_up_to(s, n - 1);
        let q = cmap_up_to(s, n);
        if s[n - 1] == 0 {
            lemma_fundamental_div_mod(n - 1, 9);
            lemma_mod_bound(n - 1, 9);
            assert(idx((n - 1) / 9, (n - 1) % 9) == n - 1);
            assert(in_cell_range((n - 1) / 9, (n - 1) % 9));
        }
        assert forall|k: int|
            0 <= k < q.len() implies {
            let e = #[trigger] q[k];
            in_cell_range(e.0, e.1) && s[idx(e.0, e.1)] == 0 && e.2 == candidates_of(s, e.0, e.1)
                && idx(e.0, e.1) < n
        } by {
            if k < p.len() {
                assert(q[k] == p[k]);
                let e = p[k];
                assert(in_cell_range(e.0, e.1) && s[idx(e.0, e.1)] == 0 && e.2 == candidates_of(
                    s,
                    e.0,
                    e.1,
                ) && idx(e.0, e.1) < n - 1);
            }
        }
        assert forall|i: int| 0 <= i < n && #[trigger] s[i] == 0 implies q.len() > 0 by {
            if i < n - 1 {
                assert(p.len() > 0);
                assert(q.len() >= p.len());
            }
        }
    }
}

/// The facts of `lemma_cmap_up_to` for the full candidate map.
pub proof fn lemma_cmap(s: Seq<u8>)
    ensures
        forall|k: int|
            0 <= k < candidate_map_spec(s).len() ==> {
                let e = #[trigger] candidate_map_spec(s)[k];
                in_cell_range(e.0, e.1) && s[idx(e.0, e.1)] == 0 && e.2 == candidates_of(
                    s,
                    e.0,
                    e.1,
                )
            },
        forall|i: int| 0 <= i < 81 && #[trigger] s[i] == 0 ==> candidate_map_spec(s).len() > 0,
{
    lemma_cmap_up_to(s, 81);
}

/// A grid whose candidate map is empty has no empty cell left.
pub proof fn lemma_cmap_empty_complete(s: Seq<u8>)
    requires
        grid_wf(s),
        candidate_map_spec(s).len() == 0,
    ensures
        grid_complete(s),
{
    lemma_cmap(s);
    assert forall|i: int| 0 <= i < 81 implies 1 <= #[trigger] s[i] <= 9 by {
        if s[i] == 0 {
            assert(candidate_map_spec(s).len() > 0);
        }
    }
}

/// What one scan of the grid finds: either the first forced cell, or the
/// full candidate map with no singleton in it.
pub enum ScanOutcome {
    Forced(usize, usize, u8),
    Unforced(Vec<CellCandidates>),
}

/// Scans the grid row-major; stops at the first empty cell with exactly one
/// candidate, and otherwise collects the whole candidate map.
fn scan_board(board: &Grid) -> (res: ScanOutcome)
    requires
        board.wf(),
    ensures
        match res {
            ScanOutcome::Forced(r, c, v) => r < 9 && c < 9 && board@[idx(r as int, c as int)] == 0
                && candidates_of(board@, r as int, c as int) == seq![v],
            ScanOutcome::Unforced(m) => no_singletons(board@) && m@.map_values(
                |e: CellCandidates| e@,
            ) == candidate_map_spec(board@),
        },
{
    let mut m: Vec<CellCandidates> = Vec::new();
    for n in 0..81usize
        invariant
            board.wf(),
            m@.map_values(|e: CellCandidates| e@) == cmap_up_to(board@, n as int),
            forall|i: int|
                0 <= i < n && #[trigger] board@[i] == 0 ==> candidates_of(
                    board@,
                    i / 9,
                    i % 9,
                ).len() != 1,
    {
        let r = n / 9;
        let c = n % 9;
        proof {
            lemma_fundamental_div_mod(n as int, 9);
            lemma_mod_bound(n as int, 9);
            assert(idx(r as int, c as int) == n);
        }
        if board.get(r, c) == 0 {
            let vals = candidates(board, r, c);
            if vals.len() == 1 {
                let v = vals[0];
                proof {
                    assert(candidates_of(board@, r as int, c as int) =~= seq![v]);
                }
                return ScanOutcome::Forced(r, c, v);
            }
            let entry = CellCandidates { row: r, col: c, values: vals };
            m.push(entry);
            proof {
                assert(m@.map_values(|e: CellCandidates| e@) =~= cmap_up_to(
                    board@,
                    n as int + 1,
                ));
            }
        } else {
            proof {
                assert(m@.map_values(|e: CellCandidates| e@) =~= cmap_up_to(
                    board@,
                    n as int + 1,
                ));
            }
        }
    }
    proof {
        assert(no_singletons(board@)) by {
            assert forall|r: int, c: int|
                in_cell_range(r, c) && board@[idx(r, c)] == 0 implies #[trigger] candidates_of(
                board@,
                r,
                c,
            ).len() != 1 by {
                let i = idx(r, c);
                lemma_fundamental_div_mod(i, 9);
                lemma_mod_bound(i, 9);
                assert(i / 9 == r && i % 9 == c);
                assert(candidates_of(board@, i / 9, i % 9).len() != 1);
            }
        }
    }
    ScanOutcome::Unforced(m)
}

/// Computes the candidate map of the grid, first committing every forced
/// cell: any empty cell with exactly one candidate is filled and the whole
/// map is recomputed, until a full pass finds no singleton.  The map then
/// holds every remaining empty cell (an empty candidate set marks an
/// unsatisfiable branch).
pub fn get_all_possible_values(board: &mut Grid) -> (m: Vec<CellCandidates>)
    requires
        old(board).wf(),
    ensures
        final(board).wf(),
        propagated(old(board)@, final(board)@),
        no_singletons(final(board)@),
        m@.map_values(|e: CellCandidates| e@) == candidate_map_spec(final(board)@),
{
    let ghost s0 = board@;
    let ghost mut ch: Seq<Seq<u8>> = seq![board@];
    loop
        invariant
            board.wf(),
            grid_wf(s0),
            s0 == old(board)@,
            is_prop_chain(ch),
            ch.first() == s0,
            ch.last() == board@,
        decreases empties(board@),
    {
        let ghost pre = board@;
        match scan_board(board) {
            ScanOutcome::Forced(r, c, v) => {
                proof {
                    lemma_candidates(pre, r as int, c as int);
                    assert(candidates_of(pre, r as int, c as int)[0] == v);
                    assert(1 <= v <= 9);
                }
                board.set(r, c, v);
                proof {
                    assert(forced_step_at(pre, board@, r as int, c as int, v));
                    assert(forced_step(pre, board@));
                    let ch2 = ch.push(board@);
                    assert(is_prop_chain(ch2)) by {
                        assert forall|i: int|
                            0 <= i < ch2.len() - 1 implies forced_step(
                            #[trigger] ch2[i],
                            ch2[i + 1],
                        ) by {
                            if i < ch.len() - 1 {
                                assert(ch2[i] == ch[i]);
                                assert(ch2[i + 1] == ch[i + 1]);
                                assert(forced_step(ch[i], ch[i + 1]));
                            } else {
                                assert(ch2[i] == ch.last());
                                assert(ch2[i + 1] == board@);
                            }
                        }
                    }
                    assert(ch2.first() == s0);
                    assert(ch2.last() == board@);
                    ch = ch2;
                    lemma_empties_set(pre, idx(r as int, c as int), v);
                }
            }
            ScanOutcome::Unforced(m) => {
                proof {
                    assert(is_prop_chain(ch) && ch.first() == s0 && ch.last() == board@);
                    assert(propagated(s0, board@));
                }
                return m;
            }
        }
    }
}

} // verus!
