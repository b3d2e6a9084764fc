//! The search controller: a depth-first backtracking search over grid
//! states, driven by the constraint engine.  Each pulled grid is propagated;
//! a completed grid is emitted as a solution, a grid with an empty candidate
//! set is abandoned, and otherwise the search branches on the empty cell
//! with the smallest candidate set, pushing one child per candidate value.

use vstd::prelude::*;

use crate::engine::{
    candidate_map_spec, candidates_of, empties, get_all_possible_values, lemma_candidates,
    lemma_cmap, lemma_cmap_empty_complete, lemma_fill, lemma_propagated,
    lemma_solution_value_is_candidate, CellCandidates,
};
use crate::grid::{
    board_valid, extends, grid_wf, idx, in_cell_range, is_solution, lemma_conflict_no_solution,
    no_conflict, Grid,
};

verus! {

/// How many of the emitted grids equal `t`.
pub open spec fn emitted_count(out: Seq<Grid>, t: Seq<u8>) -> int
    decreases out.len(),
{
    if out.len() == 0 {
        0
    } else {
        emitted_count(out.drop_last(), t) + if out.last()@ == t {
            1int
        } else {
            0int
        }
    }
}

/// How many grids of the frontier `t` is a solution of.
pub open spec fn frontier_count(st: Seq<Grid>, t: Seq<u8>) -> int
    decreases st.len(),
{
    if st.len() == 0 {
        0
    } else {
        frontier_count(st.drop_last(), t) + if is_solution(st.last()@, t) {
            1int
        } else {
            0int
        }
    }
}

spec fn pow10(n: nat) -> nat
    decreases n,
{
    if n == 0 {
        1
    } else {
        10 * pow10((n - 1) as nat)
    }
}

/// Termination measure of the search: each frontier grid weighs ten to the
/// power of its number of empty cells, so replacing a popped grid by at most
/// nine strictly fuller children makes the sum strictly smaller.
spec fn frontier_measure(st: Seq<Grid>) -> nat
    decreases st.len(),
{
    if st.len() == 0 {
        0
    } else {
        frontier_measure(st.drop_last()) + pow10(empties(st.last()@))
    }
}

proof fn lemma_pow10_pos(n: nat)
    ensures
        pow10(n) >= 1,
    decreases n,
{
    if n > 0 {
        lemma_pow10_pos((n - 1) as nat);
    }
}

proof fn lemma_pow10_mono(m: nat, n: nat)
    requires
        m <= n,
    ensures
        pow10(m) <= pow10(n),
    decreases n,
{
    if m < n {
        lemma_pow10_mono(m, (n - 1) as nat);
    }
}

proof fn lemma_emitted_push(out: Seq<Grid>, g: Grid)
    ensures
        forall|t: Seq<u8>| #![auto]
            emitted_count(out.push(g), t) == emitted_count(out, t) + if g@ == t {
                1int
            } else {
                0int
            },
{
    assert(out.push(g).drop_last() =~= out);
    assert(out.push(g).last() == g);
}

proof fn lemma_frontier_push(st: Seq<Grid>, g: Grid)
    ensures
        forall|t: Seq<u8>| #![auto]
            frontier_count(st.push(g), t) == frontier_count(st, t) + if is_solution(g@, t) {
                1int
            } else {
                0int
            },
        frontier_measure(st.push(g)) == frontier_measure(st) + pow10(empties(g@)),
{
    assert(st.push(g).drop_last() =~= st);
    assert(st.push(g).last() == g);
}

proof fn lemma_emitted_nonneg(out: Seq<Grid>, t: Seq<u8>)
    ensures
        0 <= emitted_count(out, t) <= out.len(),
    decreases out.len(),
{
    if out.len() > 0 {
        lemma_emitted_nonneg(out.drop_last(), t);
    }
}

proof fn lemma_emitted_element(out: Seq<Grid>, k: int)
    requires
        0 <= k < out.len(),
    ensures
        emitted_count(out, out[k]@) >= 1,
    decreases out.len(),
{
    lemma_emitted_nonneg(out.drop_last(), out[k]@);
    if k < out.len() - 1 {
        assert(out.drop_last()[k] == out[k]);
        lemma_emitted_element(out.drop_last(), k);
    }
}

proof fn lemma_emitted_all_equal(out: Seq<Grid>, t: Seq<u8>)
    requires
        forall|k: int| 0 <= k < out.len() ==> (#[trigger] out[k])@ == t,
    ensures
        emitted_count(out, t) == out.len(),
    decreases out.len(),
{
    if out.len() > 0 {
        assert(out.last() == out[out.len() - 1]);
        lemma_emitted_all_equal(out.drop_last(), t);
    }
}

/// Runs the backtracking search from `board` and returns every solution
/// found: each returned grid is a complete, conflict-free completion of
/// `board`, and every such completion is returned exactly once.
pub fn solve(board: &Grid) -> (solutions: Vec<Grid>)
    requires
        board.wf(),
    ensures
        forall|t: Seq<u8>| #![auto]
            emitted_count(solutions@, t) == if is_solution(board@, t) {
                1int
            } else {
                0int
            },
        forall|k: int|
            0 <= k < solutions@.len() ==> is_solution(board@, (#[trigger] solutions@[k])@),
{
    let mut solutions: Vec<Grid> = Vec::new();
    if !board_valid(board) {
        proof {
            lemma_conflict_no_solution(board@);
        }
        return solutions;
    }
    let ghost s0 = board@;
    let mut stack: Vec<Grid> = Vec::new();
    stack.push(board.clone());
    proof {
        assert forall|t: Seq<u8>| #![auto]
            emitted_count(solutions@, t) + frontier_count(stack@, t) == if is_solution(s0, t) {
                1int
            } else {
                0int
            } by {
            assert(emitted_count(Seq::<Grid>::empty(), t) == 0);
            assert(frontier_count(Seq::<Grid>::empty(), t) == 0);
            assert(stack@.drop_last() =~= Seq::<Grid>::empty());
            assert(stack@.last()@ == s0);
        }
    }
    while stack.len() != 0
        invariant
            grid_wf(s0),
            no_conflict(s0),
            s0 == board@,
            forall|k: int|
                0 <= k < stack@.len() ==> (#[trigger] stack@[k]).wf() && no_conflict(stack@[k]@)
                    && extends(s0, stack@[k]@),
            forall|k: int|
                0 <= k < solutions@.len() ==> is_solution(s0, (#[trigger] solutions@[k])@),
            forall|t: Seq<u8>| #![auto]
                emitted_count(solutions@, t) + frontier_count(stack@, t) == if is_solution(
                    s0,
                    t,
                ) {
                    1int
                } else {
                    0int
                },
        decreases frontier_measure(stack@),
    {
        let ghost pre_stack = stack@;
        let ghost pre_sols = solutions@;
        let mut g = stack.pop().unwrap();
        let ghost g_pre = g@;
        proof {
            assert(stack@ =~= pre_stack.drop_last());
            assert(pre_stack.last() == g);
            lemma_pow10_pos(empties(g_pre));
        }
        let m = get_all_possible_values(&mut g);
        proof {
            lemma_propagated(g_pre, g@);
            assert(extends(s0, g@)) by {
                assert forall|i: int| 0 <= i < 81 && s0[i] != 0 implies g@[i] == s0[i] by {
                    assert(g_pre[i] == s0[i]);
                }
            }
        }
        if m.len() == 0 {
            proof {
                assert(m@.map_values(|e: CellCandidates| e@).len() == 0);
                lemma_cmap_empty_complete(g@);
            }
            let ghost gv = g@;
            solutions.push(g);
            proof {
                lemma_emitted_push(pre_sols, solutions@.last());
                assert(solutions@ =~= pre_sols.push(solutions@.last()));
                assert forall|t: Seq<u8>| #![auto]
                    emitted_count(solutions@, t) + frontier_count(stack@, t) == if is_solution(
                        s0,
                        t,
                    ) {
                        1int
                    } else {
                        0int
                    } by {
                    assert(is_solution(gv, t) <==> t == gv) by {
                        if is_solution(gv, t) {
                            assert forall|i: int| 0 <= i < 81 implies t[i] == gv[i] by {
                                assert(gv[i] != 0);
                            }
                            assert(t =~= gv);
                        }
                        if t == gv {
                            assert(extends(gv, gv));
                        }
                    }
                    assert(is_solution(g_pre, t) <==> is_solution(gv, t));
                    assert(emitted_count(pre_sols, t) + frontier_count(pre_stack, t)
                        == if is_solution(s0, t) {
                        1int
                    } else {
                        0int
                    });
                }
            }
        } else {
            let mut best: usize = 0;
            let mut has_empty: bool = false;
            for k in 0..m.len()
                invariant
                    m@.len() >= 1,
                    best < m@.len(),
                    has_empty <==> (exists|j: int|
                        0 <= j < k && (#[trigger] m@[j])@.2.len() == 0),
                    forall|j: int|
                        0 <= j < k ==> m@[best as int]@.2.len() <= (#[trigger] m@[j])@.2.len(),
            {
                if m[k].values.len() == 0 {
                    proof {
                        assert(m@[k as int]@.2.len() == 0);
                    }
                    has_empty = true;
                }
                if m[k].values.len() < m[best].values.len() {
                    best = k;
                }
            }
            if has_empty {
                proof {
                    let j = choose|j: int| 0 <= j < m@.len() && (#[trigger] m@[j])@.2.len() == 0;
                    lemma_cmap(g@);
                    assert(candidate_map_spec(g@)[j] == m@.map_values(|e: CellCandidates| e@)[j]);
                    assert(candidate_map_spec(g@)[j] == m@[j]@);
                    let e = candidate_map_spec(g@)[j];
                    assert forall|t: Seq<u8>| !is_solution(g@, t) by {
                        if is_solution(g@, t) {
                            lemma_solution_value_is_candidate(g@, e.0, e.1, t);
                        }
                    }
                    assert forall|t: Seq<u8>| #![auto]
                        emitted_count(solutions@, t) + frontier_count(stack@, t)
                            == if is_solution(s0, t) {
                            1int
                        } else {
                            0int
                        } by {
                        assert(is_solution(g_pre, t) <==> is_solution(g@, t));
                        assert(!is_solution(g_pre, t));
                        assert(emitted_count(pre_sols, t) + frontier_count(pre_stack, t)
                            == if is_solution(s0, t) {
                            1int
                        } else {
                            0int
                        });
                    }
                }
            } else {
                let e_row = m[best].row;
                let e_col = m[best].col;
                let ghost gv = g@;
                let ghost r = e_row as int;
                let ghost c = e_col as int;
                let ghost vals = m@[best as int]@.2;
                proof {
                    lemma_cmap(gv);
                    assert(candidate_map_spec(gv)[best as int] == m@.map_values(
                        |e: CellCandidates| e@,
                    )[best as int]);
                    assert(candidate_map_spec(gv)[best as int] == m@[best as int]@);
                    assert(in_cell_range(r, c));
                    assert(gv[idx(r, c)] == 0);
                    assert(vals == candidates_of(gv, r, c));
                    lemma_candidates(gv, r, c);
                    lemma_empties_at_least_one(gv, r, c);
                    assert(!(exists|j: int| 0 <= j < m@.len() && (#[trigger] m@[j])@.2.len() == 0));
                    assert(m@[best as int]@.2.len() != 0);
                }
                let ghost base_stack = stack@;
                let ghost child_weight = pow10((empties(gv) - 1) as nat);
                let n_children = m[best].values.len();
                let mut j: usize = 0;
                while j < n_children
                    invariant
                        g.wf(),
                        g@ == gv,
                        grid_wf(gv),
                        no_conflict(gv),
                        extends(s0, gv),
                        grid_wf(s0),
                        in_cell_range(r, c),
                        gv[idx(r, c)] == 0,
                        vals == candidates_of(gv, r, c),
                        e_row == r,
                        e_col == c,
                        m@[best as int]@.2 == vals,
                        best < m@.len(),
                        n_children == vals.len(),
                        j <= n_children,
                        child_weight == pow10((empties(gv) - 1) as nat),
                        empties(gv) >= 1,
                        stack@.len() == base_stack.len() + j,
                        forall|k: int|
                            0 <= k < base_stack.len() ==> #[trigger] stack@[k] == base_stack[k],
                        forall|k: int|
                            0 <= k < stack@.len() ==> (#[trigger] stack@[k]).wf()
                                && no_conflict(stack@[k]@) && extends(s0, stack@[k]@),
                        forall|t: Seq<u8>| #![trigger is_solution(gv, t)]
                            frontier_count(stack@, t) == frontier_count(base_stack, t)
                                + if is_solution(gv, t) && vals.subrange(0, j as int).contains(
                                t[idx(r, c)],
                            ) {
                                1int
                            } else {
                                0int
                            },
                        frontier_measure(stack@) == frontier_measure(base_stack) + j
                            * child_weight,
                    decreases n_children - j,
                {
                    let v = m[best].values[j];
                    proof {
                        lemma_candidates(gv, r, c);
                        assert(candidates_of(gv, r, c)[j as int] == v);
                        assert(1 <= v <= 9);
                        lemma_fill(gv, r, c, v);
                        lemma_empties_at_least_one(gv, r, c);
                    }
                    let mut child = g.clone();
                    child.set(e_row, e_col, v);
                    let ghost pre_push = stack@;
                    stack.push(child);
                    proof {
                        lemma_frontier_push(pre_push, child);
                        assert(child@ == gv.update(idx(r, c), v));
                        assert(empties(child@) + 1 == empties(gv));
                        assert(pow10(empties(child@)) == child_weight);
                        assert((j + 1) as int * child_weight == j as int * child_weight
                            + child_weight) by (nonlinear_arith);
                        assert forall|t: Seq<u8>| #![trigger is_solution(gv, t)]
                            frontier_count(stack@, t) == frontier_count(base_stack, t)
                                + if is_solution(gv, t) && vals.subrange(0, j as int + 1).contains(
                                t[idx(r, c)],
                            ) {
                                1int
                            } else {
                                0int
                            } by {
                            let sub0 = vals.subrange(0, j as int);
                            let sub1 = vals.subrange(0, j as int + 1);
                            assert(frontier_count(pre_push, t) == frontier_count(base_stack, t)
                                + if is_solution(gv, t) && sub0.contains(t[idx(r, c)]) {
                                1int
                            } else {
                                0int
                            });
                            assert(frontier_count(stack@, t) == frontier_count(pre_push, t)
                                + if is_solution(child@, t) {
                                1int
                            } else {
                                0int
                            });
                            assert(is_solution(child@, t) <==> (is_solution(gv, t) && t[idx(
                                r,
                                c,
                            )] == v));
                            if is_solution(gv, t) {
                                let w = t[idx(r, c)];
                                if w == v {
                                    assert(sub1[j as int] == w);
                                    assert(sub1.contains(w));
                                    assert(!sub0.contains(w)) by {
                                        if sub0.contains(w) {
                                            let k2 = choose|k2: int|
                                                0 <= k2 < sub0.len() && #[trigger] sub0[k2] == w;
                                            assert(candidates_of(gv, r, c)[k2] == w);
                                            assert(candidates_of(gv, r, c)[k2] < candidates_of(
                                                gv,
                                                r,
                                                c,
                                            )[j as int]);
                                        }
                                    }
                                } else {
                                    assert(sub1.contains(w) <==> sub0.contains(w)) by {
                                        if sub1.contains(w) {
                                            let kk = choose|kk: int|
                                                0 <= kk < sub1.len() && #[trigger] sub1[kk] == w;
                                            assert(kk != j);
                                            assert(sub0[kk] == w);
                                            assert(sub0.contains(w));
                                        }
                                        if sub0.contains(w) {
                                            let kk = choose|kk: int|
                                                0 <= kk < sub0.len() && #[trigger] sub0[kk] == w;
                                            assert(sub1[kk] == w);
                                            assert(sub1.contains(w));
                                        }
                                    }
                                }
                            }
                        }
                        assert(extends(s0, child@)) by {
                            assert forall|i: int|
                                0 <= i < 81 && s0[i] != 0 implies child@[i] == s0[i] by {
                                assert(gv[i] == s0[i]);
                                assert(child@[i] == gv[i]);
                            }
                        }
                    }
                    let ghost j_pre = j as int;
                    j = j + 1;
                    proof {
                        assert forall|t: Seq<u8>| #![trigger is_solution(gv, t)]
                            frontier_count(stack@, t) == frontier_count(base_stack, t)
                                + if is_solution(gv, t) && vals.subrange(0, j as int).contains(
                                t[idx(r, c)],
                            ) {
                                1int
                            } else {
                                0int
                            } by {
                            assert(frontier_count(stack@, t) == frontier_count(base_stack, t)
                                + if is_solution(gv, t) && vals.subrange(0, j_pre + 1).contains(
                                t[idx(r, c)],
                            ) {
                                1int
                            } else {
                                0int
                            });
                            assert(vals.subrange(0, j_pre + 1) == vals.subrange(0, j as int));
                        }
                    }
                }
                proof {
                    assert(vals.subrange(0, n_children as int) =~= vals);
                    assert forall|t: Seq<u8>| #![auto]
                        emitted_count(solutions@, t) + frontier_count(stack@, t)
                            == if is_solution(s0, t) {
                            1int
                        } else {
                            0int
                        } by {
                        assert(is_solution(g_pre, t) <==> is_solution(gv, t));
                        if is_solution(gv, t) {
                            lemma_solution_value_is_candidate(gv, r, c, t);
                            assert(vals.contains(t[idx(r, c)]));
                        }
                        assert(emitted_count(pre_sols, t) + frontier_count(pre_stack, t)
                            == if is_solution(s0, t) {
                            1int
                        } else {
                            0int
                        });
                    }
                    assert(frontier_measure(stack@) < frontier_measure(pre_stack)) by {
                        assert(n_children as int * child_weight <= 9 * child_weight)
                            by (nonlinear_arith)
                            requires n_children <= 9, child_weight >= 0;
                        assert(10 * child_weight == pow10(empties(gv)));
                        lemma_pow10_mono(empties(gv), empties(g_pre));
                        assert(child_weight >= 1) by {
                            lemma_pow10_pos((empties(gv) - 1) as nat);
                        }
                    }
                }
            }
        }
    }
    solutions
}

/// Runs the backtracking search from `board` only until the first solution:
/// the returned grid, if any, is a complete, conflict-free completion of
/// `board`, and `None` comes back only when no completion exists at all.
pub fn solve_first(board: &Grid) -> (res: Option<Grid>)
    requires
        board.wf(),
    ensures
        match res {
            Some(g) => is_solution(board@, g@),
            None => forall|t: Seq<u8>| !is_solution(board@, t),
        },
{
    if !board_valid(board) {
        proof {
            lemma_conflict_no_solution(board@);
        }
        return None;
    }
    let ghost s0 = board@;
    let mut stack: Vec<Grid> = Vec::new();
    stack.push(board.clone());
    proof {
        assert forall|t: Seq<u8>| #![auto]
            frontier_count(stack@, t) == if is_solution(s0, t) {
                1int
            } else {
                0int
            } by {
            assert(frontier_count(Seq::<Grid>::empty(), t) == 0);
            assert(stack@.drop_last() =~= Seq::<Grid>::empty());
            assert(stack@.last()@ == s0);
        }
    }
    while stack.len() != 0
        invariant
            grid_wf(s0),
            no_conflict(s0),
            s0 == board@,
            forall|k: int|
                0 <= k < stack@.len() ==> (#[trigger] stack@[k]).wf() && no_conflict(stack@[k]@)
                    && extends(s0, stack@[k]@),
            forall|t: Seq<u8>| #![auto]
                frontier_count(stack@, t) == if is_solution(s0, t) {
                    1int
                } else {
                    0int
                },
        decreases frontier_measure(stack@),
    {
        let ghost pre_stack = stack@;
        let mut g = stack.pop().unwrap();
        let ghost g_pre = g@;
        proof {
            assert(stack@ =~= pre_stack.drop_last());
            assert(pre_stack.last() == g);
            lemma_pow10_pos(empties(g_pre));
        }
        let m = get_all_possible_values(&mut g);
        proof {
            lemma_propagated(g_pre, g@);
            assert(extends(s0, g@)) by {
                assert forall|i: int| 0 <= i < 81 && s0[i] != 0 implies g@[i] == s0[i] by {
                    assert(g_pre[i] == s0[i]);
                }
            }
        }
        if m.len() == 0 {
            proof {
                assert(m@.map_values(|e: CellCandidates| e@).len() == 0);
                lemma_cmap_empty_complete(g@);
            }
            return Some(g);
        }
        let mut best: usize = 0;
        let mut has_empty: bool = false;
        for k in 0..m.len()
            invariant
                m@.len() >= 1,
                best < m@.len(),
                has_empty <==> (exists|j: int| 0 <= j < k && (#[trigger] m@[j])@.2.len() == 0),
                forall|j: int|
                    0 <= j < k ==> m@[best as int]@.2.len() <= (#[trigger] m@[j])@.2.len(),
        {
            if m[k].values.len() == 0 {
                proof {
                    assert(m@[k as int]@.2.len() == 0);
                }
                has_empty = true;
            }
            if m[k].values.len() < m[best].values.len() {
                best = k;
            }
        }
        if has_empty {
            proof {
                let j = choose|j: int| 0 <= j < m@.len() && (#[trigger] m@[j])@.2.len() == 0;
                lemma_cmap(g@);
                assert(candidate_map_spec(g@)[j] == m@.map_values(|e: CellCandidates| e@)[j]);
                assert(candidate_map_spec(g@)[j] == m@[j]@);
                let e = candidate_map_spec(g@)[j];
                assert forall|t: Seq<u8>| !is_solution(g@, t) by {
                    if is_solution(g@, t) {
                        lemma_solution_value_is_candidate(g@, e.0, e.1, t);
                    }
                }
                assert forall|t: Seq<u8>| #![auto]
                    frontier_count(stack@, t) == if is_solution(s0, t) {
                        1int
                    } else {
                        0int
                    } by {
                    assert(is_solution(g_pre, t) <==> is_solution(g@, t));
                    assert(!is_solution(g_pre, t));
                    assert(frontier_count(pre_stack, t) == if is_solution(s0, t) {
                        1int
                    } else {
                        0int
                    });
                }
            }
        } else {
            let e_row = m[best].row;
            let e_col = m[best].col;
            let ghost gv = g@;
            let ghost r = e_row as int;
            let ghost c = e_col as int;
            let ghost vals = m@[best as int]@.2;
            proof {
                lemma_cmap(gv);
                assert(candidate_map_spec(gv)[best as int] == m@.map_values(
                    |e: CellCandidates| e@,
                )[best as int]);
                assert(candidate_map_spec(gv)[best as int] == m@[best as int]@);
                assert(in_cell_range(r, c));
                assert(gv[idx(r, c)] == 0);
                assert(vals == candidates_of(gv, r, c));
                lemma_candidates(gv, r, c);
                lemma_empties_at_least_one(gv, r, c);
                assert(!(exists|j: int| 0 <= j < m@.len() && (#[trigger] m@[j])@.2.len() == 0));
                assert(m@[best as int]@.2.len() != 0);
            }
            let ghost base_stack = stack@;
            let ghost child_weight = pow10((empties(gv) - 1) as nat);
            let n_children = m[best].values.len();
            let mut j: usize = 0;
            while j < n_children
                invariant
                    g.wf(),
                    g@ == gv,
                    grid_wf(gv),
                    no_conflict(gv),
                    extends(s0, gv),
                    grid_wf(s0),
                    in_cell_range(r, c),
                    gv[idx(r, c)] == 0,
                    vals == candidates_of(gv, r, c),
                    e_row == r,
                    e_col == c,
                    m@[best as int]@.2 == vals,
                    best < m@.len(),
                    n_children == vals.len(),
                    j <= n_children,
                    child_weight == pow10((empties(gv) - 1) as nat),
                    empties(gv) >= 1,
                    stack@.len() == base_stack.len() + j,
                    forall|k: int|
                        0 <= k < base_stack.len() ==> #[trigger] stack@[k] == base_stack[k],
                    forall|k: int|
                        0 <= k < stack@.len() ==> (#[trigger] stack@[k]).wf()
                            && no_conflict(stack@[k]@) && extends(s0, stack@[k]@),
                    forall|t: Seq<u8>| #![trigger is_solution(gv, t)]
                        frontier_count(stack@, t) == frontier_count(base_stack, t)
                            + if is_solution(gv, t) && vals.subrange(0, j as int).contains(
                            t[idx(r, c)],
                        ) {
                            1int
                        } else {
                            0int
                        },
                    frontier_measure(stack@) == frontier_measure(base_stack) + j * child_weight,
                decreases n_children - j,
            {
                let v = m[best].values[j];
                proof {
                    lemma_candidates(gv, r, c);
                    assert(candidates_of(gv, r, c)[j as int] == v);
                    assert(1 <= v <= 9);
                    lemma_fill(gv, r, c, v);
                    lemma_empties_at_least_one(gv, r, c);
                }
                let mut child = g.clone();
                child.set(e_row, e_col, v);
                let ghost pre_push = stack@;
                stack.push(child);
                proof {
                    lemma_frontier_push(pre_push, child);
                    assert(child@ == gv.update(idx(r, c), v));
                    assert(empties(child@) + 1 == empties(gv));
                    assert(pow10(empties(child@)) == child_weight);
                    assert((j + 1) as int * child_weight == j as int * child_weight
                        + child_weight) by (nonlinear_arith);
                    assert forall|t: Seq<u8>| #![trigger is_solution(gv, t)]
                        frontier_count(stack@, t) == frontier_count(base_stack, t)
                            + if is_solution(gv, t) && vals.subrange(0, j as int + 1).contains(
                            t[idx(r, c)],
                        ) {
                            1int
                        } else {
                            0int
                        } by {
                        let sub0 = vals.subrange(0, j as int);
                        let sub1 = vals.subrange(0, j as int + 1);
                        assert(frontier_count(pre_push, t) == frontier_count(base_stack, t)
                            + if is_solution(gv, t) && sub0.contains(t[idx(r, c)]) {
                            1int
                        } else {
                            0int
                        });
                        assert(frontier_count(stack@, t) == frontier_count(pre_push, t)
                            + if is_solution(child@, t) {
                            1int
                        } else {
                            0int
                        });
                        assert(is_solution(child@, t) <==> (is_solution(gv, t) && t[idx(r, c)]
                            == v));
                        if is_solution(gv, t) {
                            let w = t[idx(r, c)];
                            if w == v {
                                assert(sub1[j as int] == w);
                                assert(sub1.contains(w));
                                assert(!sub0.contains(w)) by {
                                    if sub0.contains(w) {
                                        let k2 = choose|k2: int|
                                            0 <= k2 < sub0.len() && #[trigger] sub0[k2] == w;
                                        assert(candidates_of(gv, r, c)[k2] == w);
                                        assert(candidates_of(gv, r, c)[k2] < candidates_of(
                                            gv,
                                            r,
                                            c,
                                        )[j as int]);
                                    }
                                }
                            } else {
                                assert(sub1.contains(w) <==> sub0.contains(w)) by {
                                    if sub1.contains(w) {
                                        let kk = choose|kk: int|
                                            0 <= kk < sub1.len() && #[trigger] sub1[kk] == w;
                                        assert(kk != j);
                                        assert(sub0[kk] == w);
                                        assert(sub0.contains(w));
                                    }
                                    if sub0.contains(w) {
                                        let kk = choose|kk: int|
                                            0 <= kk < sub0.len() && #[trigger] sub0[kk] == w;
                                        assert(sub1[kk] == w);
                                        assert(sub1.contains(w));
                                    }
                                }
                            }
                        }
                    }
                    assert(extends(s0, child@)) by {
                        assert forall|i: int|
                            0 <= i < 81 && s0[i] != 0 implies child@[i] == s0[i] by {
                            assert(gv[i] == s0[i]);
                            assert(child@[i] == gv[i]);
                        }
                    }
                }
                let ghost j_pre = j as int;
                j = j + 1;
                proof {
                    assert forall|t: Seq<u8>| #![trigger is_solution(gv, t)]
                        frontier_count(stack@, t) == frontier_count(base_stack, t)
                            + if is_solution(gv, t) && vals.subrange(0, j as int).contains(
                            t[idx(r, c)],
                        ) {
                            1int
                        } else {
                            0int
                        } by {
                        assert(frontier_count(stack@, t) == frontier_count(base_stack, t)
                            + if is_solution(gv, t) && vals.subrange(0, j_pre + 1).contains(
                            t[idx(r, c)],
                        ) {
                            1int
                        } else {
                            0int
                        });
                        assert(vals.subrange(0, j_pre + 1) == vals.subrange(0, j as int));
                    }
                }
            }
            proof {
                assert(vals.subrange(0, n_children as int) =~= vals);
                assert forall|t: Seq<u8>| #![auto]
                    frontier_count(stack@, t) == if is_solution(s0, t) {
                        1int
                    } else {
                        0int
                    } by {
                    assert(is_solution(g_pre, t) <==> is_solution(gv, t));
                    if is_solution(gv, t) {
                        lemma_solution_value_is_candidate(gv, r, c, t);
                        assert(vals.contains(t[idx(r, c)]));
                    }
                    assert(frontier_count(pre_stack, t) == if is_solution(s0, t) {
                        1int
                    } else {
                        0int
                    });
                }
                assert(frontier_measure(stack@) < frontier_measure(pre_stack)) by {
                    assert(n_children as int * child_weight <= 9 * child_weight)
                        by (nonlinear_arith)
                        requires n_children <= 9, child_weight >= 0;
                    assert(10 * child_weight == pow10(empties(gv)));
                    lemma_pow10_mono(empties(gv), empties(g_pre));
                    assert(child_weight >= 1) by {
                        lemma_pow10_pos((empties(gv) - 1) as nat);
                    }
                }
            }
        }
    }
    proof {
        assert forall|t: Seq<u8>| !is_solution(board@, t) by {
            assert(frontier_count(stack@, t) == 0);
        }
    }
    None
}

/// A grid with an empty cell has at least one empty cell to count.
proof fn lemma_empties_at_least_one(s: Seq<u8>, r: int, c: int)
    requires
        s.len() == 81,
        in_cell_range(r, c),
        s[idx(r, c)] == 0,
    ensures
        empties(s) >= 1,
{
    crate::engine::lemma_empties_set(s, idx(r, c), 1);
}

/// A grid with a unique solution makes the search emit exactly that one
/// solution, exactly once.
pub proof fn lemma_unique_solution(sols: Seq<Grid>, s: Seq<u8>, t: Seq<u8>)
    requires
        forall|u: Seq<u8>| #![auto]
            emitted_count(sols, u) == if is_solution(s, u) {
                1int
            } else {
                0int
            },
        is_solution(s, t),
        forall|u: Seq<u8>| is_solution(s, u) ==> u == t,
    ensures
        sols.len() == 1,
        sols[0]@ == t,
{
    assert forall|k: int| 0 <= k < sols.len() implies (#[trigger] sols[k])@ == t by {
        lemma_emitted_element(sols, k);
        assert(emitted_count(sols, sols[k]@) >= 1);
        assert(is_solution(s, sols[k]@));
    }
    lemma_emitted_all_equal(sols, t);
    assert(emitted_count(sols, t) == 1);
}

/// An unsatisfiable grid makes the search emit no solution at all.
pub proof fn lemma_unsatisfiable_no_solutions(sols: Seq<Grid>, s: Seq<u8>)
    requires
        forall|u: Seq<u8>| #![auto]
            emitted_count(sols, u) == if is_solution(s, u) {
                1int
            } else {
                0int
            },
        forall|u: Seq<u8>| !is_solution(s, u),
    ensures
        sols.len() == 0,
{
    if sols.len() > 0 {
        lemma_emitted_element(sols, 0);
        assert(is_solution(s, sols[0]@));
    }
}

} // verus!
