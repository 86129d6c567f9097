//! Depth-first backtracking search driven by the minimum-remaining-values
//! selector.
use vstd::prelude::*;

use crate::bits::bit16;
use crate::game::{Game, ShowKinds};
use crate::grid::{
    cell_of, free_cell, count_free, extends, is_solution, lemma_cell_of, lemma_clash_unsolvable,
    lemma_complete_is_solution, lemma_dead_unsolvable, lemma_slot_id, lemma_solution_digit_legal,
    lemma_solution_fills_slot, legal, open_slot, solvable, consistent, first_zero,
    lemma_first_zero, lemma_count_free_positive, dead_point, first_best, lemma_slot_point,
};
use crate::bits::lemma_count_true;
use crate::state::lemma_place_then_clear;

verus! {

/// The nodes that the fewest-options search visits on `b` when at most `n`
/// cells are still empty: the node itself, plus, unless `b` clashes, has a
/// dead point or has no point left, the nodes of each option of the
/// selector's point in ascending order, up to and including the first option
/// that can be completed.
pub open spec fn mrv_from(b: Seq<u8>, n: nat) -> nat
    decreases n, 10int,
{
    if n == 0 || !consistent(b) || dead_point(b) || first_best(b, 324) < 0 {
        1
    } else {
        let k = first_best(b, 324);
        if k < 81 {
            1 + mrv_cell_tries(b, k, 0, n)
        } else {
            1 + mrv_slot_tries(b, (k - 81) / 81, (k - 81) % 81 / 9, (k - 81) % 81 % 9, 0, n)
        }
    }
}

/// The nodes that the fewest-options search spends on digits `v + 1` and up
/// in cell `i` of `b`, where `n` bounds the empty cells of `b`.
pub open spec fn mrv_cell_tries(b: Seq<u8>, i: int, v: int, n: nat) -> nat
    decreases n, 9 - v,
{
    if n == 0 || v < 0 || v >= 9 {
        0
    } else if !legal(b, i, v + 1) {
        mrv_cell_tries(b, i, v + 1, n)
    } else {
        let m = mrv_from(b.update(i, (v + 1) as u8), (n - 1) as nat);
        if solvable(b.update(i, (v + 1) as u8)) {
            m
        } else {
            m + mrv_cell_tries(b, i, v + 1, n)
        }
    }
}

/// The nodes that the fewest-options search spends on positions `p` and up
/// of house `hi` of type `ht` for digit `val + 1`.
pub open spec fn mrv_slot_tries(b: Seq<u8>, ht: int, hi: int, val: int, p: int, n: nat) -> nat
    decreases n, 9 - p,
{
    if n == 0 || p < 0 || p >= 9 {
        0
    } else if !legal(b, cell_of(ht, hi, p), val + 1) {
        mrv_slot_tries(b, ht, hi, val, p + 1, n)
    } else {
        let m = mrv_from(b.update(cell_of(ht, hi, p), (val + 1) as u8), (n - 1) as nat);
        if solvable(b.update(cell_of(ht, hi, p), (val + 1) as u8)) {
            m
        } else {
            m + mrv_slot_tries(b, ht, hi, val, p + 1, n)
        }
    }
}

/// The number of nodes that the fewest-options search visits on `b`.
pub open spec fn mrv_nodes(b: Seq<u8>) -> nat {
    mrv_from(b, count_free(b))
}

/// The nodes that the first-free-cell search visits on `b` when at most `n`
/// cells are still empty: the node itself, plus, unless `b` clashes or is
/// full, the nodes of each option of its first empty cell in ascending order,
/// up to and including the first option that can be completed.
pub open spec fn naive_from(b: Seq<u8>, n: nat) -> nat
    decreases n, 10int,
{
    if n == 0 || !consistent(b) || first_zero(b, 0) >= 81 {
        1
    } else {
        1 + naive_tries(b, first_zero(b, 0), 0, n)
    }
}

/// The nodes that the first-free-cell search spends on digits `v + 1` and
/// up in cell `i` of `b`, where `n` bounds the empty cells of `b`.
pub open spec fn naive_tries(b: Seq<u8>, i: int, v: int, n: nat) -> nat
    decreases n, 9 - v,
{
    if n == 0 || v < 0 || v >= 9 {
        0
    } else if !legal(b, i, v + 1) {
        naive_tries(b, i, v + 1, n)
    } else {
        let m = naive_from(b.update(i, (v + 1) as u8), (n - 1) as nat);
        if solvable(b.update(i, (v + 1) as u8)) {
            m
        } else {
            m + naive_tries(b, i, v + 1, n)
        }
    }
}

/// The number of nodes that the first-free-cell search visits on `b`.
pub open spec fn naive_nodes(b: Seq<u8>) -> nat {
    naive_from(b, count_free(b))
}

/// No option left from digit `v + 1` on costs no node.
proof fn lemma_naive_tries_none(b: Seq<u8>, i: int, v: int, n: nat)
    requires
        0 <= v <= 9,
        forall|u: int| v <= u < 9 ==> !#[trigger] legal(b, i, u + 1),
    ensures
        naive_tries(b, i, v, n) == 0,
    decreases 9 - v,
{
    if v < 9 {
        assert(!legal(b, i, v + 1));
        lemma_naive_tries_none(b, i, v + 1, n);
    }
}

/// If every option of the free cell `idx` leads to a grid without solution,
/// the grid has none.
proof fn lemma_cell_exhausted(b: Seq<u8>, idx: int, c: u16)
    requires
        b.len() == 81,
        0 <= idx < 81,
        b[idx] == 0,
        forall|u: int| 0 <= u < 9 ==> #[trigger] bit16(c, u) == legal(b, idx, u + 1),
        forall|u: int| 0 <= u < 9 && #[trigger] bit16(c, u) ==> !solvable(b.update(idx, (u + 1) as u8)),
    ensures
        !solvable(b),
{
    if solvable(b) {
        let s = choose|s: Seq<u8>| #[trigger] is_solution(s) && extends(s, b);
        lemma_solution_digit_legal(b, s, idx);
        let u = s[idx] - 1;
        assert(bit16(c, u));
        assert(extends(s, b.update(idx, (u + 1) as u8)));
    }
}

/// If every option of an open slot leads to a grid without solution, the
/// grid has none.
proof fn lemma_slot_exhausted(b: Seq<u8>, ht: int, hi: int, val: int, c: u16)
    requires
        b.len() == 81,
        open_slot(b, ht, hi, val),
        forall|q: int| 0 <= q < 9 ==> #[trigger] bit16(c, q) == legal(b, cell_of(ht, hi, q), val + 1),
        forall|q: int| 0 <= q < 9 && #[trigger] bit16(c, q) ==> !solvable(b.update(cell_of(ht, hi, q), (val + 1) as u8)),
    ensures
        !solvable(b),
{
    if solvable(b) {
        let s = choose|s: Seq<u8>| #[trigger] is_solution(s) && extends(s, b);
        lemma_solution_fills_slot(b, s, ht, hi, val);
        let q = choose|q: int|
            0 <= q < 9 && #[trigger] legal(b, cell_of(ht, hi, q), val + 1) && s[cell_of(ht, hi, q)] == val + 1;
        assert(bit16(c, q));
        lemma_cell_of(ht, hi, q);
        assert(extends(s, b.update(cell_of(ht, hi, q), (val + 1) as u8)));
    }
}

/// Completes `game` to a solution, trying the options of the decision point
/// with the fewest options in ascending order and undoing each one that
/// leads nowhere.
///
/// On success the board is solved and keeps every digit it held; on failure
/// the board has no solution and is left exactly as it was.
pub fn eval(game: &mut Game) -> (r: Result<(), ()>)
    requires
        old(game)@.well_formed(),
    ensures
        final(game)@.well_formed(),
        r is Ok ==> is_solution(final(game)@.cells) && extends(final(game)@.cells, old(game)@.cells),
        r is Err ==> final(game)@ == old(game)@ && !solvable(old(game)@.cells),
{
    let mut nodes: u64 = 0;
    eval_counted(game, &mut nodes)
}

/// Like [`eval`], and adds to `nodes` the number of search nodes visited,
/// `mrv_nodes` of the board (stopping at `u64::MAX`).
///
/// On success the board is solved and keeps every digit it held; on failure
/// the board has no solution and is left exactly as it was.
pub fn eval_counted(game: &mut Game, nodes: &mut u64) -> (r: Result<(), ()>)
    requires
        old(game)@.well_formed(),
    ensures
        final(game)@.well_formed(),
        *old(nodes) <= *final(nodes),
        *old(nodes) < *final(nodes) || *final(nodes) == u64::MAX,
        *old(nodes) + mrv_nodes(old(game)@.cells) <= u64::MAX ==> *final(nodes) == *old(nodes)
            + mrv_nodes(old(game)@.cells),
        r is Ok ==> is_solution(final(game)@.cells) && extends(final(game)@.cells, old(game)@.cells),
        r is Err ==> final(game)@ == old(game)@ && !solvable(old(game)@.cells),
    decreases count_free(old(game)@.cells),
{
    let ghost g0 = game@;
    let ghost b = g0.cells;
    let ghost n0 = *nodes;
    let ghost total = mrv_nodes(b);
    let ghost n_free = count_free(b);
    let ghost exact = n0 + total <= u64::MAX;
    *nodes = nodes.saturating_add(1);
    match game.showbestfree() {
        ShowKinds::SOLVED => {
            proof {
                lemma_complete_is_solution(b);
            }
            Ok(())
        },
        ShowKinds::FAILED => {
            proof {
                if g0.conflict {
                    lemma_clash_unsolvable(b);
                } else {
                    lemma_dead_unsolvable(b);
                }
            }
            Err(())
        },
        ShowKinds::PICKIDX(idx, candidates) => {
            proof {
                lemma_count_free_positive(b, idx as int);
                assert(total == 1 + mrv_cell_tries(b, idx as int, 0, n_free));
            }
            let mut v: usize = 0;
            while v < 9
                invariant
                    game@ == g0,
                    old(game)@ == g0,
                    *old(nodes) == n0,
                    n0 <= *nodes,
                    n0 < *nodes || *nodes == u64::MAX,
                    total == mrv_nodes(b),
                    n_free == count_free(b),
                    n_free >= 1,
                    exact == (n0 + total <= u64::MAX),
                    exact ==> n0 + total == *nodes + mrv_cell_tries(b, idx as int, v as int, n_free),
                    b == g0.cells,
                    g0.well_formed(),
                    !g0.conflict,
                    v <= 9,
                    idx < 81,
                    b[idx as int] == 0,
                    forall|u: int| 0 <= u < 9 ==> #[trigger] bit16(candidates, u) == legal(b, idx as int, u + 1),
                    forall|u: int| 0 <= u < v && #[trigger] bit16(candidates, u) ==> !solvable(b.update(idx as int, (u + 1) as u8)),
                decreases 9 - v,
            {
                if (candidates >> (v as u16)) & 1u16 == 1u16 {
                    proof {
                        assert(bit16(candidates, v as int));
                    }
                    game.unsafe_choose(idx, v);
                    let ghost before = *nodes;
                    let ghost b2 = b.update(idx as int, (v + 1) as u8);
                    let ghost m = mrv_nodes(b2);
                    let res = eval_counted(game, nodes);
                    proof {
                        assert(count_free(b2) == n_free - 1);
                        if exact {
                            assert(before + m <= u64::MAX);
                            assert(*nodes == before + m);
                        }
                    }
                    if res.is_ok() {
                        proof {
                            assert forall|i: int| 0 <= i < 81 && b[i] != 0 implies #[trigger] game@.cells[i] == b[i] by {
                                assert(b.update(idx as int, (v + 1) as u8)[i] == b[i]);
                            }
                        }
                        return Ok(());
                    }
                    game.unsafe_unchoose(idx);
                    proof {
                        lemma_place_then_clear(g0, idx as int, v as int);
                    }
                } else {
                    proof {
                        assert(!bit16(candidates, v as int));
                    }
                }
                v = v + 1;
            }
            proof {
                lemma_cell_exhausted(b, idx as int, candidates);
            }
            Err(())
        },
        ShowKinds::PICKVAL(vt, candidates) => {
            let ghost ht = vt[0] as int;
            let ghost hi = vt[1] as int / 9;
            let ghost val = vt[1] as int % 9;
            proof {
                lemma_slot_id(vt[1] as int, 0, 0);
                lemma_slot_point(ht, vt[1] as int);
                let f = |q: int| legal(b, cell_of(ht, hi, q), val + 1);
                lemma_count_true(9, f, f);
                let q = choose|q: int| 0 <= q < 9 && #[trigger] f(q);
                lemma_cell_of(ht, hi, q);
                lemma_count_free_positive(b, cell_of(ht, hi, q));
                assert(total == 1 + mrv_slot_tries(b, ht, hi, val, 0, n_free));
            }
            let mut p: usize = 0;
            while p < 9
                invariant
                    game@ == g0,
                    old(game)@ == g0,
                    *old(nodes) == n0,
                    n0 <= *nodes,
                    n0 < *nodes || *nodes == u64::MAX,
                    total == mrv_nodes(b),
                    n_free == count_free(b),
                    n_free >= 1,
                    exact == (n0 + total <= u64::MAX),
                    exact ==> n0 + total == *nodes + mrv_slot_tries(b, ht, hi, val, p as int, n_free),
                    b == g0.cells,
                    g0.well_formed(),
                    !g0.conflict,
                    p <= 9,
                    vt[0] < 3,
                    vt[1] < 81,
                    ht == vt[0],
                    hi == vt[1] as int / 9,
                    val == vt[1] as int % 9,
                    0 <= hi < 9,
                    0 <= val < 9,
                    forall|q: int| 0 <= q < 9 ==> #[trigger] bit16(candidates, q) == legal(b, cell_of(ht, hi, q), val + 1),
                    forall|q: int| 0 <= q < p && #[trigger] bit16(candidates, q) ==> !solvable(b.update(cell_of(ht, hi, q), (val + 1) as u8)),
                decreases 9 - p,
            {
                if (candidates >> (p as u16)) & 1u16 == 1u16 {
                    proof {
                        assert(bit16(candidates, p as int));
                    }
                    let ghost before = *nodes;
                    let idx = game.unsafe_choose_alt(vt, p);
                    let ghost b2 = b.update(idx as int, (val + 1) as u8);
                    let ghost m = mrv_nodes(b2);
                    let res = eval_counted(game, nodes);
                    proof {
                        assert(count_free(b2) == n_free - 1);
                        if exact {
                            assert(before + m <= u64::MAX);
                            assert(*nodes == before + m);
                        }
                    }
                    if res.is_ok() {
                        proof {
                            assert forall|i: int| 0 <= i < 81 && b[i] != 0 implies #[trigger] game@.cells[i] == b[i] by {
                                assert(b.update(idx as int, (val + 1) as u8)[i] == b[i]);
                            }
                        }
                        return Ok(());
                    }
                    game.unsafe_unchoose(idx);
                    proof {
                        lemma_place_then_clear(g0, idx as int, val);
                    }
                } else {
                    proof {
                        assert(!bit16(candidates, p as int));
                    }
                }
                p = p + 1;
            }
            proof {
                lemma_slot_exhausted(b, ht, hi, val, candidates);
            }
            Err(())
        },
    }
}


/// Plain chronological search for comparison: always branches on the first
/// free cell, counting each node it visits in `nodes`. It gives up with
/// `None`, leaving the board as it was, exactly when the whole search would
/// take `nodes` past `limit`. Otherwise it answers as [`eval`] does.
pub fn eval_first_free(game: &mut Game, nodes: &mut u64, limit: u64) -> (r: Option<Result<(), ()>>)
    requires
        old(game)@.well_formed(),
    ensures
        final(game)@.well_formed(),
        *old(nodes) <= *final(nodes),
        r is None <==> *old(nodes) + naive_nodes(old(game)@.cells) > limit,
        r is Some ==> *final(nodes) == *old(nodes) + naive_nodes(old(game)@.cells),
        r is Some ==> *final(nodes) <= limit,
        r matches Some(Ok(_)) ==> is_solution(final(game)@.cells) && extends(
            final(game)@.cells,
            old(game)@.cells,
        ),
        r matches Some(Err(_)) ==> final(game)@ == old(game)@ && !solvable(old(game)@.cells),
        r is None ==> final(game)@ == old(game)@ && *final(nodes) >= limit,
    decreases count_free(old(game)@.cells),
{
    let ghost g0 = game@;
    let ghost b = g0.cells;
    let ghost n_free = count_free(b);
    let ghost start = *nodes;
    if *nodes >= limit {
        return None;
    }
    *nodes = *nodes + 1;
    let ghost n0 = *nodes;
    proof {
        lemma_first_zero(b, 0);
    }
    match game.first_free() {
        ShowKinds::SOLVED => {
            proof {
                lemma_complete_is_solution(b);
                if first_zero(b, 0) < 81 {
                    assert(free_cell(b, first_zero(b, 0)));
                }
            }
            Some(Ok(()))
        },
        ShowKinds::PICKIDX(idx, candidates) => {
            proof {
                lemma_count_free_positive(b, idx as int);
                assert(naive_nodes(b) == 1 + naive_tries(b, idx as int, 0, n_free));
            }
            let mut v: usize = 0;
            while v < 9
                invariant
                    game@ == g0,
                    old(game)@ == g0,
                    *old(nodes) == start,
                    start < n0 <= *nodes <= limit,
                    start + naive_nodes(b) == *nodes + naive_tries(b, idx as int, v as int, n_free),
                    n_free == count_free(b),
                    n_free >= 1,
                    b == g0.cells,
                    g0.well_formed(),
                    !g0.conflict,
                    v <= 9,
                    idx < 81,
                    b[idx as int] == 0,
                    forall|u: int| 0 <= u < 9 ==> #[trigger] bit16(candidates, u) == legal(b, idx as int, u + 1),
                    forall|u: int| 0 <= u < v && #[trigger] bit16(candidates, u) ==> !solvable(b.update(idx as int, (u + 1) as u8)),
                decreases 9 - v,
            {
                if (candidates >> (v as u16)) & 1u16 == 1u16 {
                    proof {
                        assert(bit16(candidates, v as int));
                    }
                    game.unsafe_choose(idx, v);
                    let ghost before = *nodes;
                    let ghost b2 = b.update(idx as int, (v + 1) as u8);
                    match eval_first_free(game, nodes, limit) {
                        Some(Ok(())) => {
                            proof {
                                assert forall|i: int| 0 <= i < 81 && b[i] != 0 implies #[trigger] game@.cells[i] == b[i] by {
                                    assert(b2[i] == b[i]);
                                }
                                assert(solvable(b2));
                            }
                            return Some(Ok(()));
                        },
                        Some(Err(())) => {
                            game.unsafe_unchoose(idx);
                            proof {
                                lemma_place_then_clear(g0, idx as int, v as int);
                            }
                        },
                        None => {
                            game.unsafe_unchoose(idx);
                            proof {
                                lemma_place_then_clear(g0, idx as int, v as int);
                                assert(before + naive_nodes(b2) > limit);
                            }
                            return None;
                        },
                    }
                } else {
                    proof {
                        assert(!bit16(candidates, v as int));
                    }
                }
                v = v + 1;
            }
            proof {
                lemma_cell_exhausted(b, idx as int, candidates);
            }
            Some(Err(()))
        },
        _ => {
            proof {
                if g0.conflict {
                    lemma_clash_unsolvable(b);
                } else {
                    lemma_dead_unsolvable(b);
                    if first_zero(b, 0) < 81 {
                        lemma_count_free_positive(b, first_zero(b, 0));
                        lemma_naive_tries_none(b, first_zero(b, 0), 0, n_free);
                    }
                }
            }
            Some(Err(()))
        },
    }
}

} // verus!
