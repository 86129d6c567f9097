//! The board as a mathematical object: 81 cells in row-major order, each 0
//! (empty) or a digit 1..=9, and the 27 houses (9 rows, 9 columns, 9 boxes).
use vstd::prelude::*;

use crate::bits::{count_true, lemma_count_true};

verus! {

/// House type 0 is a row, 1 a column, 2 a 3x3 box; this is the index, 0..9,
/// of the house of that type that holds cell `idx`.
pub open spec fn house_of(ht: int, idx: int) -> int {
    if ht == 0 {
        idx / 9
    } else if ht == 1 {
        idx % 9
    } else {
        idx / 27 * 3 + idx % 9 / 3
    }
}

/// The position, 0..9, of cell `idx` inside its house of type `ht`.
pub open spec fn pos_in(ht: int, idx: int) -> int {
    if ht == 0 {
        idx % 9
    } else if ht == 1 {
        idx / 9
    } else {
        idx / 9 % 3 * 3 + idx % 3
    }
}

/// The cell at position `p` of house `hi` of type `ht`.
pub open spec fn cell_of(ht: int, hi: int, p: int) -> int {
    if ht == 0 {
        hi * 9 + p
    } else if ht == 1 {
        p * 9 + hi
    } else {
        (hi / 3 * 3 + p / 3) * 9 + hi % 3 * 3 + p % 3
    }
}

pub proof fn lemma_cell_of(ht: int, hi: int, p: int)
    requires
        0 <= ht < 3,
        0 <= hi < 9,
        0 <= p < 9,
    ensures
        0 <= cell_of(ht, hi, p) < 81,
        house_of(ht, cell_of(ht, hi, p)) == hi,
        pos_in(ht, cell_of(ht, hi, p)) == p,
        ht == 0 ==> house_of(1, cell_of(ht, hi, p)) == p && house_of(2, cell_of(ht, hi, p)) == hi
            / 3 * 3 + p / 3,
        ht == 1 ==> house_of(0, cell_of(ht, hi, p)) == p && house_of(2, cell_of(ht, hi, p)) == p
            / 3 * 3 + hi / 3,
        ht == 2 ==> house_of(0, cell_of(ht, hi, p)) == hi / 3 * 3 + p / 3 && house_of(
            1,
            cell_of(ht, hi, p),
        ) == hi % 3 * 3 + p % 3,
{
    assert(0 <= cell_of(ht, hi, p) < 81 && house_of(ht, cell_of(ht, hi, p)) == hi && pos_in(
        ht,
        cell_of(ht, hi, p),
    ) == p) by (nonlinear_arith)
        requires
            0 <= ht < 3,
            0 <= hi < 9,
            0 <= p < 9,
    ;
    assert(ht == 0 ==> house_of(1, cell_of(ht, hi, p)) == p && house_of(2, cell_of(ht, hi, p))
        == hi / 3 * 3 + p / 3) by (nonlinear_arith)
        requires
            0 <= ht < 3,
            0 <= hi < 9,
            0 <= p < 9,
    ;
    assert(ht == 1 ==> house_of(0, cell_of(ht, hi, p)) == p && house_of(2, cell_of(ht, hi, p))
        == p / 3 * 3 + hi / 3) by (nonlinear_arith)
        requires
            0 <= ht < 3,
            0 <= hi < 9,
            0 <= p < 9,
    ;
    assert(ht == 2 ==> house_of(0, cell_of(ht, hi, p)) == hi / 3 * 3 + p / 3 && house_of(
        1,
        cell_of(ht, hi, p),
    ) == hi % 3 * 3 + p % 3) by (nonlinear_arith)
        requires
            0 <= ht < 3,
            0 <= hi < 9,
            0 <= p < 9,
    ;
}

pub proof fn lemma_house_of(ht: int, idx: int)
    requires
        0 <= ht < 3,
        0 <= idx < 81,
    ensures
        0 <= house_of(ht, idx) < 9,
        0 <= pos_in(ht, idx) < 9,
        cell_of(ht, house_of(ht, idx), pos_in(ht, idx)) == idx,
{
    assert(0 <= house_of(ht, idx) < 9 && 0 <= pos_in(ht, idx) < 9 && cell_of(ht, house_of(ht, idx), pos_in(ht, idx)) == idx) by (nonlinear_arith)
        requires 0 <= ht < 3, 0 <= idx < 81;
}


/// Some cell of house `hi` of type `ht` holds digit `d`.
pub open spec fn house_has(b: Seq<u8>, ht: int, hi: int, d: int) -> bool {
    exists|i: int| 0 <= i < 81 && #[trigger] house_of(ht, i) == hi && b[i] == d
}

/// Digit `v + 1` is still missing from house `hi` of type `ht`: an open
/// value-house slot.
pub open spec fn slot_open(b: Seq<u8>, ht: int, hi: int, v: int) -> bool {
    !house_has(b, ht, hi, v + 1)
}

/// Digit `d` may be written into cell `idx`: the cell is empty and none of
/// its three houses holds `d` yet.
pub open spec fn legal(b: Seq<u8>, idx: int, d: int) -> bool {
    &&& 0 <= idx < 81
    &&& 1 <= d <= 9
    &&& b[idx] == 0
    &&& !house_has(b, 0, house_of(0, idx), d)
    &&& !house_has(b, 1, house_of(1, idx), d)
    &&& !house_has(b, 2, house_of(2, idx), d)
}

/// 81 cells, each empty (0) or a digit.
pub open spec fn valid_cells(b: Seq<u8>) -> bool {
    &&& b.len() == 81
    &&& forall|i: int| 0 <= i < 81 ==> #[trigger] b[i] <= 9
}

/// No digit stands twice in one house.
pub open spec fn consistent(b: Seq<u8>) -> bool {
    forall|ht: int, i: int, j: int|
        0 <= ht < 3 && 0 <= i < 81 && 0 <= j < 81 && i != j && #[trigger] house_of(ht, i)
            == #[trigger] house_of(ht, j) && b[i] != 0 ==> b[i] != b[j]
}

/// `s` keeps every digit that `b` holds.
pub open spec fn extends(s: Seq<u8>, b: Seq<u8>) -> bool {
    forall|i: int| 0 <= i < 81 && b[i] != 0 ==> #[trigger] s[i] == b[i]
}

/// Digit `d` stands at exactly one position of house `hi` of type `ht`.
pub open spec fn once_in_house(s: Seq<u8>, ht: int, hi: int, d: int) -> bool {
    exists|p: int|
        0 <= p < 9 && s[cell_of(ht, hi, p)] == d && forall|q: int|
            0 <= q < 9 && #[trigger] s[cell_of(ht, hi, q)] == d ==> q == p
}

/// A solved grid: every cell holds a digit, and each of the 27 houses holds
/// each digit 1..=9 exactly once.
pub open spec fn is_solution(s: Seq<u8>) -> bool {
    &&& s.len() == 81
    &&& forall|i: int| 0 <= i < 81 ==> 1 <= #[trigger] s[i] <= 9
    &&& forall|ht: int, hi: int, d: int|
        0 <= ht < 3 && 0 <= hi < 9 && 1 <= d <= 9 ==> #[trigger] once_in_house(s, ht, hi, d)
}

/// `b` can be completed to a solution.
pub open spec fn solvable(b: Seq<u8>) -> bool {
    exists|s: Seq<u8>| #[trigger] is_solution(s) && extends(s, b)
}

/// Writing a digit into an empty cell adds it to that cell's three houses
/// and to no other.
pub proof fn lemma_place_houses(b: Seq<u8>, idx: int, d: u8)
    requires
        b.len() == 81,
        0 <= idx < 81,
        b[idx] == 0,
        1 <= d <= 9,
    ensures
        forall|ht: int, hi: int, e: int|
            0 <= ht < 3 && e != 0 ==> (#[trigger] house_has(b.update(idx, d), ht, hi, e) <==> (
            house_has(b, ht, hi, e) || (hi == house_of(ht, idx) && e == d))),
{
    let nb = b.update(idx, d);
    assert forall|ht: int, hi: int, e: int|
        0 <= ht < 3 && e != 0 implies (#[trigger] house_has(nb, ht, hi, e) <==> (house_has(
        b,
        ht,
        hi,
        e,
    ) || (hi == house_of(ht, idx) && e == d))) by {
        if house_has(nb, ht, hi, e) {
            let i = choose|i: int| 0 <= i < 81 && #[trigger] house_of(ht, i) == hi && nb[i] == e;
            if i != idx {
                assert(b[i] == e);
            }
        }
        if house_has(b, ht, hi, e) {
            let i = choose|i: int| 0 <= i < 81 && #[trigger] house_of(ht, i) == hi && b[i] == e;
            assert(i != idx);
            assert(nb[i] == e);
        }
        if hi == house_of(ht, idx) && e == d {
            assert(nb[idx] == e);
        }
    }
}

/// Emptying a cell of a consistent grid removes its digit from that cell's
/// three houses and from no other.
pub proof fn lemma_clear_houses(b: Seq<u8>, idx: int)
    requires
        b.len() == 81,
        0 <= idx < 81,
        b[idx] != 0,
        consistent(b),
    ensures
        forall|ht: int, hi: int, e: int|
            0 <= ht < 3 && e != 0 ==> (#[trigger] house_has(b.update(idx, 0), ht, hi, e) <==> (
            house_has(b, ht, hi, e) && !(hi == house_of(ht, idx) && e == b[idx]))),
{
    let nb = b.update(idx, 0u8);
    assert forall|ht: int, hi: int, e: int|
        0 <= ht < 3 && e != 0 implies (#[trigger] house_has(nb, ht, hi, e) <==> (house_has(
        b,
        ht,
        hi,
        e,
    ) && !(hi == house_of(ht, idx) && e == b[idx]))) by {
        if house_has(nb, ht, hi, e) {
            let i = choose|i: int| 0 <= i < 81 && #[trigger] house_of(ht, i) == hi && nb[i] == e;
            assert(i != idx);
            assert(b[i] == e);
        }
        if house_has(b, ht, hi, e) && !(hi == house_of(ht, idx) && e == b[idx]) {
            let i = choose|i: int| 0 <= i < 81 && #[trigger] house_of(ht, i) == hi && b[i] == e;
            assert(i != idx);
            assert(nb[i] == e);
        }
    }
}


/// The number of empty cells.
pub open spec fn count_free(b: Seq<u8>) -> nat
    decreases b.len(),
{
    if b.len() == 0 {
        0
    } else {
        count_free(b.drop_last()) + if b.last() == 0 {
            1nat
        } else {
            0nat
        }
    }
}

/// Overwriting one cell changes the number of empty cells by what that cell
/// contributes before and after.
pub proof fn lemma_count_free_update(b: Seq<u8>, i: int, x: u8)
    requires
        0 <= i < b.len(),
    ensures
        count_free(b.update(i, x)) + (if b[i] == 0 {
            1int
        } else {
            0int
        }) == count_free(b) + (if x == 0 {
            1int
        } else {
            0int
        }),
    decreases b.len(),
{
    let nb = b.update(i, x);
    if i == b.len() - 1 {
        assert(nb.drop_last() =~= b.drop_last());
    } else {
        assert(nb.drop_last() =~= b.drop_last().update(i, x));
        lemma_count_free_update(b.drop_last(), i, x);
    }
}


/// Cell `i` is empty: a decision point "which digit goes here".
pub open spec fn free_cell(b: Seq<u8>, i: int) -> bool {
    0 <= i < 81 && b[i] == 0
}

/// Digit `v + 1` is missing from house `hi` of type `ht`: a decision point
/// "where does this digit go in this house".
pub open spec fn open_slot(b: Seq<u8>, ht: int, hi: int, v: int) -> bool {
    0 <= ht < 3 && 0 <= hi < 9 && 0 <= v < 9 && slot_open(b, ht, hi, v)
}

/// The number of digits that cell `idx` may still take.
pub open spec fn cell_weight(b: Seq<u8>, idx: int) -> nat {
    count_true(9, |v: int| legal(b, idx, v + 1))
}

/// The number of positions of house `hi` of type `ht` that may still take
/// digit `v + 1`.
pub open spec fn slot_weight(b: Seq<u8>, ht: int, hi: int, v: int) -> nat {
    count_true(9, |p: int| legal(b, cell_of(ht, hi, p), v + 1))
}

/// No cell is empty and no digit is missing from any house.
pub open spec fn complete(b: Seq<u8>) -> bool {
    &&& forall|i: int| 0 <= i < 81 ==> !#[trigger] free_cell(b, i)
    &&& forall|ht: int, hi: int, v: int| !#[trigger] open_slot(b, ht, hi, v)
}

/// Some decision point has no option left.
pub open spec fn dead_point(b: Seq<u8>) -> bool {
    ||| exists|i: int| #[trigger] free_cell(b, i) && cell_weight(b, i) == 0
    ||| exists|ht: int, hi: int, v: int| #[trigger] open_slot(b, ht, hi, v) && slot_weight(b, ht, hi, v) == 0
}

/// Every decision point has at least `w` options.
pub open spec fn weights_at_least(b: Seq<u8>, w: int) -> bool {
    &&& forall|i: int| #[trigger] free_cell(b, i) ==> w <= cell_weight(b, i)
    &&& forall|ht: int, hi: int, v: int| #[trigger] open_slot(b, ht, hi, v) ==> w <= slot_weight(b, ht, hi, v)
}

/// A slot number `id` in 0..81 stands for house `id / 9` and digit `id % 9 + 1`.
pub proof fn lemma_slot_id(id: int, hi: int, v: int)
    ensures
        0 <= id < 81 ==> 0 <= id / 9 < 9 && 0 <= id % 9 < 9 && id / 9 * 9 + id % 9 == id,
        0 <= hi < 9 && 0 <= v < 9 ==> 0 <= hi * 9 + v < 81 && (hi * 9 + v) / 9 == hi && (hi * 9
            + v) % 9 == v,
{
    assert(0 <= id < 81 ==> 0 <= id / 9 < 9 && 0 <= id % 9 < 9 && id / 9 * 9 + id % 9 == id) by (nonlinear_arith);
    assert(0 <= hi < 9 && 0 <= v < 9 ==> 0 <= hi * 9 + v < 81 && (hi * 9 + v) / 9 == hi && (hi * 9
        + v) % 9 == v) by (nonlinear_arith);
}


/// Filling an empty cell keeps a clash a clash.
pub proof fn lemma_clash_stays(b: Seq<u8>, idx: int, d: u8)
    requires
        b.len() == 81,
        0 <= idx < 81,
        b[idx] == 0,
        !consistent(b),
    ensures
        !consistent(b.update(idx, d)),
{
    let (ht, i, j) = choose|ht: int, i: int, j: int|
        0 <= ht < 3 && 0 <= i < 81 && 0 <= j < 81 && i != j && #[trigger] house_of(ht, i)
            == #[trigger] house_of(ht, j) && b[i] != 0 && b[i] == b[j];
    let nb = b.update(idx, d);
    assert(nb[i] == b[i] && nb[j] == b[j]);
}

/// Writing a digit that is not legal into an empty cell creates a clash.
pub proof fn lemma_illegal_clashes(b: Seq<u8>, idx: int, d: u8)
    requires
        b.len() == 81,
        0 <= idx < 81,
        b[idx] == 0,
        1 <= d <= 9,
        !legal(b, idx, d as int),
    ensures
        !consistent(b.update(idx, d)),
{
    let nb = b.update(idx, d);
    let ht: int = if house_has(b, 0, house_of(0, idx), d as int) {
        0
    } else if house_has(b, 1, house_of(1, idx), d as int) {
        1
    } else {
        2
    };
    let j = choose|j: int| 0 <= j < 81 && #[trigger] house_of(ht, j) == house_of(ht, idx) && b[j] == d;
    assert(j != idx);
    assert(nb[j] == d && nb[idx] == d);
}

/// The empty grid has no clash and misses every digit in every house.
pub proof fn lemma_empty_grid(b: Seq<u8>)
    requires
        b.len() == 81,
        forall|i: int| 0 <= i < 81 ==> b[i] == 0,
    ensures
        consistent(b),
        forall|ht: int, hi: int, v: int| 0 <= v ==> #[trigger] slot_open(b, ht, hi, v),
{
    assert forall|ht: int, hi: int, v: int| 0 <= v implies #[trigger] slot_open(b, ht, hi, v) by {
        if house_has(b, ht, hi, v + 1) {
            let i = choose|i: int| 0 <= i < 81 && #[trigger] house_of(ht, i) == hi && b[i] == v + 1;
        }
    }
}


/// Two cells of one house of a solution hold different digits.
pub proof fn lemma_solution_distinct(s: Seq<u8>, ht: int, i: int, j: int)
    requires
        is_solution(s),
        0 <= ht < 3,
        0 <= i < 81,
        0 <= j < 81,
        i != j,
        house_of(ht, i) == house_of(ht, j),
    ensures
        s[i] != s[j],
{
    lemma_house_of(ht, i);
    lemma_house_of(ht, j);
    let h = house_of(ht, i);
    if s[i] == s[j] {
        let d = s[i] as int;
        assert(once_in_house(s, ht, h, d));
        let p = choose|p: int|
            0 <= p < 9 && s[cell_of(ht, h, p)] == d && forall|q: int|
                0 <= q < 9 && #[trigger] s[cell_of(ht, h, q)] == d ==> q == p;
        assert(s[cell_of(ht, h, pos_in(ht, i))] == d);
        assert(s[cell_of(ht, h, pos_in(ht, j))] == d);
    }
}

/// A grid with a clash has no solution.
pub proof fn lemma_clash_unsolvable(b: Seq<u8>)
    requires
        !consistent(b),
    ensures
        !solvable(b),
{
    if solvable(b) {
        let s = choose|s: Seq<u8>| #[trigger] is_solution(s) && extends(s, b);
        let (ht, i, j) = choose|ht: int, i: int, j: int|
            0 <= ht < 3 && 0 <= i < 81 && 0 <= j < 81 && i != j && #[trigger] house_of(ht, i)
                == #[trigger] house_of(ht, j) && b[i] != 0 && b[i] == b[j];
        assert(s[i] == b[i] && s[j] == b[j]);
        lemma_solution_distinct(s, ht, i, j);
    }
}

/// The digit that a solution puts into an empty cell is legal there.
pub proof fn lemma_solution_digit_legal(b: Seq<u8>, s: Seq<u8>, idx: int)
    requires
        is_solution(s),
        extends(s, b),
        0 <= idx < 81,
        b[idx] == 0,
    ensures
        legal(b, idx, s[idx] as int),
{
    let d = s[idx] as int;
    assert(1 <= s[idx] <= 9);
    assert forall|ht: int| 0 <= ht < 3 implies !house_has(b, ht, house_of(ht, idx), d) by {
        if house_has(b, ht, house_of(ht, idx), d) {
            let j = choose|j: int| 0 <= j < 81 && #[trigger] house_of(ht, j) == house_of(ht, idx) && b[j] == d;
            assert(s[j] == b[j]);
            lemma_solution_distinct(s, ht, idx, j);
        }
    }
}

/// A solution puts every missing digit of a house at a position where it is
/// legal.
pub proof fn lemma_solution_fills_slot(b: Seq<u8>, s: Seq<u8>, ht: int, hi: int, v: int)
    requires
        is_solution(s),
        extends(s, b),
        open_slot(b, ht, hi, v),
    ensures
        exists|p: int|
            0 <= p < 9 && #[trigger] legal(b, cell_of(ht, hi, p), v + 1) && s[cell_of(ht, hi, p)] == v + 1,
{
    assert(once_in_house(s, ht, hi, v + 1));
    let p = choose|p: int|
        0 <= p < 9 && s[cell_of(ht, hi, p)] == v + 1 && forall|q: int|
            0 <= q < 9 && #[trigger] s[cell_of(ht, hi, q)] == v + 1 ==> q == p;
    let q = cell_of(ht, hi, p);
    lemma_cell_of(ht, hi, p);
    if b[q] != 0 {
        assert(s[q] == b[q]);
        assert(house_has(b, ht, hi, v + 1));
    }
    lemma_solution_digit_legal(b, s, q);
}

/// A grid with a decision point that has no option left has no solution.
pub proof fn lemma_dead_unsolvable(b: Seq<u8>)
    requires
        dead_point(b),
    ensures
        !solvable(b),
{
    if solvable(b) {
        let s = choose|s: Seq<u8>| #[trigger] is_solution(s) && extends(s, b);
        if exists|i: int| #[trigger] free_cell(b, i) && cell_weight(b, i) == 0 {
            let i = choose|i: int| #[trigger] free_cell(b, i) && cell_weight(b, i) == 0;
            lemma_solution_digit_legal(b, s, i);
            let f = |v: int| legal(b, i, v + 1);
            lemma_count_true(9, f, f);
            assert(f(s[i] - 1));
        } else {
            let (ht, hi, v) = choose|ht: int, hi: int, v: int|
                #[trigger] open_slot(b, ht, hi, v) && slot_weight(b, ht, hi, v) == 0;
            lemma_solution_fills_slot(b, s, ht, hi, v);
            let p = choose|p: int|
                0 <= p < 9 && #[trigger] legal(b, cell_of(ht, hi, p), v + 1) && s[cell_of(ht, hi, p)] == v + 1;
            let f = |p: int| legal(b, cell_of(ht, hi, p), v + 1);
            lemma_count_true(9, f, f);
            assert(f(p));
        }
    }
}

/// A clash-free grid with no free cell and no missing digit is a solution.
pub proof fn lemma_complete_is_solution(b: Seq<u8>)
    requires
        valid_cells(b),
        consistent(b),
        complete(b),
    ensures
        is_solution(b),
{
    assert forall|i: int| 0 <= i < 81 implies 1 <= #[trigger] b[i] <= 9 by {
        assert(!free_cell(b, i));
    }
    assert forall|ht: int, hi: int, d: int| 0 <= ht < 3 && 0 <= hi < 9 && 1 <= d <= 9 implies #[trigger] once_in_house(b, ht, hi, d) by {
        assert(!open_slot(b, ht, hi, d - 1));
        let idx = choose|i: int| 0 <= i < 81 && #[trigger] house_of(ht, i) == hi && b[i] == d;
        lemma_house_of(ht, idx);
        let p = pos_in(ht, idx);
        assert forall|q: int| 0 <= q < 9 && #[trigger] b[cell_of(ht, hi, q)] == d implies q == p by {
            lemma_cell_of(ht, hi, q);
            if cell_of(ht, hi, q) != idx {
                assert(house_of(ht, cell_of(ht, hi, q)) == house_of(ht, idx));
            }
        }
        assert(b[cell_of(ht, hi, p)] == d);
    }
}


/// The first empty cell at or after `k`, or 81 when there is none.
pub open spec fn first_zero(b: Seq<u8>, k: int) -> int
    decreases 81 - k,
{
    if k < 0 || k >= 81 {
        81
    } else if b[k] == 0 {
        k
    } else {
        first_zero(b, k + 1)
    }
}

/// `first_zero` finds an empty cell, and no empty cell comes before it.
pub proof fn lemma_first_zero(b: Seq<u8>, k: int)
    requires
        0 <= k <= 81,
    ensures
        k <= first_zero(b, k) <= 81,
        first_zero(b, k) < 81 ==> b[first_zero(b, k)] == 0,
        forall|j: int| k <= j < first_zero(b, k) ==> b[j] != 0,
    decreases 81 - k,
{
    if k < 81 && b[k] != 0 {
        lemma_first_zero(b, k + 1);
    }
}

/// A grid with an empty cell has at least one empty cell to count.
pub proof fn lemma_count_free_positive(b: Seq<u8>, i: int)
    requires
        0 <= i < b.len(),
        b[i] == 0,
    ensures
        count_free(b) >= 1,
{
    lemma_count_free_update(b, i, 1u8);
}


/// The decision points in the order the selector scans them: cells 0..81,
/// then for each house type `t` the slots `id` in 0..81, at `81 + t * 81 + id`.
/// This is the number of options of point `k`, or 10 where `k` is no open
/// point.
pub open spec fn point_weight(b: Seq<u8>, k: int) -> int {
    if 0 <= k < 81 {
        if free_cell(b, k) {
            cell_weight(b, k) as int
        } else {
            10
        }
    } else if 81 <= k < 324 {
        let t = (k - 81) / 81;
        let id = (k - 81) % 81;
        if open_slot(b, t, id / 9, id % 9) {
            slot_weight(b, t, id / 9, id % 9) as int
        } else {
            10
        }
    } else {
        10
    }
}

/// The first point of least weight among the first `n` points of the scan,
/// or -1 when none of them is open.
pub open spec fn first_best(b: Seq<u8>, n: int) -> int
    decreases n,
{
    if n <= 0 {
        -1
    } else {
        let p = first_best(b, n - 1);
        let w = if p < 0 {
            10
        } else {
            point_weight(b, p)
        };
        if point_weight(b, n - 1) < w {
            n - 1
        } else {
            p
        }
    }
}

/// Slot `id` of house type `t` stands at `81 + t * 81 + id` in the scan.
pub proof fn lemma_slot_point(t: int, id: int)
    requires
        0 <= t < 3,
        0 <= id < 81,
    ensures
        81 <= 81 + t * 81 + id < 324,
        (81 + t * 81 + id - 81) / 81 == t,
        (81 + t * 81 + id - 81) % 81 == id,
{
    assert((t * 81 + id) / 81 == t && (t * 81 + id) % 81 == id) by (nonlinear_arith)
        requires
            0 <= t < 3,
            0 <= id < 81,
    ;
}

} // verus!
