//! Single-bit views of the machine words that hold the board's masks.
use vstd::prelude::*;

verus! {

/// The nine low bits set: every digit, or every position of a house.
pub const ALL9: u16 = 0x1FF;

/// The 81 low bits set: every cell, or every slot of one house type.
pub const ALL81: u128 = 0x1FFFFFFFFFFFFFFFFFFFF;

/// Bit `i` of a 16-bit mask.
pub open spec fn bit16(m: u16, i: int) -> bool {
    (m >> (i as u16)) & 1u16 == 1u16
}

/// Bit `i` of a 128-bit mask.
pub open spec fn bit128(m: u128, i: int) -> bool {
    (m >> (i as u128)) & 1u128 == 1u128
}

/// The 16-bit mask with bit `i` alone.
pub open spec fn flag16(i: int) -> u16 {
    1u16 << (i as u16)
}

/// The 128-bit mask with bit `i` alone.
pub open spec fn flag128(i: int) -> u128 {
    1u128 << (i as u128)
}

/// Toggling bit `i` flips bit `i` and keeps every other bit.
pub proof fn lemma_toggle16(m: u16, i: int, j: int)
    requires
        0 <= i < 16,
        0 <= j < 16,
    ensures
        bit16(m ^ flag16(i), j) == (bit16(m, j) != (i == j)),
{
    let (a, b) = (i as u16, j as u16);
    assert(bit16(m ^ (1u16 << a), b as int) == (bit16(m, b as int) != (a == b))) by (bit_vector)
        requires
            a < 16,
            b < 16,
    ;
}

/// Toggling bit `i` flips bit `i` and keeps every other bit.
pub proof fn lemma_toggle128(m: u128, i: int, j: int)
    requires
        0 <= i < 128,
        0 <= j < 128,
    ensures
        bit128(m ^ flag128(i), j) == (bit128(m, j) != (i == j)),
{
    let (a, b) = (i as u128, j as u128);
    assert(bit128(m ^ (1u128 << a), b as int) == (bit128(m, b as int) != (a == b))) by (bit_vector)
        requires
            a < 128,
            b < 128,
    ;
}

/// Toggling one of the nine low bits keeps a mask within them; toggling the
/// same bit twice gives the mask back.
pub proof fn lemma_toggle16_facts(m: u16, i: int)
    requires
        0 <= i < 9,
    ensures
        m <= ALL9 ==> m ^ flag16(i) <= ALL9,
        (m ^ flag16(i)) ^ flag16(i) == m,
{
    let a = i as u16;
    assert((m <= 0x1FF ==> m ^ (1u16 << a) <= 0x1FF) && (m ^ (1u16 << a)) ^ (1u16 << a) == m)
        by (bit_vector)
        requires
            a < 9,
    ;
}

/// Toggling one of the 81 low bits keeps a mask within them; toggling the
/// same bit twice gives the mask back.
pub proof fn lemma_toggle128_facts(m: u128, i: int)
    requires
        0 <= i < 81,
    ensures
        m <= ALL81 ==> m ^ flag128(i) <= ALL81,
        (m ^ flag128(i)) ^ flag128(i) == m,
{
    let a = i as u128;
    assert((m <= 0x1FFFFFFFFFFFFFFFFFFFF ==> m ^ (1u128 << a) <= 0x1FFFFFFFFFFFFFFFFFFFF) && (m ^ (
    1u128 << a)) ^ (1u128 << a) == m) by (bit_vector)
        requires
            a < 81,
    ;
}

/// The full masks have every one of their low bits set.
pub proof fn lemma_all_set(i: int)
    ensures
        0 <= i < 9 ==> bit16(ALL9, i),
        0 <= i < 81 ==> bit128(ALL81, i),
{
    if 0 <= i < 9 {
        let a = i as u16;
        assert(bit16(0x1FFu16, a as int)) by (bit_vector)
            requires
                a < 9,
        ;
    }
    if 0 <= i < 81 {
        let a = i as u128;
        assert(bit128(0x1FFFFFFFFFFFFFFFFFFFFu128, a as int)) by (bit_vector)
            requires
                a < 81,
        ;
    }
}

/// The empty mask has no bit set.
pub proof fn lemma_zero16(i: int)
    requires
        0 <= i < 16,
    ensures
        !bit16(0u16, i),
{
    let a = i as u16;
    assert(!bit16(0u16, a as int)) by (bit_vector)
        requires
            a < 16,
    ;
}

/// A bit of an intersection is set where it is set in both masks.
pub proof fn lemma_and16(x: u16, y: u16, i: int)
    requires
        0 <= i < 16,
    ensures
        bit16(x & y, i) == (bit16(x, i) && bit16(y, i)),
        x & y <= x,
{
    let a = i as u16;
    assert(bit16(x & y, a as int) == (bit16(x, a as int) && bit16(y, a as int)) && x & y <= x)
        by (bit_vector)
        requires
            a < 16,
    ;
}


/// How many of `f(0)`, ..., `f(n - 1)` hold.
pub open spec fn count_true(n: nat, f: spec_fn(int) -> bool) -> nat
    decreases n,
{
    if n == 0 {
        0
    } else {
        count_true((n - 1) as nat, f) + if f(n - 1) {
            1nat
        } else {
            0nat
        }
    }
}

/// The number of set bits among the nine low bits.
pub open spec fn popcount9(m: u16) -> nat {
    count_true(9, |i: int| bit16(m, i))
}

/// Counts agree for predicates that agree below `n`; a count is at most `n`,
/// and it is zero exactly when no predicate value below `n` holds.
pub proof fn lemma_count_true(n: nat, f: spec_fn(int) -> bool, g: spec_fn(int) -> bool)
    ensures
        (forall|i: int| 0 <= i < n ==> #[trigger] f(i) == g(i)) ==> count_true(n, f) == count_true(n, g),
        count_true(n, f) <= n,
        count_true(n, f) == 0 <==> forall|i: int| 0 <= i < n ==> !#[trigger] f(i),
    decreases n,
{
    if n > 0 {
        lemma_count_true((n - 1) as nat, f, g);
    }
}

/// Counts the set bits among the nine low bits of `m`.
pub fn count_bits(m: u16) -> (r: u32)
    ensures
        r == popcount9(m),
        r <= 9,
{
    let mut r: u32 = 0;
    let mut i: u16 = 0;
    while i < 9
        invariant
            i <= 9,
            r == count_true(i as nat, |j: int| bit16(m, j)),
            r <= i,
        decreases 9 - i,
    {
        if (m >> i) & 1u16 == 1u16 {
            r = r + 1;
        }
        i = i + 1;
    }
    r
}

} // verus!
