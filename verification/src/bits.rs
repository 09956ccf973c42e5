//! Bitboard primitives: membership of a square in a 64-bit set, and the
//! facts about `&`, `|`, `!`, shifts and the lowest set bit that the rest of
//! the library reasons with.
use vstd::prelude::*;
use vstd::std_specs::bits::u64_trailing_zeros;

verus! {

/// Square `i` is a member of the bitboard `b`.
pub open spec fn sq_in(b: u64, i: int) -> bool {
    0 <= i < 64 && (b >> (i as u64)) & 1u64 == 1u64
}

/// The bitboard holding exactly square `i`.
pub open spec fn sq_bb(i: int) -> u64 {
    1u64 << (i as u64)
}

/// Index of the lowest set bit; 64 for the empty bitboard.
pub open spec fn lowest(b: u64) -> int {
    u64_trailing_zeros(b) as int
}

/// `b` with its lowest set bit removed.
pub open spec fn pop_lowest(b: u64) -> u64 {
    b & ((b - 1u64) as u64)
}

/// Bit `j` of `|`, `&`, `!`, `^`, a single bit and zero.
proof fn lemma_bit_of(a: u64, b: u64, j: u64)
    by (bit_vector)
    requires
        j < 64,
    ensures
        ((a | b) >> j) & 1u64 == 1u64 <==> ((a >> j) & 1u64 == 1u64 || (b >> j) & 1u64 == 1u64),
        ((a & b) >> j) & 1u64 == 1u64 <==> ((a >> j) & 1u64 == 1u64 && (b >> j) & 1u64 == 1u64),
        ((!a) >> j) & 1u64 == 1u64 <==> !((a >> j) & 1u64 == 1u64),
        b < 64 ==> ((((1u64 << b) >> j) & 1u64 == 1u64) <==> j == b),
        (0u64 >> j) & 1u64 != 1u64,
        ((a ^ b) >> j) & 1u64 == 1u64 ==> (((a >> j) & 1u64 == 1u64) != ((b >> j) & 1u64 == 1u64)),
        a != b ==> a ^ b != 0u64,
{
}

/// Facts about clearing the lowest set bit `t` of `a`.
proof fn lemma_low_bits(a: u64, t: u64, j: u64)
    by (bit_vector)
    requires
        t < 64,
        j < 64,
    ensures
        (1u64 << t) >= 1u64,
        ((((((1u64 << t) - 1u64) as u64) >> j) & 1u64 == 1u64) <==> j < t),
        a != 0u64 ==> (a & ((a - 1u64) as u64)) < a,
        (a >> t) & 1u64 == 1u64 && a & ((((1u64 << t) - 1u64) as u64)) == 0u64 ==> ((((a & ((a
            - 1u64) as u64)) >> j) & 1u64 == 1u64) <==> ((a >> j) & 1u64 == 1u64 && j != t)),
{
}

/// Identities of `|` and `&` with zero, commutation and masks.
pub proof fn lemma_bit_basics(x: u64, y: u64, z: u64)
    by (bit_vector)
    ensures
        x | 0u64 == x,
        0u64 | x == x,
        0u64 & x == 0u64,
        x & 0u64 == 0u64,
        x & y == y & x,
        x | y == y | x,
        (x | y) | z == x | (y | z),
        (x & y) & y == x & y,
        x & y == x ==> x <= y,
        x & !0u64 == x,
{
}

pub broadcast proof fn lemma_sq_in_or(a: u64, b: u64, i: int)
    ensures
        #[trigger] sq_in(a | b, i) == (sq_in(a, i) || sq_in(b, i)),
{
    if 0 <= i < 64 {
        lemma_bit_of(a, b, i as u64);
    }
}

pub broadcast proof fn lemma_sq_in_and(a: u64, b: u64, i: int)
    ensures
        #[trigger] sq_in(a & b, i) == (sq_in(a, i) && sq_in(b, i)),
{
    if 0 <= i < 64 {
        lemma_bit_of(a, b, i as u64);
    }
}

pub broadcast proof fn lemma_sq_in_not(a: u64, i: int)
    ensures
        #[trigger] sq_in(!a, i) == (0 <= i < 64 && !sq_in(a, i)),
{
    if 0 <= i < 64 {
        lemma_bit_of(a, a, i as u64);
    }
}

pub broadcast proof fn lemma_sq_in_sq_bb(j: int, i: int)
    requires
        0 <= j < 64,
    ensures
        #[trigger] sq_in(sq_bb(j), i) == (i == j),
{
    if 0 <= i < 64 {
        lemma_bit_of(0, j as u64, i as u64);
    }
}

pub broadcast proof fn lemma_sq_in_zero(i: int)
    ensures
        !#[trigger] sq_in(0u64, i),
{
    if 0 <= i < 64 {
        lemma_bit_of(0, 0, i as u64);
    }
}

/// Two bitboards with the same squares are equal.
pub proof fn lemma_bb_ext(a: u64, b: u64)
    requires
        forall|i: int| 0 <= i < 64 ==> sq_in(a, i) == sq_in(b, i),
    ensures
        a == b,
{
    if a != b {
        lemma_bit_of(a, b, 0);
        lemma_nonzero_has(a ^ b);
        let j = lowest(a ^ b) as u64;
        lemma_bit_of(a, b, j);
        assert(sq_in(a, j as int) == sq_in(b, j as int));
    }
}

/// A nonzero bitboard has a member; its lowest member is `lowest`.
pub proof fn lemma_nonzero_has(a: u64)
    requires
        a != 0,
    ensures
        sq_in(a, lowest(a)),
        0 <= lowest(a) < 64,
        forall|i: int| 0 <= i < lowest(a) ==> !sq_in(a, i),
{
    vstd::std_specs::bits::axiom_u64_trailing_zeros(a);
    assert forall|i: int| 0 <= i < lowest(a) implies !sq_in(a, i) by {
        let j = i as u64;
        assert((a >> j) & 1u64 == 0u64);
    }
}

/// `a & b` is empty exactly when the two bitboards share no square.
pub proof fn lemma_and_zero(a: u64, b: u64)
    ensures
        (a & b == 0) <==> (forall|i: int| 0 <= i < 64 ==> !(sq_in(a, i) && sq_in(b, i))),
{
    broadcast use lemma_sq_in_and, lemma_sq_in_zero;

    if a & b != 0 {
        lemma_nonzero_has(a & b);
        assert(sq_in(a & b, lowest(a & b)));
    } else {
        assert forall|i: int| 0 <= i < 64 implies !(sq_in(a, i) && sq_in(b, i)) by {
            assert(sq_in(a & b, i) == (sq_in(a, i) && sq_in(b, i)));
        }
    }
}

/// Removing the lowest bit removes exactly that square, and makes the value smaller.
pub proof fn lemma_pop_lowest(a: u64)
    requires
        a != 0,
    ensures
        pop_lowest(a) < a,
        forall|i: int| #[trigger] sq_in(pop_lowest(a), i) == (sq_in(a, i) && i != lowest(a)),
{
    broadcast use lemma_sq_in_and, lemma_sq_in_zero;

    lemma_nonzero_has(a);
    let t = lowest(a) as u64;
    let m: u64 = ((1u64 << t) - 1u64) as u64;
    lemma_low_bits(a, t, 0);
    assert forall|i: int| 0 <= i < 64 implies sq_in(a & m, i) == sq_in(0u64, i) by {
        lemma_low_bits(a, t, i as u64);
    }
    lemma_bb_ext(a & m, 0u64);
    assert forall|i: int| #[trigger] sq_in(pop_lowest(a), i) == (sq_in(a, i) && i != lowest(a)) by {
        if 0 <= i < 64 {
            lemma_low_bits(a, t, i as u64);
        }
    }
}

pub broadcast group group_bits {
    lemma_sq_in_or,
    lemma_sq_in_and,
    lemma_sq_in_not,
    lemma_sq_in_sq_bb,
    lemma_sq_in_zero,
}

} // verus!
