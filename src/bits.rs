use vstd::prelude::*;

verus! {

/// Whether bitboard `bb` holds the square with index `s`.
pub open spec fn bit_set(bb: u64, s: int) -> bool {
    0 <= s < 64 && (bb >> (s as u64)) & 1u64 == 1u64
}

/// The bitboard that holds the square with index `s` alone.
pub open spec fn single(s: u8) -> u64 {
    1u64 << (s as u64)
}

proof fn lemma_bit_ops(x: u64, y: u64, t: u64, i: u64)
    by (bit_vector)
    requires
        t < 64,
        i < 64,
    ensures
        (((x & y) >> i) & 1u64 == 1u64) == ((x >> i) & 1u64 == 1u64 && (y >> i) & 1u64 == 1u64),
        (((x | y) >> i) & 1u64 == 1u64) == ((x >> i) & 1u64 == 1u64 || (y >> i) & 1u64 == 1u64),
        (((x & !y) >> i) & 1u64 == 1u64) == ((x >> i) & 1u64 == 1u64 && !((y >> i) & 1u64
            == 1u64)),
        (((1u64 << t) >> i) & 1u64 == 1u64) == (i == t),
        !(((0u64 >> i) & 1u64) == 1u64),
{
}

/// What each bitwise operation does to the squares a bitboard holds.
pub proof fn lemma_has_ops(x: u64, y: u64)
    ensures
        forall|i: int| #[trigger] bit_set(x & y, i) == (bit_set(x, i) && bit_set(y, i)),
        forall|i: int| #[trigger] bit_set(x | y, i) == (bit_set(x, i) || bit_set(y, i)),
        forall|i: int| #[trigger] bit_set(x & !y, i) == (bit_set(x, i) && !bit_set(y, i)),
        forall|i: int| !#[trigger] bit_set(0u64, i),
{
    assert forall|i: int| #[trigger] bit_set(x & y, i) == (bit_set(x, i) && bit_set(y, i)) by {
        if 0 <= i < 64 {
            lemma_bit_ops(x, y, 0, i as u64);
        }
    }
    assert forall|i: int| #[trigger] bit_set(x | y, i) == (bit_set(x, i) || bit_set(y, i)) by {
        if 0 <= i < 64 {
            lemma_bit_ops(x, y, 0, i as u64);
        }
    }
    assert forall|i: int| #[trigger] bit_set(x & !y, i) == (bit_set(x, i) && !bit_set(y, i)) by {
        if 0 <= i < 64 {
            lemma_bit_ops(x, y, 0, i as u64);
        }
    }
    assert forall|i: int| !#[trigger] bit_set(0u64, i) by {
        if 0 <= i < 64 {
            lemma_bit_ops(x, y, 0, i as u64);
        }
    }
}

/// A one-square bitboard holds its square and nothing else.
pub proof fn lemma_has_single(t: u8)
    requires
        t < 64,
    ensures
        forall|i: int| #[trigger] bit_set(single(t), i) == (i == t),
{
    assert forall|i: int| #[trigger] bit_set(single(t), i) == (i == t) by {
        if 0 <= i < 64 {
            lemma_bit_ops(0, 0, t as u64, i as u64);
        }
    }
}

proof fn lemma_shift_step(x: u64, y: u64, k: u64)
    by (bit_vector)
    requires
        k < 63,
        x >> (k + 1) == y >> (k + 1),
        ((x >> k) & 1u64 == 1u64) == ((y >> k) & 1u64 == 1u64),
    ensures
        x >> k == y >> k,
{
}

proof fn lemma_top_bit(x: u64, y: u64)
    by (bit_vector)
    requires
        ((x >> 63u64) & 1u64 == 1u64) == ((y >> 63u64) & 1u64 == 1u64),
    ensures
        x >> 63u64 == y >> 63u64,
{
}

proof fn lemma_no_shift(x: u64)
    by (bit_vector)
    ensures
        x >> 0u64 == x,
{
}

proof fn lemma_high_bits_equal(x: u64, y: u64, k: u64)
    requires
        k < 64,
        forall|i: int| #[trigger] bit_set(x, i) == bit_set(y, i),
    ensures
        x >> k == y >> k,
    decreases 63 - k,
{
    assert(bit_set(x, k as int) == bit_set(y, k as int));
    if k == 63 {
        lemma_top_bit(x, y);
    } else {
        lemma_high_bits_equal(x, y, (k + 1) as u64);
        lemma_shift_step(x, y, k);
    }
}

/// Two bitboards that hold the same squares are equal.
pub proof fn lemma_bits_ext(x: u64, y: u64)
    requires
        forall|i: int| #[trigger] bit_set(x, i) == bit_set(y, i),
    ensures
        x == y,
{
    lemma_high_bits_equal(x, y, 0);
    lemma_no_shift(x);
    lemma_no_shift(y);
}

/// Whether bitboard `bb` holds the square with index `s`; indices from 64 up are never held.
pub fn contains(bb: u64, s: u8) -> (r: bool)
    ensures
        r == bit_set(bb, s as int),
{
    s < 64 && (bb >> (s as u64)) & 1u64 == 1u64
}

/// The bitboard of square `s` alone.
pub fn square_bit(s: u8) -> (r: u64)
    requires
        s < 64,
    ensures
        r == single(s),
        forall|i: int| #[trigger] bit_set(r, i) == (i == s),
{
    proof {
        lemma_has_single(s);
    }
    1u64 << (s as u64)
}

/// `x` with square `s` set when `on` holds, cleared otherwise.
pub fn put(x: u64, on: bool, s: u8) -> (r: u64)
    requires
        s < 64,
    ensures
        r == (if on { x | single(s) } else { x & !single(s) }),
        forall|i: int| #[trigger] bit_set(r, i) == (if i == s { on } else { bit_set(x, i) }),
{
    let m = square_bit(s);
    proof {
        lemma_has_ops(x, m);
    }
    if on {
        x | m
    } else {
        x & !m
    }
}

} // verus!
