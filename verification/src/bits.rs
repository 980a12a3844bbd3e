//! Words as sets of bit positions: the vocabulary in which boards and position masks are described.

use vstd::prelude::*;

verus! {

/// Bit `i` of the word `m`. Positions outside `0..64` hold no bit.
#[verifier::opaque]
pub open spec fn bit(m: u64, i: int) -> bool {
    0 <= i < 64 && (m >> (i as u64)) & 1 == 1
}

/// The word whose bits below `n` are those positions `i` with `f(i)`.
pub open spec fn from_bits(f: spec_fn(int) -> bool, n: nat) -> u64
    decreases n,
{
    if n == 0 {
        0
    } else if f(n - 1) {
        from_bits(f, (n - 1) as nat) | (1u64 << ((n - 1) as u64))
    } else {
        from_bits(f, (n - 1) as nat)
    }
}

pub broadcast proof fn lemma_bit_range(m: u64, i: int)
    ensures
        #[trigger] bit(m, i) ==> 0 <= i < 64,
{
    reveal(bit);
}

pub broadcast proof fn lemma_bit_zero(i: int)
    ensures
        !#[trigger] bit(0, i),
{
    reveal(bit);
    let k: u64 = i as u64;
    assert((0u64 >> k) & 1 != 1) by (bit_vector);
}

pub broadcast proof fn lemma_bit_and(a: u64, b: u64, i: int)
    ensures
        #[trigger] bit(a & b, i) == (bit(a, i) && bit(b, i)),
{
    reveal(bit);
    let k: u64 = i as u64;
    assert((((a & b) >> k) & 1 == 1) == ((a >> k) & 1 == 1 && (b >> k) & 1 == 1)) by (bit_vector);
}

pub broadcast proof fn lemma_bit_or(a: u64, b: u64, i: int)
    ensures
        #[trigger] bit(a | b, i) == (bit(a, i) || bit(b, i)),
{
    reveal(bit);
    let k: u64 = i as u64;
    assert((((a | b) >> k) & 1 == 1) == ((a >> k) & 1 == 1 || (b >> k) & 1 == 1)) by (bit_vector);
}

pub broadcast proof fn lemma_bit_not(a: u64, i: int)
    ensures
        #[trigger] bit(!a, i) == (0 <= i < 64 && !bit(a, i)),
{
    reveal(bit);
    if 0 <= i < 64 {
        let k: u64 = i as u64;
        assert(((!a >> k) & 1 == 1) == !((a >> k) & 1 == 1)) by (bit_vector)
            requires
                k < 64,
        ;
    }
}

pub broadcast proof fn lemma_bit_shl(a: u64, s: u64, i: int)
    requires
        s < 64,
    ensures
        #[trigger] bit(a << s, i) == (i < 64 && bit(a, i - s)),
{
    reveal(bit);
    if 0 <= i < 64 {
        let k: u64 = i as u64;
        if k >= s {
            let d: u64 = (k - s) as u64;
            assert((((a << s) >> k) & 1 == 1) == ((a >> d) & 1 == 1)) by (bit_vector)
                requires
                    s <= k < 64,
                    d == k - s,
            ;
        } else {
            assert(((a << s) >> k) & 1 != 1) by (bit_vector)
                requires
                    k < s < 64,
            ;
        }
    }
}

pub broadcast proof fn lemma_bit_shr(a: u64, s: u64, i: int)
    requires
        s < 64,
    ensures
        #[trigger] bit(a >> s, i) == (0 <= i && bit(a, i + s)),
{
    reveal(bit);
    if 0 <= i < 64 {
        let k: u64 = i as u64;
        let d: u64 = (k + s) as u64;
        assert((((a >> s) >> k) & 1 == 1) == (d < 64 && (a >> d) & 1 == 1)) by (bit_vector)
            requires
                s < 64,
                k < 64,
                d == k + s,
        ;
    }
}

pub proof fn lemma_bit_one(s: u64, i: int)
    requires
        s < 64,
    ensures
        bit(1u64 << s, i) == (i == s),
{
    lemma_bit_shl(1, s, i);
    reveal(bit);
    if 0 <= i - s < 64 {
        let k: u64 = (i - s) as u64;
        assert(((1u64 >> k) & 1 == 1) == (k == 0)) by (bit_vector)
            requires
                k < 64,
        ;
    }
}

/// Bits 0 to 9 are the ones below 1024.
pub proof fn lemma_bit_low_ten(i: int)
    ensures
        bit(1023, i) == (0 <= i < 10),
{
    reveal(bit);
    if 0 <= i < 64 {
        let k: u64 = i as u64;
        assert(((1023u64 >> k) & 1 == 1) == (k < 10)) by (bit_vector)
            requires
                k < 64,
        ;
    }
}

pub broadcast group group_bits {
    lemma_bit_range,
    lemma_bit_zero,
    lemma_bit_and,
    lemma_bit_or,
    lemma_bit_not,
    lemma_bit_shl,
    lemma_bit_shr,
}

/// A nonzero word has a bit.
pub proof fn lemma_some_bit(a: u64) -> (i: int)
    requires
        a != 0,
    ensures
        bit(a, i),
{
    let k = lemma_some_bit_below(a, 64);
    reveal(bit);
    k as int
}

proof fn lemma_some_bit_below(a: u64, hi: u64) -> (k: u64)
    requires
        a != 0,
        hi <= 64,
        hi < 64 ==> a >> hi == 0,
    ensures
        k < 64,
        (a >> k) & 1 == 1,
    decreases hi,
{
    if hi == 0 {
        assert(a == 0) by (bit_vector)
            requires
                a >> 0u64 == 0,
        ;
        0
    } else {
        let t: u64 = (hi - 1) as u64;
        if (a >> t) & 1 == 1 {
            t
        } else {
            assert(a >> t == 0) by (bit_vector)
                requires
                    (a >> t) & 1 != 1,
                    t == hi - 1,
                    0 < hi <= 64,
                    hi < 64 ==> a >> hi == 0,
            ;
            lemma_some_bit_below(a, t)
        }
    }
}

/// Two words with the same bits are the same word.
pub proof fn lemma_bits_equal(a: u64, b: u64)
    requires
        forall|i: int| 0 <= i < 64 ==> bit(a, i) == bit(b, i),
    ensures
        a == b,
{
    broadcast use group_bits;

    if a != b {
        let d: u64 = (a & !b) | (b & !a);
        assert(d != 0) by (bit_vector)
            requires
                d == (a & !b) | (b & !a),
                a != b,
        ;
        let i = lemma_some_bit(d);
        assert(bit(a, i) == bit(b, i));
    }
}

pub proof fn lemma_from_bits(f: spec_fn(int) -> bool, n: nat, i: int)
    requires
        n <= 64,
    ensures
        bit(from_bits(f, n), i) == (0 <= i < n && f(i)),
    decreases n,
{
    broadcast use group_bits;

    if n > 0 {
        lemma_from_bits(f, (n - 1) as nat, i);
        lemma_bit_one((n - 1) as u64, i);
    }
}

/// A word is below `1 << n` exactly when it has no bit from `n` on.
pub proof fn lemma_bits_below(a: u64, n: u64)
    requires
        n < 64,
    ensures
        (a < 1u64 << n) == (forall|i: int| n <= i ==> !bit(a, i)),
        (a < 1u64 << n) == (a >> n == 0),
{
    broadcast use group_bits;

    assert((a < 1u64 << n) == (a >> n == 0)) by (bit_vector)
        requires
            n < 64,
    ;
    if a >> n == 0 {
        assert forall|i: int| n <= i implies !bit(a, i) by {
            lemma_bit_shr(a, n, i - n);
        }
    } else {
        let i = lemma_some_bit(a >> n);
        assert(bit(a, i + n));
    }
}

/// Clearing the lowest bit.
pub proof fn lemma_clear_lowest(m: u64, p: u64, i: int)
    requires
        p < 64,
        bit(m, p as int),
        forall|j: int| 0 <= j < p ==> !bit(m, j),
    ensures
        m != 0,
        bit(m & ((m - 1) as u64), i) == (bit(m, i) && i != p),
{
    reveal(bit);
    assert(m != 0) by (bit_vector)
        requires
            (m >> p) & 1 == 1,
    ;
    let pow: u64 = 1u64 << p;
    assert(pow > 0) by (bit_vector)
        requires
            pow == 1u64 << p,
            p < 64,
    ;
    let mask: u64 = (pow - 1) as u64;
    let low: u64 = m & mask;
    assert(low == 0) by {
        if low != 0 {
            let j = lemma_some_bit(low);
            lemma_bit_and(m, mask, j);
            let k: u64 = j as u64;
            assert(k < p) by (bit_vector)
                requires
                    (mask >> k) & 1 == 1,
                    pow == 1u64 << p,
                    mask == pow - 1,
                    k < 64,
                    p < 64,
            ;
            assert(bit(m, j));
            assert(false);
        }
    }
    if 0 <= i < 64 {
        let k: u64 = i as u64;
        let m1: u64 = (m - 1) as u64;
        assert((((m & m1) >> k) & 1 == 1) == ((m >> k) & 1 == 1 && k != p)) by (bit_vector)
            requires
                p < 64,
                k < 64,
                (m >> p) & 1 == 1,
                pow == 1u64 << p,
                mask == pow - 1,
                m1 == m - 1,
                m & mask == 0,
        ;
    }
}

/// Word `r` grows to `r | x`.
pub proof fn lemma_or_grows(r: u64, x: u64)
    ensures
        r | x >= r,
{
    assert(r | x >= r) by (bit_vector);
}

} // verus!
