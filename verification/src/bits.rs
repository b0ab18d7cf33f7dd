//! Bit-level model of the 128-bit boundary bitmap: single-word bit tests,
//! prefix popcounts, and the lemmas that track them across bit updates.

use vstd::prelude::*;

verus! {

/// True when bit `p` of `w` is set; positions outside `[0, 64)` count as clear.
pub open spec fn bit64(w: u64, p: int) -> bool {
    0 <= p < 64 && (w >> (p as u64)) & 1u64 == 1u64
}

/// Number of set bits of `w` at positions below `p`.
pub open spec fn pop_below(w: u64, p: int) -> nat
    decreases p,
{
    if p <= 0 {
        0
    } else {
        pop_below(w, p - 1) + (if bit64(w, p - 1) {
            1nat
        } else {
            0nat
        })
    }
}

/// Number of set bits of the whole word.
pub open spec fn popcount(w: u64) -> nat {
    pop_below(w, 64)
}

/// Prefix counts are monotone in the position.
pub proof fn lemma_pop_below_mono(w: u64, a: int, b: int)
    requires
        a <= b,
    ensures
        pop_below(w, a) <= pop_below(w, b),
    decreases b - a,
{
    if a < b {
        lemma_pop_below_mono(w, a, b - 1);
    }
}

/// Across a run of clear bits the prefix count stays flat.
pub proof fn lemma_pop_below_flat(w: u64, a: int, b: int)
    requires
        a <= b,
        forall|p: int| a <= p < b ==> !bit64(w, p),
    ensures
        pop_below(w, b) == pop_below(w, a),
    decreases b - a,
{
    if a < b {
        lemma_pop_below_flat(w, a, b - 1);
    }
}

/// Within one word a set bit is determined by its rank.
pub proof fn lemma_select64_unique(w: u64, p: int, q: int)
    requires
        bit64(w, p),
        bit64(w, q),
        pop_below(w, p) == pop_below(w, q),
    ensures
        p == q,
{
    if p < q {
        assert(pop_below(w, p + 1) == pop_below(w, p) + 1);
        lemma_pop_below_mono(w, p + 1, q);
    }
    if q < p {
        assert(pop_below(w, q + 1) == pop_below(w, q) + 1);
        lemma_pop_below_mono(w, q + 1, p);
    }
}

/// The all-zero word has no set bits and empty prefix counts.
pub proof fn lemma_zero_word()
    ensures
        forall|p: int| !bit64(0u64, p),
        forall|p: int| pop_below(0u64, p) == 0,
{
    assert forall|p: int| !bit64(0u64, p) by {
        if 0 <= p < 64 {
            let pu = p as u64;
            assert((0u64 >> pu) & 1u64 == 0u64) by (bit_vector);
        }
    }
    assert forall|p: int| pop_below(0u64, p) == 0 by {
        if p > 0 {
            lemma_pop_below_flat(0u64, 0, p);
        }
    }
}

/// Setting one bit leaves every other bit of the word as it was.
pub proof fn lemma_or_bit_effect(w: u64, q: u64)
    requires
        q < 64,
    ensures
        bit64(w | (1u64 << q), q as int),
        forall|p: int| p != q ==> bit64(w | (1u64 << q), p) == bit64(w, p),
{
    assert(((w | (1u64 << q)) >> q) & 1u64 == 1u64) by (bit_vector)
        requires
            q < 64,
    ;
    assert forall|p: int| p != q implies bit64(w | (1u64 << q), p) == bit64(w, p) by {
        if 0 <= p < 64 {
            let pu = p as u64;
            assert(((w | (1u64 << q)) >> pu) & 1u64 == (w >> pu) & 1u64) by (bit_vector)
                requires
                    pu < 64,
                    q < 64,
                    pu != q,
            ;
        }
    }
}

/// Setting one clear bit raises exactly the prefix counts past it, by one.
pub proof fn lemma_or_bit_pop_below(w: u64, q: u64, p: int)
    requires
        q < 64,
        !bit64(w, q as int),
    ensures
        pop_below(w | (1u64 << q), p) == pop_below(w, p) + (if q < p {
            1nat
        } else {
            0nat
        }),
    decreases p,
{
    lemma_or_bit_effect(w, q);
    if p > 0 {
        lemma_or_bit_pop_below(w, q, p - 1);
    }
}

/// True when position `p` of the 128-bit map `(h0, h1)` is set.
pub open spec fn bit128(h0: u64, h1: u64, p: int) -> bool {
    if p < 64 {
        bit64(h0, p)
    } else {
        bit64(h1, p - 64)
    }
}

/// Number of set positions of the map below `p`.
pub open spec fn pop128_below(h0: u64, h1: u64, p: int) -> nat {
    if p <= 64 {
        pop_below(h0, p)
    } else {
        pop_below(h0, 64) + pop_below(h1, p - 64)
    }
}

/// Number of set positions of the whole map.
pub open spec fn popcount128(h0: u64, h1: u64) -> nat {
    pop128_below(h0, h1, 128)
}

/// Across a run of clear positions the map's prefix count stays flat.
pub proof fn lemma_pop128_flat(h0: u64, h1: u64, a: int, b: int)
    requires
        a <= b,
        forall|p: int| a <= p < b ==> !bit128(h0, h1, p),
    ensures
        pop128_below(h0, h1, b) == pop128_below(h0, h1, a),
{
    if b <= 64 {
        assert forall|p: int| a <= p < b implies !bit64(h0, p) by {
            assert(!bit128(h0, h1, p));
        }
        lemma_pop_below_flat(h0, a, b);
    } else if a <= 64 {
        assert forall|p: int| a <= p < 64 implies !bit64(h0, p) by {
            assert(!bit128(h0, h1, p));
        }
        lemma_pop_below_flat(h0, a, 64);
        assert forall|p: int| 0 <= p < b - 64 implies !bit64(h1, p) by {
            assert(!bit128(h0, h1, p + 64));
        }
        lemma_pop_below_flat(h1, 0, b - 64);
    } else {
        assert forall|p: int| a - 64 <= p < b - 64 implies !bit64(h1, p) by {
            assert(!bit128(h0, h1, p + 64));
        }
        lemma_pop_below_flat(h1, a - 64, b - 64);
    }
}

/// Effect on the whole map of setting a clear bit in the low word.
pub proof fn lemma_set128_low(h0: u64, h1: u64, q: u64)
    requires
        q < 64,
        !bit64(h0, q as int),
    ensures
        bit128(h0 | (1u64 << q), h1, q as int),
        forall|p: int| p != q ==> bit128(h0 | (1u64 << q), h1, p) == bit128(h0, h1, p),
        forall|p: int| #[trigger] pop128_below(h0 | (1u64 << q), h1, p) == pop128_below(
            h0,
            h1,
            p,
        ) + (if q < p {
            1nat
        } else {
            0nat
        }),
{
    lemma_or_bit_effect(h0, q);
    assert forall|p: int| #[trigger] pop128_below(h0 | (1u64 << q), h1, p) == pop128_below(
        h0,
        h1,
        p,
    ) + (if q < p {
        1nat
    } else {
        0nat
    }) by {
        if p <= 64 {
            lemma_or_bit_pop_below(h0, q, p);
        } else {
            lemma_or_bit_pop_below(h0, q, 64);
        }
    }
}

/// Effect on the whole map of setting a clear bit in the high word; the bit
/// `qh` of the high word is position `64 + qh` of the map.
pub proof fn lemma_set128_high(h0: u64, h1: u64, qh: u64)
    requires
        qh < 64,
        !bit64(h1, qh as int),
    ensures
        bit128(h0, h1 | (1u64 << qh), 64 + qh as int),
        forall|p: int| p != 64 + qh ==> bit128(h0, h1 | (1u64 << qh), p) == bit128(h0, h1, p),
        forall|p: int| #[trigger] pop128_below(h0, h1 | (1u64 << qh), p) == pop128_below(
            h0,
            h1,
            p,
        ) + (if 64 + qh < p {
            1nat
        } else {
            0nat
        }),
{
    lemma_or_bit_effect(h1, qh);
    assert forall|p: int| #[trigger] pop128_below(h0, h1 | (1u64 << qh), p) == pop128_below(
        h0,
        h1,
        p,
    ) + (if 64 + qh < p {
        1nat
    } else {
        0nat
    }) by {
        if p > 64 {
            lemma_or_bit_pop_below(h1, qh, p - 64);
        }
    }
}

/// Counts the set bits of a word: the verified stand-in for a hardware
/// population count.
pub fn popcount_word(w: u64) -> (r: usize)
    ensures
        r == popcount(w),
{
    let mut r: usize = 0;
    let mut p: u64 = 0;
    while p < 64
        invariant
            p <= 64,
            r <= p,
            r == pop_below(w, p as int),
        decreases 64 - p,
    {
        let b = (w >> p) & 1;
        proof {
            assert((w >> p) & 1u64 <= 1u64) by (bit_vector);
        }
        r = r + b as usize;
        p = p + 1;
    }
    r
}

} // verus!
