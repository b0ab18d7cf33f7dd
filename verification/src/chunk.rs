//! The chunk codec: one 64-byte record packing up to 44 sorted 40-bit values
//! whose span is at most 21504, decodable with a single popcount and select.

use vstd::prelude::*;

verus! {

use crate::bits::bit128;
use crate::bits::bit64;
use crate::bits::lemma_pop128_flat;
use crate::bits::lemma_pop_below_mono;
use crate::bits::lemma_select64_unique;
use crate::bits::lemma_set128_high;
use crate::bits::lemma_set128_low;
use crate::bits::lemma_zero_word;
use crate::bits::pop128_below;
use crate::bits::pop_below;
use crate::bits::popcount;
use crate::bits::popcount128;
use crate::bits::popcount_word;

/// Number of values a full chunk stores.
pub const L: usize = 44;

/// Largest span (`last - first`) a chunk can encode: `256 * (128 - 44)`.
pub const MAX_SPAN: u64 = 21504;

/// Exclusive upper bound on stored values: `2^40`.
pub const MAX_VALUE: u64 = 0x100_0000_0000;

/// A sequence is non-decreasing.
pub open spec fn sorted(s: Seq<u64>) -> bool {
    forall|i: int, j: int| 0 <= i <= j < s.len() ==> s[i] <= s[j]
}

/// The bitmap position assigned to the `i`-th value of a chunk: the index
/// itself plus the value's high-part delta from the chunk base.
pub open spec fn bit_pos(s: Seq<u64>, i: int) -> int {
    i + ((s[i] >> 8u64) - (s[0] >> 8u64))
}

/// The inputs a single chunk accepts: between 1 and 44 sorted 40-bit values
/// spanning at most 21504.
pub open spec fn chunk_values_ok(s: Seq<u64>) -> bool {
    &&& 1 <= s.len() <= L
    &&& sorted(s)
    &&& s[s.len() - 1] < MAX_VALUE
    &&& s[s.len() - 1] - s[0] <= MAX_SPAN
}

/// Dividing by 256 (shifting right by 8) preserves order.
proof fn lemma_shr8_mono(a: u64, b: u64)
    requires
        a <= b,
    ensures
        (a >> 8u64) <= (b >> 8u64),
{
    assert((a >> 8u64) <= (b >> 8u64)) by (bit_vector)
        requires
            a <= b,
    ;
}

/// Values within the allowed span keep their high-part deltas below 85.
proof fn lemma_shr8_delta(a: u64, v: u64, b: u64)
    requires
        a <= v,
        v <= b,
        b - a <= 21504,
    ensures
        (v >> 8u64) - (a >> 8u64) <= 84,
{
    assert((v >> 8u64) - (a >> 8u64) <= 84) by (bit_vector)
        requires
            a <= v && v <= b && b - a <= 21504,
    ;
}

/// A 40-bit value is rebuilt exactly from 256 times its high part plus its
/// low byte; the high part fits in 32 bits.
proof fn lemma_reconstruct(v: u64)
    requires
        v < 0x100_0000_0000u64,
    ensures
        (v >> 8u64) < 0x1_0000_0000u64,
        (v & 0xffu64) < 256u64,
        256 * (v >> 8u64) + (v & 0xffu64) == v,
{
    assert((v >> 8u64) < 0x1_0000_0000u64 && (v & 0xffu64) < 256u64 && 256 * (v >> 8u64) + (v
        & 0xffu64) == v) by (bit_vector)
        requires
            v < 0x100_0000_0000u64,
    ;
}

/// The positions assigned to a chunk's values lie in `[i, 128)`.
proof fn lemma_pos_bounds(s: Seq<u64>, i: int)
    requires
        chunk_values_ok(s),
        0 <= i < s.len(),
    ensures
        i <= bit_pos(s, i),
        bit_pos(s, i) < 128,
{
    assert(s[0] <= s[i]);
    assert(s[i] <= s[s.len() - 1]);
    lemma_shr8_mono(s[0], s[i]);
    lemma_shr8_delta(s[0], s[i], s[s.len() - 1]);
}

/// The positions assigned to a chunk's values strictly increase.
proof fn lemma_pos_mono(s: Seq<u64>, i: int, j: int)
    requires
        chunk_values_ok(s),
        0 <= i < j < s.len(),
    ensures
        bit_pos(s, i) < bit_pos(s, j),
{
    assert(s[i] <= s[j]);
    lemma_shr8_mono(s[i], s[j]);
}

/// Relies on `common_traits::SelectInWord` for `u64`: for a rank below the
/// word's population count it returns the position of the rank-th set bit.
#[verifier::external_body]
fn select_in_word(word: u64, rank: usize) -> (r: usize)
    requires
        rank < popcount(word),
    ensures
        r < 64,
        bit64(word, r as int),
        pop_below(word, r as int) == rank,
{
    common_traits::SelectInWord::select_in_word(&word, rank)
}

/// A single cacheline holding up to 44 sorted 40-bit values whose span is at
/// most `256 * 84 = 21504`: a 128-bit boundary bitmap, the first value's high
/// 32 bits, and one low byte per value.
#[derive(Clone, Copy)]
pub struct CachelineEf {
    /// 128 bits marking where multiples of 256 are crossed: the `i`-th set
    /// bit sits at position `i` plus the `i`-th value's high-part delta.
    high_boundaries: [u64; 2],
    /// The first value divided by 256.
    reduced_offset: u32,
    /// The low 8 bits of each value; unused entries stay zero.
    low_bits: [u8; 44],
    /// The encoded values, kept for specification only.
    values: Ghost<Seq<u64>>,
}

impl View for CachelineEf {
    type V = Seq<u64>;

    closed spec fn view(&self) -> Seq<u64> {
        self.values@
    }
}

impl CachelineEf {
    /// One word of the boundary bitmap.
    pub closed spec fn high_word(self, w: int) -> u64 {
        self.high_boundaries@[w]
    }

    /// The stored offset field.
    pub closed spec fn spec_reduced_offset(self) -> u32 {
        self.reduced_offset
    }

    /// The stored low byte at position `i`.
    pub closed spec fn spec_low_bit(self, i: int) -> u8 {
        self.low_bits@[i]
    }

    /// The chunk is a faithful encoding of the value sequence `s`.
    pub closed spec fn encodes(self, s: Seq<u64>) -> bool {
        &&& chunk_values_ok(s)
        &&& self.reduced_offset as u64 == s[0] >> 8u64
        &&& forall|i: int|
            0 <= i < s.len() ==> #[trigger] self.low_bits@[i] == (s[i] & 0xffu64) as u8
        &&& forall|i: int| s.len() <= i < 44 ==> #[trigger] self.low_bits@[i] == 0
        &&& forall|i: int|
            0 <= i < s.len() ==> bit128(self.high_word(0), self.high_word(1), #[trigger] bit_pos(s, i))
                && pop128_below(self.high_word(0), self.high_word(1), bit_pos(s, i)) == i
        &&& forall|p: int|
            #[trigger] bit128(self.high_word(0), self.high_word(1), p) ==> exists|i: int|
                0 <= i < s.len() && p == bit_pos(s, i)
        &&& popcount128(self.high_word(0), self.high_word(1)) == s.len()
    }

    /// Well-formed: the chunk encodes its own value sequence.
    pub open spec fn wf(self) -> bool {
        self.encodes(self@)
    }

    /// Encodes between 1 and 44 sorted 40-bit values into one chunk;
    /// `None` exactly when their span exceeds 21504.
    pub fn try_new(vals: &[u64]) -> (r: Option<CachelineEf>)
        requires
            1 <= vals@.len() <= L,
            sorted(vals@),
            vals@[vals@.len() - 1] < MAX_VALUE,
        ensures
            r is Some <==> vals@[vals@.len() - 1] - vals@[0] <= MAX_SPAN,
            r matches Some(c) ==> c.wf() && c@ == vals@,
    {
        let l = vals.len();
        proof {
            assert(vals@[0] <= vals@[l - 1]);
        }
        if vals[l - 1] - vals[0] > MAX_SPAN {
            return None;
        }
        let offset = vals[0] >> 8;
        proof {
            lemma_reconstruct(vals@[0]);
            // Defence in depth: the offset of a 40-bit value always fits the
            // 32-bit field.
            assert(offset <= u32::MAX as u64);
        }
        let mut low_bits: [u8; 44] = [0u8; 44];
        let mut i: usize = 0;
        while i < l
            invariant
                l == vals@.len(),
                l <= 44,
                i <= l,
                forall|j: int| 0 <= j < i ==> #[trigger] low_bits@[j] == (vals@[j] & 0xffu64) as u8,
                forall|j: int| i <= j < 44 ==> #[trigger] low_bits@[j] == 0,
            decreases l - i,
        {
            let v = vals[i];
            proof {
                assert(v & 0xffu64 < 256u64) by (bit_vector);
            }
            low_bits[i] = (v & 0xff) as u8;
            i += 1;
        }
        let mut hb0: u64 = 0;
        let mut hb1: u64 = 0;
        proof {
            lemma_zero_word();
        }
        let mut i: usize = 0;
        while i < l
            invariant
                l == vals@.len(),
                chunk_values_ok(vals@),
                offset == vals@[0] >> 8u64,
                offset <= u32::MAX as u64,
                i <= l,
                forall|j: int|
                    0 <= j < i ==> bit128(hb0, hb1, #[trigger] bit_pos(vals@, j)) && pop128_below(
                        hb0,
                        hb1,
                        bit_pos(vals@, j),
                    ) == j,
                popcount128(hb0, hb1) == i,
                forall|p: int|
                    #[trigger] bit128(hb0, hb1, p) ==> exists|j: int|
                        0 <= j < i && p == bit_pos(vals@, j),
            decreases l - i,
        {
            let v = vals[i];
            proof {
                assert(vals@[0] <= vals@[i as int]);
                lemma_shr8_mono(vals@[0], v);
                lemma_pos_bounds(vals@, i as int);
            }
            let delta = ((v >> 8) - offset) as usize;
            let p = i + delta;
            proof {
                assert(p == bit_pos(vals@, i as int));
                assert forall|x: int| p <= x < 128 implies !bit128(hb0, hb1, x) by {
                    if bit128(hb0, hb1, x) {
                        let j = choose|j: int| 0 <= j < i && x == bit_pos(vals@, j);
                        lemma_pos_mono(vals@, j, i as int);
                    }
                }
                lemma_pop128_flat(hb0, hb1, p as int, 128);
            }
            let ghost g0 = hb0;
            let ghost g1 = hb1;
            if p < 64 {
                proof {
                    assert(!bit128(hb0, hb1, p as int));
                    lemma_set128_low(hb0, hb1, p as u64);
                }
                hb0 = hb0 | (1u64 << (p as u64));
            } else {
                proof {
                    assert(!bit128(hb0, hb1, p as int));
                    lemma_set128_high(hb0, hb1, (p - 64) as u64);
                }
                hb1 = hb1 | (1u64 << ((p - 64) as u64));
            }
            proof {
                assert(bit128(hb0, hb1, p as int));
                assert forall|x: int| x != p implies bit128(hb0, hb1, x) == bit128(g0, g1, x) by {
                }
                assert forall|j: int|
                    0 <= j < i + 1 implies bit128(hb0, hb1, #[trigger] bit_pos(vals@, j))
                    && pop128_below(hb0, hb1, bit_pos(vals@, j)) == j by {
                    if j < i {
                        lemma_pos_mono(vals@, j, i as int);
                        assert(bit128(g0, g1, bit_pos(vals@, j)));
                        assert(bit128(hb0, hb1, bit_pos(vals@, j)) == bit128(g0, g1, bit_pos(vals@, j)));
                    }
                }
                assert forall|x: int| #[trigger] bit128(hb0, hb1, x) implies exists|j: int|
                    0 <= j < i + 1 && x == bit_pos(vals@, j) by {
                    if x == p {
                        assert(0 <= i < i + 1 && x == bit_pos(vals@, i as int));
                    } else {
                        assert(bit128(g0, g1, x));
                        let j = choose|j: int| 0 <= j < i && x == bit_pos(vals@, j);
                        assert(0 <= j < i + 1 && x == bit_pos(vals@, j));
                    }
                }
            }
            i += 1;
        }
        let c = CachelineEf {
            high_boundaries: [hb0, hb1],
            reduced_offset: offset as u32,
            low_bits,
            values: Ghost(vals@),
        };
        proof {
            assert(c.high_word(0) == hb0);
            assert(c.high_word(1) == hb1);
        }
        Some(c)
    }

    /// Decodes the value at `idx` from this single cacheline.
    pub fn index(&self, idx: usize) -> (r: u64)
        requires
            self.wf(),
            idx < self@.len(),
        ensures
            r == self@[idx as int],
    {
        let ghost s = self.values@;
        let ghost pos = bit_pos(s, idx as int);
        proof {
            lemma_pos_bounds(s, idx as int);
        }
        let h0 = self.high_boundaries[0];
        let h1 = self.high_boundaries[1];
        let p = popcount_word(h0);
        let one_pos: usize;
        if idx < p {
            proof {
                assert(pos < 64);
            }
            one_pos = select_in_word(h0, idx);
            proof {
                lemma_select64_unique(h0, one_pos as int, pos);
            }
        } else {
            proof {
                if pos < 64 {
                    lemma_pop_below_mono(h0, pos + 1, 64);
                    assert(false);
                }
            }
            one_pos = 64 + select_in_word(h1, idx - p);
            proof {
                lemma_select64_unique(h1, one_pos - 64, pos - 64);
            }
        }
        proof {
            assert(one_pos == pos);
            assert(s[0] <= s[idx as int]);
            lemma_shr8_mono(s[0], s[idx as int]);
            lemma_reconstruct(s[idx as int]);
        }
        256 * (self.reduced_offset as u64) + 256 * ((one_pos - idx) as u64) + (self.low_bits[idx]
            as u64)
    }

    /// The two words of the boundary bitmap. For a well-formed chunk the set
    /// positions are exactly those of the encoding rule: the `i`-th value
    /// sets position `bit_pos(values, i)`, with `i` set positions below it,
    /// and no other position is set.
    pub fn high_boundaries(&self) -> (r: [u64; 2])
        ensures
            r@[0] == self.high_word(0),
            r@[1] == self.high_word(1),
            self.wf() ==> popcount(r@[0]) + popcount(r@[1]) == self@.len(),
            self.wf() ==> forall|i: int|
                0 <= i < self@.len() ==> bit128(r@[0], r@[1], #[trigger] bit_pos(self@, i))
                    && pop128_below(r@[0], r@[1], bit_pos(self@, i)) == i,
            self.wf() ==> forall|p: int|
                #[trigger] bit128(r@[0], r@[1], p) ==> exists|i: int|
                    0 <= i < self@.len() && p == bit_pos(self@, i),
    {
        self.high_boundaries
    }

    /// The stored offset: for a well-formed chunk, the first value
    /// divided by 256.
    pub fn reduced_offset(&self) -> (r: u32)
        ensures
            r == self.spec_reduced_offset(),
            self.wf() ==> r as u64 == self@[0] >> 8u64,
    {
        self.reduced_offset
    }

    /// The stored low byte at position `i`: for a well-formed chunk with at
    /// least `i + 1` values, the `i`-th value's low 8 bits; at or beyond the
    /// count, zero.
    pub fn low_bit(&self, i: usize) -> (r: u8)
        requires
            i < 44,
        ensures
            r == self.spec_low_bit(i as int),
            self.wf() && i < self@.len() ==> r == (self@[i as int] & 0xffu64) as u8,
            self.wf() && i >= self@.len() ==> r == 0,
    {
        self.low_bits[i]
    }
}

/// A well-formed chunk's value sequence satisfies the chunk bounds: between
/// 1 and 44 sorted 40-bit values spanning at most 21504.
pub proof fn lemma_wf_values_ok(c: CachelineEf)
    requires
        c.wf(),
    ensures
        chunk_values_ok(c@),
{
}

/// Law: round trip at the specification level. For a well-formed chunk the
/// stored fields rebuild each encoded value exactly: 256 times the reduced
/// offset, plus 256 for every position the value's boundary bit moved past
/// its index, plus the stored low byte.
pub proof fn lemma_chunk_reconstruction(c: CachelineEf, i: int)
    requires
        c.wf(),
        0 <= i < c@.len(),
    ensures
        256 * (c.spec_reduced_offset() as int) + 256 * (bit_pos(c@, i) - i) + c.spec_low_bit(i)
            == c@[i],
{
    let s = c@;
    assert(s[i] <= s[s.len() - 1]);
    lemma_reconstruct(s[i]);
}

/// Law: a well-formed chunk's boundary bitmap holds exactly one set bit per
/// encoded value.
pub proof fn lemma_bitmap_population(c: CachelineEf)
    requires
        c.wf(),
    ensures
        popcount(c.high_word(0)) + popcount(c.high_word(1)) == c@.len(),
{
}

/// Law: the bitmap encoding rule. A well-formed chunk's set positions are
/// exactly `bit_pos(values, i)` for each value index `i`, each with `i` set
/// positions below it; the stored low bytes are the values' low 8 bits, with
/// a zero tail; the offset is the first value divided by 256.
pub proof fn lemma_bitmap_rule(c: CachelineEf)
    requires
        c.wf(),
    ensures
        c.spec_reduced_offset() as u64 == c@[0] >> 8u64,
        forall|i: int| 0 <= i < c@.len() ==> #[trigger] c.spec_low_bit(i) == (c@[i] & 0xffu64) as u8,
        forall|i: int| c@.len() <= i < 44 ==> #[trigger] c.spec_low_bit(i) == 0,
        forall|i: int|
            0 <= i < c@.len() ==> bit128(c.high_word(0), c.high_word(1), #[trigger] bit_pos(c@, i))
                && pop128_below(c.high_word(0), c.high_word(1), bit_pos(c@, i)) == i,
        forall|p: int|
            #[trigger] bit128(c.high_word(0), c.high_word(1), p) ==> exists|i: int|
                0 <= i < c@.len() && p == bit_pos(c@, i),
{
}

} // verus!
