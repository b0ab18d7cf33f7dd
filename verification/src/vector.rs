//! The vector container: consecutive 44-value windows of a sorted list, each
//! encoded as one chunk, with single-cacheline random access.

use vstd::prelude::*;

verus! {

use crate::chunk::CachelineEf;
use crate::chunk::chunk_values_ok;
use crate::chunk::lemma_wf_values_ok;
use crate::chunk::MAX_SPAN;
use crate::chunk::MAX_VALUE;
use crate::chunk::sorted;
use vstd::arithmetic::div_mod::lemma_div_is_ordered;
use vstd::arithmetic::div_mod::lemma_div_plus_one;
use vstd::arithmetic::div_mod::lemma_fundamental_div_mod;
use vstd::arithmetic::div_mod::lemma_fundamental_div_mod_converse;
use vstd::arithmetic::div_mod::lemma_mod_division_less_than_divisor;
use vstd::slice::slice_subrange;

/// Where the `j`-th 44-value window of `s` ends.
pub open spec fn window_end(s: Seq<u64>, j: int) -> int {
    if 44 * (j + 1) <= s.len() {
        44 * (j + 1)
    } else {
        s.len() as int
    }
}

/// The `j`-th window of at most 44 consecutive values of `s`.
pub open spec fn window(s: Seq<u64>, j: int) -> Seq<u64> {
    s.subrange(44 * j, window_end(s, j))
}

/// Every 44-value window of `s` spans at most 21504.
pub open spec fn spans_ok(s: Seq<u64>) -> bool {
    forall|j: int|
        0 <= j && 44 * j < s.len() ==> (#[trigger] window(s, j)).last() - window(s, j).first()
            <= MAX_SPAN
}

/// A sequence of chunks, one per 44-value window of a sorted input, plus the
/// total number of values.
#[derive(Clone)]
pub struct CachelineEfVec {
    ef: Vec<CachelineEf>,
    len: usize,
    values: Ghost<Seq<u64>>,
}

impl View for CachelineEfVec {
    type V = Seq<u64>;

    closed spec fn view(&self) -> Seq<u64> {
        self.values@
    }
}

impl CachelineEfVec {
    /// Well-formed: one well-formed chunk per window of the value sequence,
    /// and the chunk array's byte size fits the address space.
    pub closed spec fn wf(self) -> bool {
        &&& self.len == self.values@.len()
        &&& self.ef@.len() == (self.values@.len() + 43) / 44
        &&& 64 * self.ef@.len() <= usize::MAX
        &&& forall|j: int|
            0 <= j < self.ef@.len() ==> (#[trigger] self.ef@[j]).wf() && self.ef@[j]@ == window(
                self.values@,
                j,
            )
    }

    /// Builds the vector by encoding each consecutive window of 44 values
    /// (the last possibly shorter) as one chunk; `None` exactly when some
    /// window's span exceeds 21504.
    pub fn try_new(vals: &[u64]) -> (r: Option<Self>)
        requires
            sorted(vals@),
            vals@.len() > 0 ==> vals@[vals@.len() - 1] < MAX_VALUE,
            64 * ((vals@.len() + 43) / 44) <= usize::MAX,
        ensures
            r is Some <==> spans_ok(vals@),
            r matches Some(v) ==> v.wf() && v@ == vals@,
    {
        let n = vals.len();
        let mut ef: Vec<CachelineEf> = Vec::new();
        let mut i: usize = 0;
        while i < n
            invariant
                n == vals@.len(),
                sorted(vals@),
                n > 0 ==> vals@[n - 1] < MAX_VALUE,
                64 * ((n + 43) / 44) <= usize::MAX,
                i <= n,
                i % 44 == 0 || i == n,
                ef@.len() == (i + 43) / 44,
                forall|j: int|
                    0 <= j < ef@.len() ==> (#[trigger] ef@[j]).wf() && ef@[j]@ == window(vals@, j),
            decreases n - i,
        {
            let end = if n - i >= 44 {
                i + 44
            } else {
                n
            };
            let ghost j0 = ef@.len() as int;
            proof {
                lemma_fundamental_div_mod(i as int, 44);
                assert(i == 44 * (i as int / 44));
                lemma_fundamental_div_mod_converse(i as int + 43, 44, i as int / 44, 43);
                assert(j0 == i as int / 44);
                assert(44 * j0 == i);
                assert(window_end(vals@, j0) == end);
            }
            let sub = slice_subrange(vals, i, end);
            proof {
                assert(sub@ == window(vals@, j0));
                assert forall|a: int, b: int| 0 <= a <= b < sub@.len() implies sub@[a] <= sub@[b] by {
                    assert(vals@[i + a] <= vals@[i + b]);
                }
                assert(sub@[sub@.len() - 1] == vals@[end - 1]);
                assert(vals@[end - 1] <= vals@[n - 1]);
            }
            match CachelineEf::try_new(sub) {
                None => {
                    proof {
                        assert(window(vals@, j0).last() - window(vals@, j0).first() > MAX_SPAN);
                        assert(0 <= j0 && 44 * j0 < vals@.len());
                        assert(!spans_ok(vals@));
                    }
                    return None;
                },
                Some(c) => {
                    ef.push(c);
                },
            }
            proof {
                if end == i + 44 {
                    lemma_fundamental_div_mod_converse(end as int + 43, 44, j0 + 1, 43);
                    lemma_fundamental_div_mod_converse(end as int, 44, j0 + 1, 0);
                } else {
                    lemma_fundamental_div_mod_converse(
                        end as int + 43,
                        44,
                        j0 + 1,
                        end as int - i as int - 1,
                    );
                }
                assert(ef@.len() == (end + 43) / 44);
            }
            i = end;
        }
        let r = CachelineEfVec { ef, len: n, values: Ghost(vals@) };
        proof {
            assert(r.wf());
            assert forall|j: int| 0 <= j && 44 * j < vals@.len() implies (#[trigger] window(
                vals@,
                j,
            )).last() - window(vals@, j).first() <= MAX_SPAN by {
                lemma_fundamental_div_mod_converse(44 * j, 44, j, 0);
                lemma_div_is_ordered(44 * j, n as int - 1, 44);
                lemma_div_plus_one(n as int - 1, 44);
                assert(j < r.ef@.len());
                lemma_wf_values_ok(r.ef@[j]);
                assert(chunk_values_ok(window(vals@, j)));
            }
        }
        Some(r)
    }

    /// Builds the vector; the caller promises that every window's span fits.
    pub fn new(vals: &[u64]) -> (r: Self)
        requires
            sorted(vals@),
            vals@.len() > 0 ==> vals@[vals@.len() - 1] < MAX_VALUE,
            64 * ((vals@.len() + 43) / 44) <= usize::MAX,
            spans_ok(vals@),
        ensures
            r.wf(),
            r@ == vals@,
    {
        Self::try_new(vals).unwrap()
    }

    /// The value at `index`, decoded from the single cacheline that holds it.
    pub fn index(&self, index: usize) -> (r: u64)
        requires
            self.wf(),
            index < self@.len(),
        ensures
            r == self@[index as int],
    {
        let j = index / 44;
        let k = index % 44;
        proof {
            lemma_fundamental_div_mod(index as int, 44);
            lemma_mod_division_less_than_divisor(index as int, 44);
            let n = self.values@.len() as int;
            lemma_div_is_ordered(index as int, n - 1, 44);
            lemma_div_plus_one(n - 1, 44);
            assert(j < self.ef@.len());
            assert(self.ef@[j as int].wf());
            assert(self.ef@[j as int]@ == window(self.values@, j as int));
            assert(k < self.ef@[j as int]@.len());
            assert(self.ef@[j as int]@[k as int] == self.values@[index as int]);
        }
        let c = &self.ef[j];
        c.index(k)
    }

    /// The value at `index`. The bounds obligation sits in the contract and
    /// is discharged statically instead of being re-checked at run time.
    pub fn index_unchecked(&self, index: usize) -> (r: u64)
        requires
            self.wf(),
            index < self@.len(),
        ensures
            r == self@[index as int],
    {
        self.index(index)
    }

    /// The number of stored values.
    pub fn len(&self) -> (r: usize)
        requires
            self.wf(),
        ensures
            r == self@.len(),
    {
        self.len
    }

    /// Accepts a prefetch hint for the cacheline holding `index`. The hint
    /// may never change an observable result, and this build issues none:
    /// the hardware instruction takes a raw-pointer cast that verified code
    /// rules out, and where no instruction is issued the hint is a no-op.
    pub fn prefetch(&self, _index: usize) {
    }

    /// Read-only view of the chunk array, one 64-byte record per window of
    /// 44 values: for hosts that issue prefetch hints against the records'
    /// addresses or persist them as plain bytes.
    pub fn chunks(&self) -> (r: &[CachelineEf])
        ensures
            self.wf() ==> r@.len() == (self@.len() + 43) / 44,
            self.wf() ==> forall|j: int|
                0 <= j < r@.len() ==> (#[trigger] r@[j]).wf() && r@[j]@ == window(self@, j),
    {
        self.ef.as_slice()
    }

    /// The exact byte size of the chunk array: 64 bytes per chunk.
    pub fn size_in_bytes(&self) -> (r: usize)
        requires
            self.wf(),
        ensures
            r == 64 * ((self@.len() + 43) / 44),
    {
        self.ef.len() * 64
    }
}

impl Default for CachelineEfVec {
    /// The empty vector.
    fn default() -> (r: Self)
        ensures
            r.wf(),
            r@ == Seq::<u64>::empty(),
    {
        CachelineEfVec { ef: Vec::new(), len: 0, values: Ghost(Seq::empty()) }
    }
}

} // verus!
