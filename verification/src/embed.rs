//! Closed feature-hash embedder. Used **only** for selection / topic tracking,
//! never for generation.
//!
//! A text is hashed into signed integer bins; scaling them to unit length is the host's.
use crate::params::Params;
use crate::text;
use vstd::prelude::*;

verus! {

/// Signed hashing trick over character n-grams (n = 1..=4).
#[derive(Debug, Clone, Copy)]
pub struct HashEmbedder {
    pub dim: usize,
}

/// One character taken into an FNV-1a hash, by three of its bytes' worth of bits.
pub open spec fn fnv_char(h: u64, c: char) -> u64 {
    let u = (c as int) as u32;
    let a = (h ^ (u as u64)).wrapping_mul(0x100_0000_01b3);
    let b = (a ^ ((u >> 8u32) as u64)).wrapping_mul(0x100_0000_01b3);
    (b ^ ((u >> 16u32) as u64)).wrapping_mul(0x100_0000_01b3)
}

/// FNV-1a over characters.
pub open spec fn fnv_of(cs: Seq<char>) -> u64
    decreases cs.len(),
{
    if cs.len() == 0 {
        0xcbf29ce484222325
    } else {
        fnv_char(fnv_of(cs.drop_last()), cs.last())
    }
}

/// What a gram adds to a bin: one, signed by the lowest bit of its hash, to the bin that the
/// other bits name.
pub open spec fn adds(g: Seq<char>, dim: int, b: int) -> int {
    let h = fnv_of(g) as int;
    if (h / 2) % dim == b {
        if h % 2 == 0 {
            1
        } else {
            -1
        }
    } else {
        0
    }
}

/// What the grams of order `n` that start before `k` add to a bin.
pub open spec fn order_sum(cs: Seq<char>, n: int, k: int, dim: int, b: int) -> int
    decreases k,
{
    if k <= 0 {
        0
    } else {
        order_sum(cs, n, k - 1, dim, b) + adds(cs.subrange(k - 1, k - 1 + n), dim, b)
    }
}

/// What the grams of orders up to `n` add to a bin.
pub open spec fn bin_sum(cs: Seq<char>, n: int, dim: int, b: int) -> int
    decreases n,
{
    if n <= 0 {
        0
    } else {
        bin_sum(cs, n - 1, dim, b) + (if n <= cs.len() {
            order_sum(cs, n, cs.len() - n + 1, dim, b)
        } else {
            0
        })
    }
}

/// The bins of a text.
pub open spec fn bins_of(cs: Seq<char>, dim: int) -> Seq<i64> {
    Seq::new(dim as nat, |b: int| bin_sum(cs, 4, dim, b) as i64)
}

/// FNV-1a over a stretch of characters.
pub fn fnv1a_chars(v: &Vec<char>, lo: usize, hi: usize) -> (h: u64)
    requires
        lo <= hi <= v.len(),
    ensures
        h == fnv_of(v@.subrange(lo as int, hi as int)),
{
    let mut h: u64 = 0xcbf29ce484222325;
    let mut i: usize = lo;
    while i < hi
        invariant
            lo <= i <= hi <= v.len(),
            h == fnv_of(v@.subrange(lo as int, i as int)),
        decreases hi - i,
    {
        let c: char = v[i];
        let u: u32 = text::code(c);
        let a: u64 = (h ^ (u as u64)).wrapping_mul(0x100_0000_01b3);
        let b: u64 = (a ^ ((u >> 8u32) as u64)).wrapping_mul(0x100_0000_01b3);
        proof {
            assert(v@.subrange(lo as int, i + 1).drop_last() =~= v@.subrange(lo as int, i as int));
            assert(v@.subrange(lo as int, i + 1).last() == c);
        }
        h = (b ^ ((u >> 16u32) as u64)).wrapping_mul(0x100_0000_01b3);
        i += 1;
    }
    h
}

proof fn lemma_order_sum_bound(cs: Seq<char>, n: int, k: int, dim: int, b: int)
    requires
        0 <= k,
    ensures
        -k <= order_sum(cs, n, k, dim, b) <= k,
    decreases k,
{
    if k > 0 {
        lemma_order_sum_bound(cs, n, k - 1, dim, b);
    }
}

proof fn lemma_bin_sum_bound(cs: Seq<char>, n: int, dim: int, b: int)
    requires
        0 <= n,
    ensures
        -(n * cs.len()) <= bin_sum(cs, n, dim, b) <= n * cs.len(),
    decreases n,
{
    if n > 0 {
        lemma_bin_sum_bound(cs, n - 1, dim, b);
        assert(n * cs.len() == (n - 1) * cs.len() + cs.len()) by (nonlinear_arith);
        if n <= cs.len() {
            lemma_order_sum_bound(cs, n, cs.len() - n + 1, dim, b);
        }
    }
}

impl HashEmbedder {
    pub open spec fn wf(&self) -> bool {
        self.dim >= 8
    }

    pub fn new(dim: usize) -> (r: Self)
        ensures
            r.wf(),
            r.dim == (if dim < 8 {
                8
            } else {
                dim
            }),
    {
        HashEmbedder {
            dim: if dim < 8 {
                8
            } else {
                dim
            },
        }
    }

    pub fn from_params(params: &Params) -> (r: Self)
        ensures
            r.wf(),
            r.dim == (if params.embed_dim < 8 {
                8
            } else {
                params.embed_dim
            }),
    {
        HashEmbedder::new(params.embed_dim)
    }

    /// The signed bins of a text.
    pub fn embed(&self, text: &str) -> (out: Vec<i64>)
        requires
            self.wf(),
            text@.len() < 0x1000_0000_0000_0000,
        ensures
            out@ == bins_of(text@, self.dim as int),
    {
        let cs = text::chars_of(text);
        let ghost dim = self.dim as int;
        let mut out: Vec<i64> = vec![0i64; self.dim];
        let mut n: usize = 1;
        while n <= 4 && n <= cs.len()
            invariant
                1 <= n <= 5,
                dim == self.dim >= 8,
                cs@ == text@,
                text@.len() < 0x1000_0000_0000_0000,
                out.len() == dim,
                forall|b: int| 0 <= b < dim ==> #[trigger] out[b] == bin_sum(text@, n - 1, dim, b),
            decreases 5 - n,
        {
            let last: usize = cs.len() - n;
            let mut i: usize = 0;
            while i < last + 1
                invariant
                    1 <= n <= 4,
                    n <= cs.len(),
                    last == cs.len() - n,
                    i <= last + 1,
                    dim == self.dim >= 8,
                    cs@ == text@,
                    text@.len() < 0x1000_0000_0000_0000,
                    out.len() == dim,
                    forall|b: int|
                        0 <= b < dim ==> #[trigger] out[b] == bin_sum(text@, n - 1, dim, b)
                            + order_sum(text@, n as int, i as int, dim, b),
                decreases last + 1 - i,
            {
                let h: u64 = fnv1a_chars(&cs, i, i + n);
                let bin: usize = ((h / 2) % (self.dim as u64)) as usize;
                proof {
                    lemma_bin_sum_bound(text@, n - 1, dim, bin as int);
                    lemma_order_sum_bound(text@, n as int, i as int, dim, bin as int);
                    assert((n - 1) * text@.len() <= 3 * text@.len()) by (nonlinear_arith)
                        requires
                            n <= 4,
                            text@.len() >= 0,
                    ;
                    assert((h as int / 2) % dim == bin);
                }
                let old_v: i64 = out[bin];
                let ghost before = out@;
                if h % 2 == 0 {
                    out.set(bin, old_v + 1);
                } else {
                    out.set(bin, old_v - 1);
                }
                proof {
                    assert forall|b: int| 0 <= b < dim implies #[trigger] out[b] == bin_sum(
                        text@,
                        n - 1,
                        dim,
                        b,
                    ) + order_sum(text@, n as int, i + 1, dim, b) by {
                        assert(before[b] == bin_sum(text@, n - 1, dim, b) + order_sum(
                            text@,
                            n as int,
                            i as int,
                            dim,
                            b,
                        ));
                    }
                }
                i += 1;
            }
            n += 1;
        }
        proof {
            assert forall|b: int| 0 <= b < dim implies out@[b] == bins_of(text@, dim)[b] by {
                lemma_short(text@, n - 1, 4, dim, b);
            }
            assert(out@ =~= bins_of(text@, dim));
        }
        out
    }
}

/// Orders beyond the text's length add nothing.
proof fn lemma_short(cs: Seq<char>, k: int, n: int, dim: int, b: int)
    requires
        0 <= k <= n,
        k == n || k >= cs.len(),
    ensures
        bin_sum(cs, n, dim, b) == bin_sum(cs, k, dim, b),
    decreases n - k,
{
    if k < n {
        lemma_short(cs, k, n - 1, dim, b);
    }
}

/// The last embedded inputs.
pub struct TopicTracker {
    pub dim: usize,
    pub k: usize,
    pub window: Vec<Vec<i64>>,
}

/// The first `dim` bins, with zeros where there are fewer.
pub open spec fn fitted(v: Seq<i64>, dim: int) -> Seq<i64> {
    Seq::new(
        dim as nat,
        |i: int|
            if i < v.len() {
                v[i]
            } else {
                0
            },
    )
}

/// The bins in a window.
pub open spec fn held_bins(w: Seq<Vec<i64>>) -> Seq<Seq<i64>> {
    w.map_values(|v: Vec<i64>| v@)
}

impl TopicTracker {
    pub open spec fn wf(&self) -> bool {
        self.k >= 1 && self.window.len() <= self.k
    }

    pub fn new(dim: usize, k: usize) -> (r: Self)
        ensures
            r.wf(),
            r.dim == dim,
            r.k == (if k < 1 {
                1
            } else {
                k
            }),
            r.window.len() == 0,
    {
        TopicTracker {
            dim,
            k: if k < 1 {
                1
            } else {
                k
            },
            window: Vec::new(),
        }
    }

    /// Takes in one more input; the oldest leaves a full window.
    pub fn push(&mut self, v: &Vec<i64>)
        requires
            old(self).wf(),
        ensures
            final(self).wf(),
            final(self).dim == old(self).dim,
            final(self).k == old(self).k,
            held_bins(final(self).window@) == (if old(self).window.len() < old(self).k {
                held_bins(old(self).window@)
            } else {
                held_bins(old(self).window@).drop_first()
            }).push(fitted(v@, old(self).dim as int)),
    {
        let mut owned: Vec<i64> = Vec::new();
        let mut i: usize = 0;
        while i < self.dim
            invariant
                i <= self.dim,
                owned.len() == i,
                forall|j: int| 0 <= j < i ==> owned[j] == #[trigger] fitted(v@, self.dim as int)[j],
            decreases self.dim - i,
        {
            owned.push(
                if i < v.len() {
                    v[i]
                } else {
                    0
                },
            );
            i += 1;
        }
        proof {
            assert(owned@ =~= fitted(v@, self.dim as int));
        }
        if self.window.len() == self.k {
            self.window.remove(0);
        }
        self.window.push(owned);
        proof {
            assert(held_bins(self.window@) =~= (if old(self).window.len() < old(self).k {
                held_bins(old(self).window@)
            } else {
                held_bins(old(self).window@).drop_first()
            }).push(fitted(v@, old(self).dim as int)));
        }
    }

    pub fn len(&self) -> (r: usize)
        ensures
            r == self.window.len(),
    {
        self.window.len()
    }

    pub fn is_empty(&self) -> (r: bool)
        ensures
            r == (self.window.len() == 0),
    {
        self.window.len() == 0
    }
}

/// What the grams of one order add to a bin is the number of those that name it with an even
/// hash, less the number of those that do with an odd one.
pub proof fn law_grams_vote_on_their_bin(cs: Seq<char>, n: int, k: int, dim: int, b: int)
    requires
        0 <= k,
    ensures
        order_sum(cs, n, k, dim, b) == Seq::new(k as nat, |i: int| i).filter(
            |i: int|
                fnv_of(cs.subrange(i, i + n)) as int / 2 % dim == b && fnv_of(
                    cs.subrange(i, i + n),
                ) as int % 2 == 0,
        ).len() - Seq::new(k as nat, |i: int| i).filter(
            |i: int|
                fnv_of(cs.subrange(i, i + n)) as int / 2 % dim == b && fnv_of(
                    cs.subrange(i, i + n),
                ) as int % 2 == 1,
        ).len(),
    decreases k,
{
    reveal(Seq::filter);
    let all = Seq::new(k as nat, |i: int| i);
    if k > 0 {
        law_grams_vote_on_their_bin(cs, n, k - 1, dim, b);
        assert(all.drop_last() =~= Seq::new((k - 1) as nat, |i: int| i));
        assert(all.last() == k - 1);
    }
}

/// A bin holds the votes of the grams of one to four characters, as far as the text is long
/// enough for them.
pub proof fn law_bins_hold_the_votes(cs: Seq<char>, dim: int, b: int)
    requires
        0 <= b < dim,
    ensures
        bins_of(cs, dim).len() == dim,
        cs.len() == 0 ==> bin_sum(cs, 4, dim, b) == 0,
        cs.len() == 1 ==> bin_sum(cs, 4, dim, b) == order_sum(cs, 1, 1, dim, b),
        cs.len() == 2 ==> bin_sum(cs, 4, dim, b) == order_sum(cs, 1, 2, dim, b) + order_sum(
            cs,
            2,
            1,
            dim,
            b,
        ),
        cs.len() == 3 ==> bin_sum(cs, 4, dim, b) == order_sum(cs, 1, 3, dim, b) + order_sum(
            cs,
            2,
            2,
            dim,
            b,
        ) + order_sum(cs, 3, 1, dim, b),
        cs.len() >= 4 ==> bin_sum(cs, 4, dim, b) == order_sum(cs, 1, cs.len() as int, dim, b)
            + order_sum(cs, 2, cs.len() - 1, dim, b) + order_sum(cs, 3, cs.len() - 2, dim, b)
            + order_sum(cs, 4, cs.len() - 3, dim, b),
{
    reveal_with_fuel(bin_sum, 5);
}

/// Bins are cut or filled with zeros to a width.
pub proof fn law_bins_are_fitted(v: Seq<i64>, dim: int)
    requires
        0 <= dim,
    ensures
        fitted(v, dim).len() == dim,
        dim <= v.len() ==> fitted(v, dim) == v.take(dim),
        dim > v.len() ==> fitted(v, dim) == v + Seq::new((dim - v.len()) as nat, |i: int| 0i64),
{
    if dim <= v.len() {
        assert(fitted(v, dim) =~= v.take(dim));
    } else {
        assert(fitted(v, dim) =~= v + Seq::new((dim - v.len()) as nat, |i: int| 0i64));
    }
}

/// A character goes into a hash in three steps, with its code point and what is left of it
/// without its low byte and its two low bytes: each step multiplies by the prime what the
/// number makes of the hash, round 64 bits. The hash of nothing is that of no bytes.
pub proof fn law_characters_are_hashed_in_three_steps(h: u64, c: char)
    ensures
        ({
            let step = |g: u64, x: int| ((g ^ (x as u64)) * 1_099_511_628_211int)
                % 0x1_0000_0000_0000_0000;
            let u = c as int;
            fnv_char(h, c) as int == step(step(step(h, u) as u64, u / 0x100) as u64, u / 0x1_0000)
        }),
        fnv_of(Seq::empty()) == crate::snapshot::hashed(Seq::empty()),
{
    let u = (c as int) as u32;
    assert(u >> 8u32 == u / 0x100) by (bit_vector);
    assert(u >> 16u32 == u / 0x1_0000) by (bit_vector);
}

} // verus!
