//! Bigram counts of a token stream, with what Kneser-Ney smoothing reads from them.
use crate::fx;
use crate::ids::TokenId;
use crate::tally;
use rustc_hash::FxHashMap;
use vstd::prelude::*;

verus! {

/// The bigrams counted `v` times.
pub open spec fn bin(b: Map<(u32, u32), u32>, v: int) -> Set<(u32, u32)> {
    Set::new(|p: (u32, u32)| b.dom().contains(p) && b[p] == v)
}

/// The bigrams that end in `w`.
pub open spec fn ending_in(b: Map<(u32, u32), u32>, w: u32) -> Set<(u32, u32)> {
    Set::new(|p: (u32, u32)| b.dom().contains(p) && p.1 == w)
}

/// How many different bigrams of the stream occur `v` times.
pub open spec fn count_of_counts(stream: Seq<u32>, v: int) -> nat {
    Set::new(|p: (u32, u32)| tally::occ(tally::pairs(stream), p) == v).len()
}

/// How many different tokens stand to the left of `w` in the stream.
pub open spec fn left_contexts(stream: Seq<u32>, w: u32) -> nat {
    Set::new(|p: (u32, u32)| tally::occ(tally::pairs(stream), p) > 0 && p.1 == w).len()
}

/// `m` holds each token with a left context, with how many it has.
pub open spec fn is_continuation(m: Map<u32, u32>, stream: Seq<u32>) -> bool {
    &&& forall|w: u32| #[trigger] m.dom().contains(w) <==> left_contexts(stream, w) > 0
    &&& forall|w: u32| #[trigger] m.dom().contains(w) ==> m[w] == left_contexts(stream, w)
}

/// Bigram counts, the number of left contexts of each token, and how many bigrams were
/// counted once, twice, three and four times.
pub struct BigramStats {
    pub counts: FxHashMap<(u32, u32), u32>,
    pub continuation: FxHashMap<u32, u32>,
    pub n1: u64,
    pub n2: u64,
    pub n3: u64,
    pub n4: u64,
}

pub proof fn lemma_bin_subset(b: Map<(u32, u32), u32>, v: int, w: u32)
    requires
        b.dom().finite(),
    ensures
        bin(b, v).finite(),
        bin(b, v).len() <= b.dom().len(),
        ending_in(b, w).finite(),
        ending_in(b, w).len() <= b.dom().len(),
{
    assert(bin(b, v).subset_of(b.dom()));
    assert(ending_in(b, w).subset_of(b.dom()));
    vstd::set_lib::lemma_len_subset(bin(b, v), b.dom());
    vstd::set_lib::lemma_len_subset(ending_in(b, w), b.dom());
}

/// A bigram counted for the first time joins a bin and the bigrams of its second token.
proof fn lemma_bin_new(b: Map<(u32, u32), u32>, p: (u32, u32), c: u32, v: int, w: u32)
    requires
        b.dom().finite(),
        !b.dom().contains(p),
    ensures
        bin(b.insert(p, c), v).len() == bin(b, v).len() + (if v == c {
            1int
        } else {
            0
        }),
        ending_in(b.insert(p, c), w).len() == ending_in(b, w).len() + (if w == p.1 {
            1int
        } else {
            0
        }),
{
    lemma_bin_subset(b, v, w);
    if v == c {
        assert(bin(b.insert(p, c), v) =~= bin(b, v).insert(p));
    } else {
        assert(bin(b.insert(p, c), v) =~= bin(b, v));
    }
    if w == p.1 {
        assert(ending_in(b.insert(p, c), w) =~= ending_in(b, w).insert(p));
    } else {
        assert(ending_in(b.insert(p, c), w) =~= ending_in(b, w));
    }
}

/// A bigram counted again moves to another bin.
proof fn lemma_bin_move(b: Map<(u32, u32), u32>, p: (u32, u32), c: u32, v: int, w: u32)
    requires
        b.dom().finite(),
        b.dom().contains(p),
        b[p] != c,
    ensures
        bin(b.insert(p, c), v).len() == bin(b, v).len() + (if v == c {
            1int
        } else if v == b[p] {
            -1int
        } else {
            0
        }),
        v == b[p] ==> bin(b, v).len() > 0,
        ending_in(b.insert(p, c), w) == ending_in(b, w),
{
    lemma_bin_subset(b, v, w);
    if v == c {
        assert(bin(b.insert(p, c), v) =~= bin(b, v).insert(p));
    } else if v == b[p] {
        assert(bin(b, v).contains(p));
        assert(bin(b.insert(p, c), v) =~= bin(b, v).remove(p));
    } else {
        assert(bin(b.insert(p, c), v) =~= bin(b, v));
    }
    assert(ending_in(b.insert(p, c), w) =~= ending_in(b, w));
}

/// No more bigrams are counted than stand in the stream.
pub proof fn lemma_dom_bound(b: Map<(u32, u32), u32>, stream: Seq<u32>)
    requires
        tally::within_tally(b, tally::pairs(stream)),
    ensures
        b.dom().finite(),
        b.dom().len() <= stream.len(),
{
    let ps = tally::pairs(stream);
    assert(b.dom().subset_of(ps.to_set())) by {
        assert forall|p: (u32, u32)| b.dom().contains(p) implies ps.to_set().contains(p) by {
            let i = tally::lemma_occ_witness(ps, p);
            assert(ps[i] == p);
        }
    }
    vstd::seq_lib::seq_to_set_is_finite(ps);
    ps.lemma_cardinality_of_set();
    vstd::set_lib::lemma_len_subset(b.dom(), ps.to_set());
}

impl BigramStats {
    /// The parts agree with the bigram counts.
    pub open spec fn consistent(&self) -> bool {
        &&& self.counts@.dom().finite()
        &&& self.n1 == bin(self.counts@, 1).len()
        &&& self.n2 == bin(self.counts@, 2).len()
        &&& self.n3 == bin(self.counts@, 3).len()
        &&& self.n4 == bin(self.counts@, 4).len()
        &&& forall|w: u32| #[trigger]
            self.continuation@.dom().contains(w) <==> ending_in(self.counts@, w).len() > 0
        &&& forall|w: u32| #[trigger]
            self.continuation@.dom().contains(w) ==> self.continuation@[w] == ending_in(
                self.counts@,
                w,
            ).len()
    }

    /// No bigram is counted more often than it stands in the stream.
    pub open spec fn within(&self, stream: Seq<u32>) -> bool {
        self.consistent() && tally::within_tally(self.counts@, tally::pairs(stream))
    }

    /// Every bigram is counted as often as it stands in the stream.
    pub open spec fn counts_stream(&self, stream: Seq<u32>) -> bool {
        self.consistent() && tally::is_tally(self.counts@, tally::pairs(stream))
    }

    /// No bigram.
    pub fn new() -> (r: Self)
        ensures
            r.counts_stream(Seq::<u32>::empty()),
    {
        let r = BigramStats {
            counts: fx::new_pair_counts(),
            continuation: fx::new_counts(),
            n1: 0,
            n2: 0,
            n3: 0,
            n4: 0,
        };
        proof {
            let b = r.counts@;
            assert(bin(b, 1) =~= Set::empty());
            assert(bin(b, 2) =~= Set::empty());
            assert(bin(b, 3) =~= Set::empty());
            assert(bin(b, 4) =~= Set::empty());
            assert forall|w: u32| #[trigger] ending_in(b, w).len() == 0 by {
                assert(ending_in(b, w) =~= Set::empty());
            }
        }
        r
    }

    /// One bigram observation: moves its count-of-counts bin and, on first sight, the
    /// continuation count.
    pub(crate) fn bump(&mut self, l: TokenId, w: TokenId, Ghost(stream): Ghost<Seq<u32>>)
        requires
            old(self).within(stream),
            0 < stream.len() < u32::MAX,
            stream.last() == l,
        ensures
            final(self).within(stream.push(w)),
            old(self).counts_stream(stream) ==> final(self).counts_stream(stream.push(w)),
            final(self).counts@ == old(self).counts@.insert(
                (l, w),
                (if old(self).counts@.dom().contains((l, w)) {
                    old(self).counts@[(l, w)] + 1
                } else {
                    1
                }) as u32,
            ),
    {
        let ghost b = self.counts@;
        let ghost ps = tally::pairs(stream);
        let ghost p = (l, w);
        let held = fx::get_pair_count(&self.counts, (l, w));
        proof {
            tally::lemma_pairs_push(stream, w);
            tally::lemma_within_push(b, ps, p);
            if tally::is_tally(b, ps) {
                tally::lemma_tally_push(b, ps, p);
            }
            tally::lemma_occ_bounds(ps, p);
            lemma_dom_bound(b, stream);
            lemma_bin_subset(b, 1, w);
            lemma_bin_subset(b, 2, w);
            lemma_bin_subset(b, 3, w);
            lemma_bin_subset(b, 4, w);
        }
        let c: u32 = match held {
            Some(v) => v + 1,
            None => 1,
        };
        fx::set_pair_count(&mut self.counts, (l, w), c);
        proof {
            if b.dom().contains(p) {
                lemma_bin_move(b, p, c, 1, w);
                lemma_bin_move(b, p, c, 2, w);
                lemma_bin_move(b, p, c, 3, w);
                lemma_bin_move(b, p, c, 4, w);
                assert forall|u: u32| #[trigger] ending_in(self.counts@, u) == ending_in(b, u) by {
                    lemma_bin_move(b, p, c, 1, u);
                }
            } else {
                lemma_bin_new(b, p, c, 1, w);
                lemma_bin_new(b, p, c, 2, w);
                lemma_bin_new(b, p, c, 3, w);
                lemma_bin_new(b, p, c, 4, w);
                assert forall|u: u32| #[trigger]
                    ending_in(self.counts@, u).len() == ending_in(b, u).len() + (if u == w {
                        1int
                    } else {
                        0
                    }) by {
                    lemma_bin_new(b, p, c, 1, u);
                }
            }
        }
        if c == 1 {
            let held = fx::get_count(&self.continuation, w);
            let k: u32 = match held {
                Some(v) => v + 1,
                None => 1,
            };
            fx::set_count(&mut self.continuation, w, k);
            self.n1 = self.n1 + 1;
        } else if c == 2 {
            self.n1 = self.n1 - 1;
            self.n2 = self.n2 + 1;
        } else if c == 3 {
            self.n2 = self.n2 - 1;
            self.n3 = self.n3 + 1;
        } else if c == 4 {
            self.n3 = self.n3 - 1;
            self.n4 = self.n4 + 1;
        } else if c == 5 {
            self.n4 = self.n4 - 1;
        }
    }

    /// The statistics of given bigram counts, from scratch.
    pub(crate) fn from_counts(counts: FxHashMap<(u32, u32), u32>, Ghost(stream): Ghost<Seq<u32>>) -> (r: Self)
        requires
            tally::is_tally(counts@, tally::pairs(stream)),
            stream.len() < u32::MAX,
        ensures
            r.counts_stream(stream),
    {
        let all = fx::pair_counts(&counts);
        let mut continuation = fx::new_counts();
        let mut n1: u64 = 0;
        let mut n2: u64 = 0;
        let mut n3: u64 = 0;
        let mut n4: u64 = 0;
        let ghost b = counts@;
        let ghost mut seen: Map<(u32, u32), u32> = Map::empty();
        proof {
            assert forall|p: (u32, u32)| #[trigger] b.dom().contains(p) implies 0 < b[p]
                <= tally::occ(tally::pairs(stream), p) by {}
            lemma_dom_bound(b, stream);
            assert(bin(seen, 1) =~= Set::empty());
            assert(bin(seen, 2) =~= Set::empty());
            assert(bin(seen, 3) =~= Set::empty());
            assert(bin(seen, 4) =~= Set::empty());
            assert forall|w: u32| #[trigger] ending_in(seen, w).len() == 0 by {
                assert(ending_in(seen, w) =~= Set::empty());
            }
        }
        let mut i: usize = 0;
        while i < all.len()
            invariant
                i <= all.len(),
                stream.len() < u32::MAX,
                b.dom().finite(),
                b.dom().len() <= stream.len(),
                forall|x: int|
                    0 <= x < all.len() ==> b.dom().contains((#[trigger] all[x]).0) && b[all[x].0]
                        == all[x].1,
                forall|x: int, y: int|
                    0 <= x < y < all.len() ==> (#[trigger] all[x]).0 != (#[trigger] all[y]).0,
                forall|p: (u32, u32)| #[trigger]
                    seen.dom().contains(p) <==> exists|x: int|
                        0 <= x < i && (#[trigger] all[x]).0 == p,
                forall|p: (u32, u32)| #[trigger] seen.dom().contains(p) ==> b.dom().contains(p) && seen[p] == b[p],
                seen.dom().finite(),
                n1 == bin(seen, 1).len(),
                n2 == bin(seen, 2).len(),
                n3 == bin(seen, 3).len(),
                n4 == bin(seen, 4).len(),
                forall|w: u32| #[trigger]
                    continuation@.dom().contains(w) <==> ending_in(seen, w).len() > 0,
                forall|w: u32| #[trigger]
                    continuation@.dom().contains(w) ==> continuation@[w] == ending_in(
                        seen,
                        w,
                    ).len(),
            decreases all.len() - i,
        {
            let ((l, w), c) = all[i];
            let ghost p = (l, w);
            proof {
                assert(all[i as int].0 == p);
                assert(!seen.dom().contains(p));
                assert(seen.dom().subset_of(b.dom()));
                vstd::set_lib::lemma_len_subset(seen.dom(), b.dom());
                lemma_bin_subset(seen, 1, w);
                lemma_bin_subset(seen, 2, w);
                lemma_bin_subset(seen, 3, w);
                lemma_bin_subset(seen, 4, w);
                lemma_bin_new(seen, p, c, 1, w);
                lemma_bin_new(seen, p, c, 2, w);
                lemma_bin_new(seen, p, c, 3, w);
                lemma_bin_new(seen, p, c, 4, w);
                assert forall|u: u32| #[trigger]
                    ending_in(seen.insert(p, c), u).len() == ending_in(seen, u).len() + (if u
                        == w {
                        1int
                    } else {
                        0
                    }) by {
                    lemma_bin_new(seen, p, c, 1, u);
                }
            }
            let held = fx::get_count(&continuation, w);
            let k: u32 = match held {
                Some(v) => v + 1,
                None => 1,
            };
            fx::set_count(&mut continuation, w, k);
            if c == 1 {
                n1 = n1 + 1;
            } else if c == 2 {
                n2 = n2 + 1;
            } else if c == 3 {
                n3 = n3 + 1;
            } else if c == 4 {
                n4 = n4 + 1;
            }
            proof {
                seen = seen.insert(p, c);
                assert forall|q: (u32, u32)| #[trigger]
                    seen.dom().contains(q) <==> exists|x: int|
                        0 <= x < i + 1 && (#[trigger] all[x]).0 == q by {
                    if q == p {
                        assert(all[i as int].0 == q);
                    }
                }
            }
            i += 1;
        }
        proof {
            assert(seen =~= b);
        }
        BigramStats { counts, continuation, n1, n2, n3, n4 }
    }
}

/// What the statistics of a stream hold is fixed by the stream.
pub proof fn lemma_counts_stream(s: BigramStats, stream: Seq<u32>)
    requires
        s.counts_stream(stream),
    ensures
        s.n1 == count_of_counts(stream, 1),
        s.n2 == count_of_counts(stream, 2),
        s.n3 == count_of_counts(stream, 3),
        s.n4 == count_of_counts(stream, 4),
        is_continuation(s.continuation@, stream),
{
    let b = s.counts@;
    let ps = tally::pairs(stream);
    assert forall|v: int| v > 0 implies #[trigger] bin(b, v) =~= Set::new(
        |p: (u32, u32)| tally::occ(ps, p) == v,
    ) by {
        assert forall|p: (u32, u32)| bin(b, v).contains(p) <==> tally::occ(ps, p) == v by {
            assert(b.dom().contains(p) <==> tally::occ(ps, p) > 0);
        }
    }
    assert(bin(b, 1) == Set::new(|p: (u32, u32)| tally::occ(ps, p) == 1));
    assert(bin(b, 2) == Set::new(|p: (u32, u32)| tally::occ(ps, p) == 2));
    assert(bin(b, 3) == Set::new(|p: (u32, u32)| tally::occ(ps, p) == 3));
    assert(bin(b, 4) == Set::new(|p: (u32, u32)| tally::occ(ps, p) == 4));
    assert forall|w: u32| #[trigger] ending_in(b, w).len() == left_contexts(stream, w) by {
        let q = Set::new(|p: (u32, u32)| tally::occ(ps, p) > 0 && p.1 == w);
        assert forall|p: (u32, u32)| ending_in(b, w).contains(p) <==> q.contains(p) by {
            assert(b.dom().contains(p) <==> tally::occ(ps, p) > 0);
        }
        assert(ending_in(b, w) =~= q);
    }
    assert forall|w: u32| #[trigger] s.continuation@.dom().contains(w) <==> left_contexts(stream, w)
        > 0 by {
        assert(ending_in(b, w).len() == left_contexts(stream, w));
    }
}

/// The left contexts of a token are the different tokens that stand just before it.
pub proof fn law_left_contexts_are_different_tokens(stream: Seq<u32>, w: u32)
    ensures
        left_contexts(stream, w) == Set::new(
            |v: u32| exists|i: int| 0 <= i < stream.len() - 1 && stream[i] == v && #[trigger] stream[i + 1] == w,
        ).len(),
{
    let ps = tally::pairs(stream);
    let q = Set::new(|p: (u32, u32)| tally::occ(tally::pairs(stream), p) > 0 && p.1 == w);
    let before = |v: u32|
        exists|i: int| 0 <= i < stream.len() - 1 && stream[i] == v && #[trigger] stream[i + 1] == w;
    let f = |p: (u32, u32)| p.0;
    assert forall|p: (u32, u32)| #[trigger] q.contains(p) <==> p.1 == w && before(p.0) by {
        if q.contains(p) {
            let i = tally::lemma_occ_witness(ps, p);
            assert(ps[i] == (stream[i], stream[i + 1]));
            assert(stream[i + 1] == w);
        }
        if p.1 == w && before(p.0) {
            let i = choose|i: int|
                0 <= i < stream.len() - 1 && stream[i] == p.0 && #[trigger] stream[i + 1] == w;
            tally::lemma_occ_pos(ps, p, i);
        }
    }
    assert(q.subset_of(ps.to_set())) by {
        assert forall|p: (u32, u32)| q.contains(p) implies ps.to_set().contains(p) by {
            let i = tally::lemma_occ_witness(ps, p);
            assert(ps[i] == p);
        }
    }
    vstd::seq_lib::seq_to_set_is_finite(ps);
    vstd::set_lib::lemma_len_subset(q, ps.to_set());
    let y = Set::new(before);
    assert forall|v: u32| y.contains(v) implies q.map(f).contains(v) by {
        assert(q.contains((v, w)));
        assert(f((v, w)) == v);
    }
    assert(q.map(f) =~= y);
    vstd::set_lib::lemma_map_size(q, y, f);
    assert forall|x: u32| x == w implies #[trigger] left_contexts(stream, x) == q.len() by {
        let r = Set::new(|p: (u32, u32)| tally::occ(ps, p) > 0 && p.1 == x);
        assert(r =~= q);
    }
    assert(y =~= Set::new(
        |v: u32| exists|i: int| 0 <= i < stream.len() - 1 && stream[i] == v && #[trigger] stream[i + 1] == w,
    ));
}

/// The statistics of a stream: each pair of neighbours with how often it stands there, how many
/// pairs stand there once, twice, three and four times, and for each token how many different
/// ones stand before it.
pub proof fn law_statistics_count_the_stream(s: BigramStats, stream: Seq<u32>, p: (u32, u32), w: u32)
    requires
        s.counts_stream(stream),
    ensures
        tally::pairs(stream).contains(p) ==> s.counts@.dom().contains(p) && s.counts@[p]
            == tally::pairs(stream).to_multiset().count(p),
        !tally::pairs(stream).contains(p) ==> !s.counts@.dom().contains(p),
        s.n1 == Set::new(|q: (u32, u32)| s.counts@.dom().contains(q) && s.counts@[q] == 1).len(),
        s.n2 == Set::new(|q: (u32, u32)| s.counts@.dom().contains(q) && s.counts@[q] == 2).len(),
        s.n3 == Set::new(|q: (u32, u32)| s.counts@.dom().contains(q) && s.counts@[q] == 3).len(),
        s.n4 == Set::new(|q: (u32, u32)| s.counts@.dom().contains(q) && s.counts@[q] == 4).len(),
        s.continuation@.dom().contains(w) ==> s.continuation@[w] == left_contexts(stream, w),
        !s.continuation@.dom().contains(w) ==> left_contexts(stream, w) == 0,
{
    tally::law_a_tally_counts_what_occurs(s.counts@, tally::pairs(stream), p);
    lemma_counts_stream(s, stream);
    assert forall|v: int| 1 <= v <= 4 implies #[trigger] bin(s.counts@, v) =~= Set::new(
        |q: (u32, u32)| s.counts@.dom().contains(q) && s.counts@[q] == v,
    ) by {}
    assert(bin(s.counts@, 1) =~= Set::new(
        |q: (u32, u32)| s.counts@.dom().contains(q) && s.counts@[q] == 1,
    ));
    assert(bin(s.counts@, 2) =~= Set::new(
        |q: (u32, u32)| s.counts@.dom().contains(q) && s.counts@[q] == 2,
    ));
    assert(bin(s.counts@, 3) =~= Set::new(
        |q: (u32, u32)| s.counts@.dom().contains(q) && s.counts@[q] == 3,
    ));
    assert(bin(s.counts@, 4) =~= Set::new(
        |q: (u32, u32)| s.counts@.dom().contains(q) && s.counts@[q] == 4,
    ));
}

} // verus!
