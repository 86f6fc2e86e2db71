//! Conversation corpus: a single `u32` stream, its suffix array and a generation buffer.
//!
//! Variable-length n-grams are looked up by binary search on the suffix array (body)
//! and by a linear scan of the small generation buffer. When the buffer
//! reaches `merge_threshold`, the body is rebuilt with SA-IS.
use crate::bigram;
use crate::bigram::BigramStats;
use crate::fx;
use crate::ids::EOS;
use crate::ids::SEP;
use crate::ids::TokenId;
use crate::nexts;
use crate::sais;
use crate::suffix;
use crate::tally;
use rustc_hash::FxHashMap;
use vstd::prelude::*;

verus! {

/// Token ids that the index can tell apart.
pub open spec fn indexable(xs: Seq<u32>) -> bool {
    forall|i: int| 0 <= i < xs.len() ==> #[trigger] xs[i] < u32::MAX - 1
}

/// What an utterance adds to the stream.
pub open spec fn wrapped(chunks: Seq<u32>) -> Seq<u32> {
    if chunks.len() == 0 {
        Seq::empty()
    } else {
        seq![SEP] + chunks + seq![EOS]
    }
}

/// The threshold that an asked-for one gives: at least 32.
pub open spec fn threshold_for(merge_threshold: usize) -> nat {
    if merge_threshold > 32 {
        merge_threshold as nat
    } else {
        32
    }
}

/// Body and buffer with one more utterance: a buffer that has grown to the threshold goes into
/// the body.
pub open spec fn pushed(text: Seq<u32>, buf: Seq<u32>, threshold: nat, chunks: Seq<u32>) -> (
    Seq<u32>,
    Seq<u32>,
) {
    if chunks.len() == 0 {
        (text, buf)
    } else if buf.len() + chunks.len() + 2 >= threshold {
        (text + buf + wrapped(chunks), Seq::empty())
    } else {
        (text, buf + wrapped(chunks))
    }
}

pub struct Store {
    /// Committed token stream (chunk ids and specials).
    pub text: Vec<TokenId>,
    pub sa: Vec<u32>,
    /// Unmerged recent tokens.
    pub buf: Vec<TokenId>,
    /// Unigram counts over body and buffer (specials too).
    pub unigram: FxHashMap<u32, u32>,
    /// Bigram counts over body and buffer, with the left contexts per token and the
    /// count-of-counts.
    pub bigrams: BigramStats,
    pub merge_threshold: usize,
}

impl Store {
    /// Body and buffer.
    pub open spec fn stream(&self) -> Seq<u32> {
        self.text@ + self.buf@
    }

    /// Buffer length at which the body is rebuilt.
    pub open spec fn threshold(&self) -> nat {
        self.merge_threshold as nat
    }

    /// The statistics count the whole stream.
    pub open spec fn synced(&self) -> bool {
        &&& tally::is_tally(self.unigram@, self.stream())
        &&& self.bigrams.counts_stream(self.stream())
    }

    /// The index is that of the body, and the statistics count no more than the stream.
    /// Only with something in the buffer may they count less.
    pub open spec fn wf(&self) -> bool {
        &&& suffix::is_suffix_array(self.text@, self.sa@)
        &&& indexable(self.stream())
        &&& self.stream().len() < i32::MAX
        &&& tally::within_tally(self.unigram@, self.stream())
        &&& self.bigrams.within(self.stream())
        &&& self.buf.len() == 0 ==> self.synced()
    }

    /// What the statistics hold.
    pub open spec fn statistics(&self) -> (
        Map<u32, u32>,
        Map<(u32, u32), u32>,
        Map<u32, u32>,
        (u64, u64, u64, u64),
    ) {
        (
            self.unigram@,
            self.bigrams.counts@,
            self.bigrams.continuation@,
            (self.bigrams.n1, self.bigrams.n2, self.bigrams.n3, self.bigrams.n4),
        )
    }

    pub fn new(merge_threshold: usize) -> (r: Self)
        ensures
            r.wf(),
            r.synced(),
            r.text.len() == 0,
            r.sa.len() == 0,
            r.buf.len() == 0,
            r.threshold() == threshold_for(merge_threshold),
    {
        let merge_threshold: usize = if merge_threshold > 32 {
            merge_threshold
        } else {
            32
        };
        let r = Store {
            text: Vec::new(),
            sa: Vec::new(),
            buf: Vec::new(),
            unigram: fx::new_counts(),
            bigrams: BigramStats::new(),
            merge_threshold,
        };
        proof {
            assert(r.stream() =~= Seq::<u32>::empty());
        }
        r
    }

    pub fn len(&self) -> (r: usize)
        requires
            self.wf(),
        ensures
            r == self.stream().len(),
    {
        self.text.len() + self.buf.len()
    }

    pub fn is_empty(&self) -> (r: bool)
        ensures
            r == (self.stream().len() == 0),
    {
        self.text.len() == 0 && self.buf.len() == 0
    }

    /// Counts one more token of the buffer.
    fn bump_token(&mut self, l: Option<TokenId>, t: TokenId, Ghost(done): Ghost<Seq<u32>>)
        requires
            tally::within_tally(old(self).unigram@, done),
            old(self).bigrams.within(done),
            done.len() < i32::MAX,
            match l {
                Some(l) => done.len() > 0 && done.last() == l,
                None => done.len() == 0,
            },
        ensures
            tally::within_tally(final(self).unigram@, done.push(t)),
            final(self).bigrams.within(done.push(t)),
            tally::is_tally(old(self).unigram@, done) ==> tally::is_tally(
                final(self).unigram@,
                done.push(t),
            ),
            old(self).bigrams.counts_stream(done) ==> final(self).bigrams.counts_stream(
                done.push(t),
            ),
            final(self).text == old(self).text,
            final(self).sa == old(self).sa,
            final(self).buf == old(self).buf,
            final(self).merge_threshold == old(self).merge_threshold,
    {
        proof {
            tally::lemma_occ_bounds(done, t);
            tally::lemma_within_push(self.unigram@, done, t);
            if tally::is_tally(self.unigram@, done) {
                tally::lemma_tally_push(self.unigram@, done, t);
            }
            tally::lemma_pairs_push(done, t);
        }
        let c: u32 = match fx::get_count(&self.unigram, t) {
            Some(v) => v + 1,
            None => 1,
        };
        fx::set_count(&mut self.unigram, t, c);
        match l {
            Some(l) => {
                self.bigrams.bump(l, t, Ghost(done));
            },
            None => {},
        }
    }

    /// The last token of the stream.
    fn last_token(&self) -> (r: Option<TokenId>)
        ensures
            match r {
                Some(l) => self.stream().len() > 0 && self.stream().last() == l,
                None => self.stream().len() == 0,
            },
    {
        if self.buf.len() > 0 {
            Some(self.buf[self.buf.len() - 1])
        } else if self.text.len() > 0 {
            Some(self.text[self.text.len() - 1])
        } else {
            None
        }
    }

    /// Puts SEP, the chunks and EOS behind the buffer.
    fn append_wrapped(&mut self, chunks: &[TokenId])
        requires
            chunks.len() > 0,
        ensures
            final(self).buf@ == old(self).buf@ + wrapped(chunks@),
            final(self).text == old(self).text,
            final(self).sa == old(self).sa,
            final(self).unigram == old(self).unigram,
            final(self).bigrams == old(self).bigrams,
            final(self).merge_threshold == old(self).merge_threshold,
    {
        self.buf.push(SEP);
        let mut i: usize = 0;
        while i < chunks.len()
            invariant
                i <= chunks.len(),
                self.buf@ == old(self).buf@ + seq![SEP] + chunks@.subrange(0, i as int),
                self.text == old(self).text,
                self.sa == old(self).sa,
                self.unigram == old(self).unigram,
                self.bigrams == old(self).bigrams,
                self.merge_threshold == old(self).merge_threshold,
            decreases chunks.len() - i,
        {
            self.buf.push(chunks[i]);
            proof {
                assert(chunks@.subrange(0, i + 1) =~= chunks@.subrange(0, i as int).push(
                    chunks@[i as int],
                ));
            }
            i += 1;
        }
        proof {
            assert(chunks@.subrange(0, i as int) =~= chunks@);
        }
        self.buf.push(EOS);
        proof {
            assert(self.buf@ =~= old(self).buf@ + wrapped(chunks@));
        }
    }

    /// Appends one utterance (already interned chunks), wrapped with SEP..EOS.
    pub fn push_utterance(&mut self, chunks: &[TokenId])
        requires
            old(self).wf(),
            old(self).stream().len() + chunks.len() + 2 < i32::MAX,
            indexable(chunks@),
        ensures
            final(self).wf(),
            final(self).threshold() == old(self).threshold(),
            final(self).stream() == old(self).stream() + wrapped(chunks@),
            (final(self).text@, final(self).buf@) == pushed(
                old(self).text@,
                old(self).buf@,
                old(self).threshold(),
                chunks@,
            ),
            chunks.len() == 0 ==> *final(self) == *old(self),
            final(self).buf.len() > 0 ==> final(self).sa == old(self).sa,
            old(self).synced() ==> final(self).synced(),
    {
        if chunks.len() == 0 {
            proof {
                assert(self.stream() + wrapped(chunks@) =~= self.stream());
            }
            return ;
        }
        let prev_last = self.last_token();
        let start: usize = self.buf.len();
        let ghost before = self.stream();
        self.append_wrapped(chunks);
        proof {
            assert(self.stream() =~= before + wrapped(chunks@));
            assert(indexable(self.stream())) by {
                assert forall|i: int| 0 <= i < self.stream().len() implies #[trigger] self.stream()[i]
                    < u32::MAX - 1 by {
                    if i < before.len() {
                        assert(before[i] < u32::MAX - 1);
                    } else if before.len() < i < self.stream().len() - 1 {
                        assert(self.stream()[i] == chunks@[i - before.len() - 1]);
                    }
                }
            }
            lemma_within_more(self.unigram@, before, wrapped(chunks@));
            lemma_within_pairs(self.bigrams.counts@, before, wrapped(chunks@));
        }
        if self.buf.len() >= self.merge_threshold {
            self.merge();
            proof {
                assert(self.text@ =~= old(self).text@ + old(self).buf@ + wrapped(chunks@));
                assert(self.buf@ =~= Seq::<u32>::empty());
            }
        } else {
            let mut prev: Option<TokenId> = prev_last;
            let mut i: usize = start;
            let ghost mut done: Seq<u32> = before;
            let ghost whole = self.stream();
            while i < self.buf.len()
                invariant
                    start <= i <= self.buf.len(),
                    self.buf@ == old(self).buf@ + wrapped(chunks@),
                    self.text == old(self).text,
                    self.sa == old(self).sa,
                    self.merge_threshold == old(self).merge_threshold,
                    start == old(self).buf.len(),
                    before == old(self).stream(),
                    whole == self.stream(),
                    whole.len() < i32::MAX,
                    done == whole.subrange(0, self.text.len() + i),
                    tally::within_tally(self.unigram@, done),
                    self.bigrams.within(done),
                    tally::is_tally(old(self).unigram@, before) ==> tally::is_tally(
                        self.unigram@,
                        done,
                    ),
                    old(self).bigrams.counts_stream(before) ==> self.bigrams.counts_stream(done),
                    match prev {
                        Some(l) => done.len() > 0 && done.last() == l,
                        None => done.len() == 0,
                    },
                decreases self.buf.len() - i,
            {
                let t: TokenId = self.buf[i];
                proof {
                    assert(whole.subrange(0, self.text.len() + i + 1) =~= done.push(t));
                }
                self.bump_token(prev, t, Ghost(done));
                prev = Some(t);
                proof {
                    done = done.push(t);
                }
                i += 1;
            }
            proof {
                assert(done =~= self.stream());
            }
        }
    }

    /// Appends without statistics or merging. For log replay only: no lookup happens
    /// until the single final `merge`, whose recount makes the end state that of
    /// per-utterance pushes, without rebuilding the index on the way.
    pub fn push_utterance_deferred(&mut self, chunks: &[TokenId])
        requires
            old(self).wf(),
            old(self).stream().len() + chunks.len() + 2 < i32::MAX,
            indexable(chunks@),
        ensures
            final(self).wf(),
            final(self).threshold() == old(self).threshold(),
            final(self).stream() == old(self).stream() + wrapped(chunks@),
            final(self).buf@ == old(self).buf@ + wrapped(chunks@),
            final(self).text == old(self).text,
            final(self).sa == old(self).sa,
            final(self).statistics() == old(self).statistics(),
    {
        let ghost before = self.stream();
        if chunks.len() == 0 {
            proof {
                assert(self.stream() + wrapped(chunks@) =~= self.stream());
                assert(self.buf@ + wrapped(chunks@) =~= self.buf@);
            }
            return ;
        }
        self.append_wrapped(chunks);
        proof {
            assert(self.stream() =~= before + wrapped(chunks@));
            assert(indexable(self.stream())) by {
                assert forall|i: int| 0 <= i < self.stream().len() implies #[trigger] self.stream()[i]
                    < u32::MAX - 1 by {
                    if i < before.len() {
                        assert(before[i] < u32::MAX - 1);
                    } else if before.len() < i < self.stream().len() - 1 {
                        assert(self.stream()[i] == chunks@[i - before.len() - 1]);
                    }
                }
            }
            lemma_within_more(self.unigram@, before, wrapped(chunks@));
            lemma_within_pairs(self.bigrams.counts@, before, wrapped(chunks@));
        }
    }

    /// Moves the buffer into the body and rebuilds the index.
    pub fn merge(&mut self)
        requires
            old(self).wf(),
        ensures
            final(self).wf(),
            final(self).synced(),
            final(self).threshold() == old(self).threshold(),
            final(self).text@ == old(self).stream(),
            final(self).buf.len() == 0,
            final(self).stream() == old(self).stream(),
    {
        if self.buf.len() == 0 && self.text.len() > 0 && self.sa.len() > 0 {
            proof {
                assert(self.stream() =~= self.text@);
            }
            return ;
        }
        let ghost whole = self.stream();
        let mut i: usize = 0;
        while i < self.buf.len()
            invariant
                i <= self.buf.len(),
                self.buf == old(self).buf,
                self.text@ == old(self).text@ + self.buf@.subrange(0, i as int),
                self.merge_threshold == old(self).merge_threshold,
            decreases self.buf.len() - i,
        {
            self.text.push(self.buf[i]);
            proof {
                assert(self.buf@.subrange(0, i + 1) =~= self.buf@.subrange(0, i as int).push(
                    self.buf@[i as int],
                ));
            }
            i += 1;
        }
        proof {
            assert(self.buf@.subrange(0, i as int) =~= self.buf@);
            assert(self.text@ =~= whole);
        }
        self.buf = Vec::new();
        proof {
            assert(self.stream() =~= whole);
        }
        self.rebuild_index();
    }

    /// Rebuilds the index and the statistics from the stream.
    pub fn rebuild_index(&mut self)
        requires
            indexable(old(self).stream()),
            old(self).stream().len() < i32::MAX,
        ensures
            final(self).wf(),
            final(self).synced(),
            final(self).threshold() == old(self).threshold(),
            final(self).text == old(self).text,
            final(self).buf == old(self).buf,
    {
        proof {
            assert forall|i: int| 0 <= i < self.text.len() implies #[trigger] self.text[i] < u32::MAX
                - 1 by {
                assert(self.stream()[i] == self.text[i]);
            }
            assert forall|i: int| 0 <= i < self.text.len() implies #[trigger] sais::raised(
                self.text@,
            )[i] < usize::MAX by {
                assert(self.text[i] < u32::MAX - 1);
            }
        }
        self.sa = sais::suffix_array(&self.text);
        self.recompute_stats();
    }

    fn recompute_stats(&mut self)
        requires
            suffix::is_suffix_array(old(self).text@, old(self).sa@),
            indexable(old(self).stream()),
            old(self).stream().len() < i32::MAX,
        ensures
            final(self).wf(),
            final(self).synced(),
            final(self).merge_threshold == old(self).merge_threshold,
            final(self).text == old(self).text,
            final(self).sa == old(self).sa,
            final(self).buf == old(self).buf,
    {
        // One pass over body and buffer with a cursor.
        let mut unigram = fx::new_counts();
        let mut pairs = fx::new_pair_counts();
        let mut prev: Option<TokenId> = None;
        let n: usize = self.text.len();
        let m: usize = n + self.buf.len();
        let ghost whole = self.stream();
        let ghost mut done: Seq<u32> = Seq::empty();
        let mut i: usize = 0;
        while i < m
            invariant
                n == self.text.len(),
                m == n + self.buf.len(),
                i <= m < i32::MAX,
                whole == self.stream(),
                done == whole.subrange(0, i as int),
                tally::is_tally(unigram@, done),
                tally::is_tally(pairs@, tally::pairs(done)),
                match prev {
                    Some(l) => done.len() > 0 && done.last() == l,
                    None => done.len() == 0,
                },
            decreases m - i,
        {
            let t: TokenId = if i < n {
                self.text[i]
            } else {
                self.buf[i - n]
            };
            proof {
                assert(whole.subrange(0, i + 1) =~= done.push(t));
                tally::lemma_occ_bounds(done, t);
                tally::lemma_tally_push(unigram@, done, t);
                tally::lemma_pairs_push(done, t);
            }
            let c: u32 = match fx::get_count(&unigram, t) {
                Some(v) => v + 1,
                None => 1,
            };
            fx::set_count(&mut unigram, t, c);
            match prev {
                Some(l) => {
                    proof {
                        tally::lemma_occ_bounds(tally::pairs(done), (l, t));
                        tally::lemma_tally_push(pairs@, tally::pairs(done), (l, t));
                    }
                    let c: u32 = match fx::get_pair_count(&pairs, (l, t)) {
                        Some(v) => v + 1,
                        None => 1,
                    };
                    fx::set_pair_count(&mut pairs, (l, t), c);
                },
                None => {},
            }
            prev = Some(t);
            proof {
                done = done.push(t);
            }
            i += 1;
        }
        proof {
            assert(done =~= whole);
        }
        self.unigram = unigram;
        self.bigrams = BigramStats::from_counts(pairs, Ghost(whole));
        proof {
            assert(self.stream() =~= whole);
        }
    }

    /// How many bigrams were seen once, twice, three and four times.
    pub fn bigram_count_of_counts(&self) -> (r: (u64, u64, u64, u64))
        ensures
            r == self.statistics().3,
            self.synced() ==> {
                &&& r.0 == bigram::count_of_counts(self.stream(), 1)
                &&& r.1 == bigram::count_of_counts(self.stream(), 2)
                &&& r.2 == bigram::count_of_counts(self.stream(), 3)
                &&& r.3 == bigram::count_of_counts(self.stream(), 4)
            },
    {
        proof {
            if self.synced() {
                bigram::lemma_counts_stream(self.bigrams, self.stream());
            }
        }
        (self.bigrams.n1, self.bigrams.n2, self.bigrams.n3, self.bigrams.n4)
    }

    /// Next-token counts for an exact context, by ascending token, and their sum: over the
    /// body by the index and over the buffer by scanning.
    pub fn next_counts(&self, ctx: &[TokenId]) -> (r: (Vec<(TokenId, u32)>, u32))
        requires
            self.wf(),
        ensures
            ctx.len() == 0 ==> r.0.len() == 0 && r.1 == 0,
            ctx.len() > 0 ==> {
                let found = nexts::nexts(self.text@, ctx@) + nexts::nexts(self.buf@, ctx@);
                tally::is_table(r.0@, found) && r.1 == found.len()
            },
    {
        if ctx.len() == 0 {
            return (Vec::new(), 0);
        }
        proof {
            nexts::lemma_nexts_len(self.text@, ctx@, self.text.len() as int);
        }
        let body = nexts::count_indexed(&self.text, &self.sa, ctx);
        nexts::finish_counts(body, &self.buf, ctx, Ghost(nexts::nexts(self.text@, ctx@)))
    }

    /// Whether the exact token run occurs in the body or in the buffer.
    pub fn contains_seq(&self, pat: &[TokenId]) -> (r: bool)
        requires
            self.wf(),
        ensures
            r == (pat.len() > 0 && (nexts::occurs_in(self.text@, pat@) || nexts::occurs_in(
                self.buf@,
                pat@,
            ))),
    {
        pat.len() > 0 && self.occurs(pat)
    }

    fn occurs(&self, pat: &[TokenId]) -> (r: bool)
        requires
            self.wf(),
            pat.len() > 0,
        ensures
            r == (nexts::occurs_in(self.text@, pat@) || nexts::occurs_in(self.buf@, pat@)),
    {
        let range = sais::sa_range(&self.text, &self.sa, pat);
        if range.is_some() {
            proof {
                let lo = range.unwrap().0 as int;
                assert(sais::starts_with(self.text@, self.sa[lo] as int, pat@));
            }
            return true;
        }
        proof {
            assert forall|i: int| 0 <= i implies !#[trigger] sais::starts_with(
                self.text@,
                i,
                pat@,
            ) by {
                if sais::starts_with(self.text@, i, pat@) {
                    let a = suffix::lemma_suffix_array_onto(self.text@, self.sa@, i);
                    assert(!sais::starts_with(self.text@, self.sa[a] as int, pat@));
                }
            }
        }
        let mut i: usize = 0;
        while i < self.buf.len()
            invariant
                i <= self.buf.len(),
                pat.len() > 0,
                !nexts::occurs_in(self.text@, pat@),
                forall|x: int| 0 <= x < i ==> !#[trigger] sais::starts_with(self.buf@, x, pat@),
            decreases self.buf.len() - i,
        {
            if nexts::matches_at(&self.buf, i, pat) {
                assert(sais::starts_with(self.buf@, i as int, pat@));
                return true;
            }
            i += 1;
        }
        false
    }

    /// How often a single token stands in the stream (0 if unseen).
    pub fn count_of(&self, id: TokenId) -> (r: u32)
        ensures
            r == (if self.statistics().0.dom().contains(id) {
                self.statistics().0[id]
            } else {
                0
            }),
            self.synced() ==> r == tally::occ(self.stream(), id),
    {
        proof {
            tally::lemma_occ_bounds(self.stream(), id);
            if self.synced() {
                assert(self.unigram@.dom().contains(id) <==> tally::occ(self.stream(), id) > 0);
            }
        }
        match fx::get_count(&self.unigram, id) {
            Some(c) => c,
            None => 0,
        }
    }

    /// Every token of the stream with its count, by ascending token.
    pub fn unigram_counts(&self) -> (r: Vec<(TokenId, u32)>)
        ensures
            nexts::lists(self.statistics().0, r@),
            self.synced() ==> tally::is_table(r@, self.stream()),
    {
        let v = nexts::sorted_counts(&self.unigram);
        proof {
            if self.synced() {
                nexts::lemma_lists_table(self.unigram@, v@, self.stream());
            }
        }
        v
    }

    /// Kneser-Ney unigram: the number of left contexts of each token, by ascending token,
    /// and their sum; the probability of a token is its share of the sum. Without any bigram,
    /// the counts of the tokens themselves.
    pub fn continuation_unigram(&self) -> (r: (Vec<(TokenId, u32)>, u32))
        requires
            self.wf(),
            self.synced(),
        ensures
            r.1 == tally::sum_counts(r.0@),
            self.stream().len() < 2 ==> tally::is_table(r.0@, self.stream()),
            self.stream().len() >= 2 ==> is_continuation_table(r.0@, self.stream()),
    {
        let v = nexts::sorted_counts(&self.bigrams.continuation);
        proof {
            bigram::lemma_counts_stream(self.bigrams, self.stream());
            lemma_continuation_sum(self.bigrams, v@, self.stream());
        }
        let total: u32 = nexts::total_of(&v);
        if total == 0 {
            return self.ml_unigram();
        }
        (v, total)
    }

    /// Maximum-likelihood unigram: the count of each token, by ascending token, and their sum;
    /// the probability of a token is its share of the sum.
    pub fn ml_unigram(&self) -> (r: (Vec<(TokenId, u32)>, u32))
        requires
            self.wf(),
            self.synced(),
        ensures
            tally::is_table(r.0@, self.stream()),
            r.1 == self.stream().len(),
            r.1 == tally::sum_counts(r.0@),
    {
        let v = self.unigram_counts();
        proof {
            tally::lemma_table_sum(v@, self.stream());
        }
        let total: u32 = nexts::total_of(&v);
        (v, total)
    }

    /// Length of the longest prefix of `hay` that occurs in the body or in the buffer.
    pub fn longest_match_len(&self, hay: &[TokenId]) -> (r: usize)
        requires
            self.wf(),
        ensures
            r <= hay.len(),
            r > 0 ==> nexts::occurs_in(self.text@, hay@.subrange(0, r as int)) || nexts::occurs_in(
                self.buf@,
                hay@.subrange(0, r as int),
            ),
            forall|k: int|
                r < k <= hay.len() ==> !nexts::occurs_in(
                    self.text@,
                    #[trigger] hay@.subrange(0, k),
                ) && !nexts::occurs_in(self.buf@, hay@.subrange(0, k)),
    {
        let mut n: usize = hay.len();
        while n > 0
            invariant
                self.wf(),
                n <= hay.len(),
                forall|k: int|
                    n < k <= hay.len() ==> !nexts::occurs_in(
                        self.text@,
                        #[trigger] hay@.subrange(0, k),
                    ) && !nexts::occurs_in(self.buf@, hay@.subrange(0, k)),
            decreases n,
        {
            let pat = vstd::slice::slice_subrange(hay, 0, n);
            if self.occurs(pat) {
                return n;
            }
            n -= 1;
        }
        0
    }
}

/// `v` lists, by ascending token, every token with a left context, with how many it has.
pub open spec fn is_continuation_table(v: Seq<(u32, u32)>, stream: Seq<u32>) -> bool {
    &&& forall|i: int, j: int| 0 <= i < j < v.len() ==> (#[trigger] v[i]).0 < (#[trigger] v[j]).0
    &&& forall|i: int|
        0 <= i < v.len() ==> 0 < (#[trigger] v[i]).1 == bigram::left_contexts(stream, v[i].0)
    &&& forall|w: u32|
        #![trigger bigram::left_contexts(stream, w)]
        bigram::left_contexts(stream, w) > 0 ==> exists|i: int|
            0 <= i < v.len() && (#[trigger] v[i]).0 == w
}

/// Statistics kept utterance by utterance are those of a recount: two stores that count
/// the same stream hold the same statistics, however they came to it.
pub proof fn law_statistics_of_stream(a: Store, b: Store)
    requires
        a.synced(),
        b.synced(),
        a.stream() == b.stream(),
    ensures
        a.statistics() == b.statistics(),
{
    let s = a.stream();
    tally::lemma_tally_unique(a.unigram@, b.unigram@, s);
    tally::lemma_tally_unique(a.bigrams.counts@, b.bigrams.counts@, tally::pairs(s));
    bigram::lemma_counts_stream(a.bigrams, s);
    bigram::lemma_counts_stream(b.bigrams, s);
    assert(a.bigrams.continuation@ =~= b.bigrams.continuation@) by {
        assert forall|w: u32|
            a.bigrams.continuation@.dom().contains(w) <==> b.bigrams.continuation@.dom().contains(
                w,
            ) by {}
    }
}

/// Deferred pushes and one merge end where per-utterance pushes and merges end: merged
/// stores of one stream are equal in text, index and statistics.
pub proof fn law_merged_stores_agree(a: Store, b: Store)
    requires
        a.wf(),
        b.wf(),
        a.buf.len() == 0,
        b.buf.len() == 0,
        a.stream() == b.stream(),
    ensures
        a.text@ == b.text@,
        a.sa@ == b.sa@,
        a.statistics() == b.statistics(),
{
    assert(a.text@ =~= a.stream());
    assert(b.text@ =~= b.stream());
    suffix::lemma_suffix_array_unique(a.text@, a.sa@, b.sa@);
    law_statistics_of_stream(a, b);
}


/// The pairs of a list that end in `w`.
spec fn pairs_ending(ps: Seq<(u32, u32)>, w: u32) -> Set<(u32, u32)> {
    Set::new(|p: (u32, u32)| ps.contains(p) && p.1 == w)
}

/// The second parts of a list of pairs.
spec fn second_parts(ps: Seq<(u32, u32)>) -> Seq<u32> {
    ps.map_values(|p: (u32, u32)| p.1)
}

/// The pairs of a list that end in `w` are as many as the occurrences of `w` as a second part.
proof fn lemma_seconds(ps: Seq<(u32, u32)>, w: u32)
    requires
        ps.no_duplicates(),
    ensures
        pairs_ending(ps, w).finite(),
        pairs_ending(ps, w).len() == tally::occ(second_parts(ps), w),
    decreases ps.len(),
{
    let e = pairs_ending(ps, w);
    let ws = second_parts(ps);
    if ps.len() == 0 {
        assert(e =~= Set::empty());
    } else {
        let front = ps.drop_last();
        let last = ps.last();
        lemma_seconds(front, w);
        let f = pairs_ending(front, w);
        assert(ws.drop_last() =~= second_parts(front));
        assert(!front.contains(last));
        assert forall|p: (u32, u32)| ps.contains(p) <==> (front.contains(p) || p == last) by {
            if ps.contains(p) {
                let i = choose|i: int| 0 <= i < ps.len() && ps[i] == p;
                if i < front.len() {
                    assert(front[i] == p);
                }
            }
            if front.contains(p) {
                let i = choose|i: int| 0 <= i < front.len() && front[i] == p;
                assert(ps[i] == p);
            }
            if p == last {
                assert(ps[ps.len() - 1] == p);
            }
        }
        if last.1 == w {
            assert(e =~= f.insert(last));
        } else {
            assert(e =~= f);
        }
    }
}

/// A finite set can be listed.
proof fn lemma_listing(s: Set<(u32, u32)>) -> (ps: Seq<(u32, u32)>)
    requires
        s.finite(),
    ensures
        ps.no_duplicates(),
        ps.len() == s.len(),
        forall|p: (u32, u32)| #[trigger] ps.contains(p) <==> s.contains(p),
    decreases s.len(),
{
    if s.len() == 0 {
        let ps = Seq::<(u32, u32)>::empty();
        assert forall|p: (u32, u32)| #[trigger] ps.contains(p) <==> s.contains(p) by {}
        ps
    } else {
        let x = s.choose();
        let front = lemma_listing(s.remove(x));
        let ps = front.push(x);
        assert(!front.contains(x));
        assert forall|p: (u32, u32)| #[trigger] ps.contains(p) <==> s.contains(p) by {
            if ps.contains(p) {
                let i = choose|i: int| 0 <= i < ps.len() && ps[i] == p;
                if i < front.len() {
                    assert(front[i] == p);
                    assert(front.contains(p));
                }
            }
            if s.contains(p) {
                if p == x {
                    assert(ps[front.len() as int] == p);
                } else {
                    assert(front.contains(p));
                    let i = choose|i: int| 0 <= i < front.len() && front[i] == p;
                    assert(ps[i] == p);
                }
            }
        }
        ps
    }
}

/// The left contexts of all tokens are as many as there are different bigrams.
proof fn lemma_continuation_sum(s: BigramStats, v: Seq<(u32, u32)>, stream: Seq<u32>)
    requires
        s.counts_stream(stream),
        nexts::lists(s.continuation@, v),
    ensures
        is_continuation_table(v, stream),
        tally::sum_counts(v) <= stream.len(),
        tally::sum_counts(v) == 0 <==> stream.len() < 2,
{
    let b = s.counts@;
    let all = tally::pairs(stream);
    bigram::lemma_counts_stream(s, stream);
    bigram::lemma_dom_bound(b, stream);
    let ps = lemma_listing(b.dom());
    let ws = second_parts(ps);
    assert forall|w: u32| #[trigger] tally::occ(ws, w) == bigram::left_contexts(stream, w) by {
        lemma_seconds(ps, w);
        let e = pairs_ending(ps, w);
        let q = Set::new(
            |p: (u32, u32)| tally::occ(tally::pairs(stream), p) > 0 && p.1 == w,
        );
        assert forall|p: (u32, u32)| e.contains(p) <==> q.contains(p) by {
            assert(ps.contains(p) <==> b.dom().contains(p));
            assert(b.dom().contains(p) <==> tally::occ(all, p) > 0);
        }
        assert(e =~= q);
    }
    assert forall|i: int| 0 <= i < v.len() implies 0 < (#[trigger] v[i]).1 == bigram::left_contexts(
        stream,
        v[i].0,
    ) by {
        assert(s.continuation@.dom().contains(v[i].0));
    }
    assert forall|w: u32|
        #![trigger bigram::left_contexts(stream, w)]
        bigram::left_contexts(stream, w) > 0 implies exists|i: int|
        0 <= i < v.len() && (#[trigger] v[i]).0 == w by {
        assert(s.continuation@.dom().contains(w));
    }
    assert(tally::is_table(v, ws)) by {
        assert forall|i: int| 0 <= i < v.len() implies 0 < (#[trigger] v[i]).1 == tally::occ(
            ws,
            v[i].0,
        ) by {
            assert(tally::occ(ws, v[i].0) == bigram::left_contexts(stream, v[i].0));
        }
    }
    tally::lemma_table_sum(v, ws);
    if stream.len() >= 2 {
        tally::lemma_occ_pos(all, all[0], 0);
        assert(b.dom().contains(all[0]));
        assert(ps.contains(all[0]));
    } else {
        if ps.len() > 0 {
            assert(ps.contains(ps[0]));
            assert(b.dom().contains(ps[0]));
        }
    }
}

proof fn lemma_within_more<T>(m: Map<T, u32>, xs: Seq<T>, ys: Seq<T>)
    requires
        tally::within_tally(m, xs),
    ensures
        tally::within_tally(m, xs + ys),
{
    assert forall|x: T| #[trigger] m.dom().contains(x) implies 0 < m[x] <= tally::occ(
        xs + ys,
        x,
    ) by {
        tally::lemma_occ_add(xs, ys, x);
        tally::lemma_occ_bounds(ys, x);
    }
}

proof fn lemma_within_pairs(m: Map<(u32, u32), u32>, xs: Seq<u32>, ys: Seq<u32>)
    requires
        tally::within_tally(m, tally::pairs(xs)),
    ensures
        tally::within_tally(m, tally::pairs(xs + ys)),
{
    let p = tally::pairs(xs);
    let q = tally::pairs(xs + ys);
    let rest = q.subrange(p.len() as int, q.len() as int);
    assert(q =~= p + rest);
    lemma_within_more(m, p, rest);
}

/// An utterance stands between its marks; nothing said adds nothing.
pub proof fn law_utterances_stand_between_marks(chunks: Seq<u32>)
    ensures
        wrapped(Seq::empty()) == Seq::<u32>::empty(),
        chunks.len() > 0 ==> wrapped(chunks).len() == chunks.len() + 2 && wrapped(chunks).first()
            == 2 && wrapped(chunks).last() == 0 && wrapped(chunks).subrange(
            1,
            chunks.len() as int + 1,
        ) == chunks,
{
    if chunks.len() > 0 {
        assert(wrapped(chunks).subrange(1, chunks.len() as int + 1) =~= chunks);
    }
}

/// One more utterance goes to the end of the stream, whether or not the buffer is merged. The
/// buffer is merged when it reaches the threshold, whole, and the body is left alone before.
pub proof fn law_utterances_go_to_the_end(
    text: Seq<u32>,
    buf: Seq<u32>,
    threshold: nat,
    chunks: Seq<u32>,
)
    ensures
        ({
            let r = pushed(text, buf, threshold, chunks);
            &&& r.0 + r.1 == text + buf + wrapped(chunks)
            &&& r.0 == text || r.1.len() == 0
            &&& chunks.len() > 0 && buf.len() + chunks.len() + 2 < threshold ==> r.0 == text
            &&& chunks.len() > 0 && buf.len() + chunks.len() + 2 >= threshold ==> r.1.len() == 0
            &&& buf.len() < threshold ==> r.1.len() < threshold
        }),
{
    let r = pushed(text, buf, threshold, chunks);
    assert(r.0 + r.1 =~= text + buf + wrapped(chunks));
}

/// A buffer holds 32 tokens at least before it is merged.
pub proof fn law_buffers_are_not_tiny(asked: usize)
    ensures
        threshold_for(asked) >= 32,
        asked >= 32 ==> threshold_for(asked) == asked,
        asked <= 32 ==> threshold_for(asked) == 32,
{
}

} // verus!
