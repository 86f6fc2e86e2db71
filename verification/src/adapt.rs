//! Adapt source: rewrite of a learned exchange, closed over the own log.
//! Two proposals per turn at most:
//!
//! 1. **Adapted reply**: find the learned user utterance most similar to the
//!    current input, take the reply that followed it, and substitute content
//!    chunks that differ between the two inputs.
//!    Rewriting a real exchange keeps the grammar of the original.
//! 2. **Quoted user line**: the past user utterance closest to the current
//!    topic, spoken back (role inversion). The bot remembering the user's
//!    own words is the point; no completeness.
//!
//! Deterministic, no draw. Everything comes from learned turns of the log.
use crate::bits;
use crate::embed;
use crate::embed::HashEmbedder;
use crate::explain::PathKind;
use crate::fx;
use crate::ids::TokenId;
use crate::interest;
use crate::intern;
use crate::intern::Interner;
use crate::mix;
use crate::mix::Pool;
use crate::retrieve;
use crate::store::Store;
use crate::tally;
use crate::tokenizer;
use vstd::prelude::*;

verus! {

#[derive(Debug)]
pub struct Pair {
    pub user_text: String,
    pub user_chunks: Vec<TokenId>,
    pub reply_chunks: Vec<TokenId>,
    /// Signed bins of `user_text`, cached like the retrieve store.
    pub bins: Vec<i64>,
}

/// What was said, and what followed it.
#[verifier::ext_equal]
pub struct Exchange {
    pub user_text: Seq<char>,
    pub user_chunks: Seq<u32>,
    pub reply_chunks: Seq<u32>,
    pub bins: Seq<i64>,
}

impl View for Pair {
    type V = Exchange;

    open spec fn view(&self) -> Exchange {
        Exchange {
            user_text: self.user_text@,
            user_chunks: self.user_chunks@,
            reply_chunks: self.reply_chunks@,
            bins: self.bins@,
        }
    }
}

/// Learned pairs of a user utterance and the reply that followed, oldest first. The same
/// scan cap as retrieve bounds the window.
#[derive(Debug)]
pub struct PairStore {
    pub items: Vec<Pair>,
}

impl View for PairStore {
    type V = Seq<Exchange>;

    open spec fn view(&self) -> Seq<Exchange> {
        self.items@.map_values(|p: Pair| p@)
    }
}

/// Every exchange with its bins.
pub open spec fn with_bins(pairs: Seq<Exchange>, dim: int) -> Seq<Exchange> {
    pairs.map_values(|p: Exchange| binned(p, dim))
}

/// An exchange with its bins.
pub open spec fn binned(p: Exchange, dim: int) -> Exchange {
    Exchange {
        user_text: p.user_text,
        user_chunks: p.user_chunks,
        reply_chunks: p.reply_chunks,
        bins: embed::bins_of(p.user_text, dim),
    }
}

/// `c` is the most similar exchange from `start` on, but for those that begin with the input
/// itself; of equal ones it is the first.
pub open spec fn is_nearest(
    pairs: Seq<Exchange>,
    input: Seq<char>,
    sims: Seq<u32>,
    start: int,
    c: int,
) -> bool {
    &&& start <= c < pairs.len()
    &&& pairs[c].user_text != input
    &&& forall|j: int|
        start <= j < pairs.len() && (#[trigger] pairs[j]).user_text != input ==> bits::key32(sims[j])
            <= bits::key32(sims[c])
    &&& forall|j: int|
        start <= j < c && (#[trigger] pairs[j]).user_text != input ==> bits::key32(sims[j])
            < bits::key32(sims[c])
}

/// Content of the base input that the new input lacks and that the base reply repeats.
pub open spec fn is_old(v: intern::Vocab, base: Exchange, input: Seq<u32>) -> spec_fn(u32) -> bool {
    |id: u32|
        interest::content(v, id) && !input.contains(id) && base.reply_chunks.contains(id)
}

/// Content of the new input that the base input lacks.
pub open spec fn is_new(v: intern::Vocab, base: Exchange) -> spec_fn(u32) -> bool {
    |id: u32| interest::content(v, id) && !base.user_chunks.contains(id)
}

/// How often a token was counted.
pub open spec fn count_in(counts: Map<u32, u32>, id: u32) -> int {
    if counts.dom().contains(id) {
        counts[id] as int
    } else {
        0
    }
}

/// A list with a token put behind the last one that is no more frequent.
pub open spec fn placed(counts: Map<u32, u32>, s: Seq<u32>, x: u32) -> Seq<u32>
    decreases s.len(),
{
    if s.len() == 0 || count_in(counts, s.last()) <= count_in(counts, x) {
        s.push(x)
    } else {
        placed(counts, s.drop_last(), x).push(s.last())
    }
}

/// The tokens, rarest first; equally frequent ones keep their order.
pub open spec fn ranked(counts: Map<u32, u32>, xs: Seq<u32>) -> Seq<u32>
    decreases xs.len(),
{
    if xs.len() == 0 {
        Seq::empty()
    } else {
        placed(counts, ranked(counts, xs.drop_last()), xs.last())
    }
}

/// Every `from` replaced by `to`.
pub open spec fn replaced(xs: Seq<u32>, from: u32, to: u32) -> Seq<u32> {
    xs.map_values(
        |x: u32|
            if x == from {
                to
            } else {
                x
            },
    )
}

/// The first `k` pairs of old and new tokens replaced one after the other.
pub open spec fn rewritten(xs: Seq<u32>, olds: Seq<u32>, news: Seq<u32>, k: int) -> Seq<u32>
    decreases k,
{
    if k <= 0 {
        xs
    } else {
        replaced(rewritten(xs, olds, news, k - 1), olds[k - 1], news[k - 1])
    }
}

/// The most pairs that are replaced.
pub const MAX_SUBSTITUTIONS: usize = 2;

/// How many pairs are replaced.
pub open spec fn substitutions(olds: int, news: int) -> int {
    let n = if olds < news {
        olds
    } else {
        news
    };
    if n < MAX_SUBSTITUTIONS {
        n
    } else {
        MAX_SUBSTITUTIONS as int
    }
}

/// The reply of an exchange, rewritten for a new input.
pub open spec fn adapted(
    counts: Map<u32, u32>,
    v: intern::Vocab,
    base: Exchange,
    input: Seq<u32>,
) -> Seq<u32> {
    let olds = ranked(counts, tally::firsts(base.user_chunks, is_old(v, base, input)));
    let news = ranked(counts, tally::firsts(input, is_new(v, base)));
    rewritten(base.reply_chunks, olds, news, substitutions(olds.len() as int, news.len() as int))
}

/// The pool with the adapted reply of the exchange at `c`.
pub open spec fn with_adapted(
    pool: Seq<mix::Proposed>,
    counts: Map<u32, u32>,
    v: intern::Vocab,
    base: Exchange,
    input: Seq<u32>,
) -> Seq<mix::Proposed> {
    let toks = adapted(counts, v, base, input);
    mix::proposed(
        pool,
        mix::Proposed {
            source: PathKind::Adapt,
            text: tokenizer::spoken(v, toks),
            tokens: toks,
            surprise: None,
        },
    )
}

/// The pool with the user line of an exchange.
pub open spec fn with_quote(pool: Seq<mix::Proposed>, base: Exchange) -> Seq<mix::Proposed> {
    mix::proposed(
        pool,
        mix::Proposed {
            source: PathKind::Adapt,
            text: base.user_text,
            tokens: base.user_chunks,
            surprise: None,
        },
    )
}

fn has_token(xs: &Vec<TokenId>, id: TokenId) -> (r: bool)
    ensures
        r == xs@.contains(id),
{
    let mut i: usize = 0;
    while i < xs.len()
        invariant
            i <= xs.len(),
            forall|k: int| 0 <= k < i ==> xs@[k] != id,
        decreases xs.len() - i,
    {
        if xs[i] == id {
            assert(xs@[i as int] == id);
            return true;
        }
        i += 1;
    }
    false
}

fn place(store: &Store, s: &mut Vec<TokenId>, x: TokenId)
    ensures
        final(s)@ == placed(store.statistics().0, old(s)@, x),
{
    let ghost counts = store.statistics().0;
    let ghost whole = s@;
    let c: u32 = store.count_of(x);
    let mut p: usize = s.len();
    proof {
        assert(whole.take(p as int) =~= whole);
        assert(placed(counts, whole.take(p as int), x) + whole.skip(p as int) =~= placed(
            counts,
            whole,
            x,
        ));
    }
    while p > 0 && store.count_of(s[p - 1]) > c
        invariant
            counts == store.statistics().0,
            c == count_in(counts, x),
            s@ == whole,
            p <= whole.len(),
            placed(counts, whole, x) == placed(counts, whole.take(p as int), x) + whole.skip(
                p as int,
            ),
        decreases p,
    {
        proof {
            let t = whole.take(p as int);
            assert(t.drop_last() =~= whole.take(p - 1));
            assert(placed(counts, t.drop_last(), x).push(t.last()) + whole.skip(p as int) =~= placed(
                counts,
                whole.take(p - 1),
                x,
            ) + whole.skip(p - 1));
        }
        p -= 1;
    }
    proof {
        let t = whole.take(p as int);
        assert(p > 0 ==> t.last() == whole[p - 1]);
        assert(placed(counts, t, x) == t.push(x));
        assert(whole.insert(p as int, x) =~= t.push(x) + whole.skip(p as int));
    }
    s.insert(p, x);
}

fn rank(store: &Store, xs: &Vec<TokenId>) -> (r: Vec<TokenId>)
    ensures
        r@ == ranked(store.statistics().0, xs@),
{
    let mut r: Vec<TokenId> = Vec::new();
    let mut i: usize = 0;
    while i < xs.len()
        invariant
            i <= xs.len(),
            r@ == ranked(store.statistics().0, xs@.take(i as int)),
        decreases xs.len() - i,
    {
        proof {
            assert(xs@.take(i + 1).drop_last() =~= xs@.take(i as int));
        }
        place(store, &mut r, xs[i]);
        i += 1;
    }
    proof {
        assert(xs@.take(i as int) =~= xs@);
    }
    r
}

fn replace(xs: &mut Vec<TokenId>, from: TokenId, to: TokenId)
    ensures
        final(xs)@ == replaced(old(xs)@, from, to),
{
    let mut i: usize = 0;
    while i < xs.len()
        invariant
            i <= xs.len(),
            xs.len() == old(xs).len(),
            forall|k: int| 0 <= k < i ==> #[trigger] xs@[k] == replaced(old(xs)@, from, to)[k],
            forall|k: int| i <= k < xs.len() ==> #[trigger] xs@[k] == old(xs)@[k],
        decreases xs.len() - i,
    {
        if xs[i] == from {
            xs.set(i, to);
        }
        i += 1;
    }
    proof {
        assert(xs@ =~= replaced(old(xs)@, from, to));
    }
}

/// Substitution at chunk level: chunks unique to the base input that occur
/// in the base reply are replaced by chunks unique to the new input.
/// Rarest first on both sides (rarest = most contentful); at most two pairs.
/// No substitution found: the reply proposes as it is (pair-following
/// retrieval is still informative).
pub fn substitute(store: &Store, intern: &Interner, base: &Pair, input_chunks: &Vec<TokenId>) -> (r: Vec<
    TokenId,
>)
    ensures
        r@ == adapted(store.statistics().0, intern@, base@, input_chunks@),
{
    let ghost counts = store.statistics().0;
    let ghost v = intern@;
    let ghost old_one = is_old(v, base@, input_chunks@);
    let ghost new_one = is_new(v, base@);
    let mut old_only: Vec<TokenId> = Vec::new();
    let mut seen = fx::new_ids();
    let mut i: usize = 0;
    while i < base.user_chunks.len()
        invariant
            v == intern@,
            old_one == is_old(v, base@, input_chunks@),
            i <= base.user_chunks.len(),
            old_only@ == tally::firsts(base.user_chunks@.take(i as int), old_one),
            forall|id: u32| #[trigger] seen@.contains(id) <==> old_only@.contains(id),
        decreases base.user_chunks.len() - i,
    {
        let id: TokenId = base.user_chunks[i];
        proof {
            assert(base.user_chunks@.take(i + 1).drop_last() =~= base.user_chunks@.take(i as int));
        }
        if interest::is_content(intern, id) && !has_token(input_chunks, id) && has_token(
            &base.reply_chunks,
            id,
        ) {
            let fresh: bool = fx::add_id(&mut seen, id);
            if fresh {
                let ghost before = old_only@;
                old_only.push(id);
                proof {
                    tally::lemma_push_contains(before, id);
                }
            }
        }
        i += 1;
    }
    let mut new_only: Vec<TokenId> = Vec::new();
    let mut seen_new = fx::new_ids();
    let mut j: usize = 0;
    while j < input_chunks.len()
        invariant
            v == intern@,
            new_one == is_new(v, base@),
            j <= input_chunks.len(),
            new_only@ == tally::firsts(input_chunks@.take(j as int), new_one),
            forall|id: u32| #[trigger] seen_new@.contains(id) <==> new_only@.contains(id),
        decreases input_chunks.len() - j,
    {
        let id: TokenId = input_chunks[j];
        proof {
            assert(input_chunks@.take(j + 1).drop_last() =~= input_chunks@.take(j as int));
        }
        if interest::is_content(intern, id) && !has_token(&base.user_chunks, id) {
            let fresh: bool = fx::add_id(&mut seen_new, id);
            if fresh {
                let ghost before = new_only@;
                new_only.push(id);
                proof {
                    tally::lemma_push_contains(before, id);
                }
            }
        }
        j += 1;
    }
    proof {
        assert(base.user_chunks@.take(i as int) =~= base.user_chunks@);
        assert(input_chunks@.take(j as int) =~= input_chunks@);
    }
    let olds = rank(store, &old_only);
    let news = rank(store, &new_only);
    let mut out = mix::copy_tokens(&base.reply_chunks);
    let mut k: usize = 0;
    while k < MAX_SUBSTITUTIONS && k < olds.len() && k < news.len()
        invariant
            k <= substitutions(olds.len() as int, news.len() as int),
            out@ == rewritten(base.reply_chunks@, olds@, news@, k as int),
        decreases MAX_SUBSTITUTIONS - k,
    {
        replace(&mut out, olds[k], news[k]);
        k += 1;
    }
    out
}

impl PairStore {
    pub fn new() -> (r: Self)
        ensures
            r@ == Seq::<Exchange>::empty(),
    {
        let r = PairStore { items: Vec::new() };
        proof {
            assert(r@ =~= Seq::<Exchange>::empty());
        }
        r
    }

    pub fn len(&self) -> (r: usize)
        ensures
            r == self@.len(),
    {
        self.items.len()
    }

    /// Replay-time push without bins; `finish` fills them in bulk.
    pub fn push_raw(
        &mut self,
        user_text: String,
        user_chunks: Vec<TokenId>,
        reply_chunks: Vec<TokenId>,
    )
        ensures
            final(self)@ == old(self)@.push(
                (Exchange {
                    user_text: user_text@,
                    user_chunks: user_chunks@,
                    reply_chunks: reply_chunks@,
                    bins: Seq::empty(),
                }),
            ),
    {
        self.items.push(Pair { user_text, user_chunks, reply_chunks, bins: Vec::new() });
        proof {
            assert(self@ =~= old(self)@.push(
                Exchange {
                    user_text: user_text@,
                    user_chunks: user_chunks@,
                    reply_chunks: reply_chunks@,
                    bins: Seq::empty(),
                },
            ));
        }
    }

    /// Trims to the scan window, then fills in the bins. Called once at the end of replay.
    pub fn finish(&mut self, embedder: &HashEmbedder, scan_cap: usize)
        requires
            embedder.wf(),
            forall|i: int|
                0 <= i < old(self)@.len() ==> (#[trigger] old(self)@[i]).user_text.len()
                    < 0x1000_0000_0000_0000,
        ensures
            final(self)@ == with_bins(
                old(self)@.subrange(
                    retrieve::scan_from(old(self)@.len() as int, scan_cap as int),
                    old(self)@.len() as int,
                ),
                embedder.dim as int,
            ),
    {
        let cut: usize = retrieve::scan_start(self.items.len(), scan_cap);
        let ghost kept = self@.subrange(cut as int, self@.len() as int);
        let ghost dim = embedder.dim as int;
        let mut items: Vec<Pair> = Vec::new();
        let mut i: usize = cut;
        while i < self.items.len()
            invariant
                embedder.wf(),
                dim == embedder.dim,
                cut <= i <= self.items.len(),
                *self == *old(self),
                kept == self@.subrange(cut as int, self@.len() as int),
                forall|k: int|
                    0 <= k < self@.len() ==> (#[trigger] self@[k]).user_text.len()
                        < 0x1000_0000_0000_0000,
                items.len() == i - cut,
                forall|k: int|
                    0 <= k < items.len() ==> (#[trigger] items[k])@ == with_bins(kept, dim)[k],
            decreases self.items.len() - i,
        {
            assert(self@[i as int].user_text.len() < 0x1000_0000_0000_0000);
            let p = &self.items[i];
            let bins = embedder.embed(p.user_text.as_str());
            let item = Pair {
                user_text: p.user_text.clone(),
                user_chunks: mix::copy_tokens(&p.user_chunks),
                reply_chunks: mix::copy_tokens(&p.reply_chunks),
                bins,
            };
            proof {
                assert(item@ =~= with_bins(kept, dim)[i - cut]);
            }
            items.push(item);
            i += 1;
        }
        self.items = items;
        proof {
            assert(self@ =~= with_bins(kept, dim));
        }
    }

    /// Live push with an amortised front-trim (keeping twice the cap keeps behaviour exact,
    /// same rule as the retrieve store).
    pub fn push_live(
        &mut self,
        embedder: &HashEmbedder,
        user_text: String,
        user_chunks: Vec<TokenId>,
        reply_chunks: Vec<TokenId>,
        scan_cap: usize,
    )
        requires
            embedder.wf(),
            user_text@.len() < 0x1000_0000_0000_0000,
        ensures
            final(self)@ == old(self)@.push(
                (Exchange {
                    user_text: user_text@,
                    user_chunks: user_chunks@,
                    reply_chunks: reply_chunks@,
                    bins: embed::bins_of(user_text@, embedder.dim as int),
                }),
            ).skip(retrieve::overflow(old(self)@.len() as int + 1, scan_cap as int)),
    {
        let bins = embedder.embed(user_text.as_str());
        let ghost one = Exchange {
            user_text: user_text@,
            user_chunks: user_chunks@,
            reply_chunks: reply_chunks@,
            bins: embed::bins_of(user_text@, embedder.dim as int),
        };
        self.items.push(Pair { user_text, user_chunks, reply_chunks, bins });
        proof {
            assert(self@ =~= old(self)@.push(one));
        }
        let cut: usize = retrieve::overflow_of(self.items.len(), scan_cap);
        if cut > 0 {
            let kept = self.items.split_off(cut);
            self.items = kept;
        }
        proof {
            assert(self@ =~= old(self)@.push(one).skip(cut as int));
        }
    }

    /// The most similar exchange of the scan window that does not begin with the input.
    pub fn nearest(&self, input: &str, sims: &Vec<u32>, scan_cap: usize) -> (r: Option<usize>)
        requires
            sims.len() == self@.len(),
        ensures
            match r {
                Some(c) => is_nearest(
                    self@,
                    input@,
                    sims@,
                    retrieve::scan_from(self@.len() as int, scan_cap as int),
                    c as int,
                ),
                None => forall|j: int|
                    retrieve::scan_from(self@.len() as int, scan_cap as int) <= j < self@.len()
                        ==> (#[trigger] self@[j]).user_text == input@,
            },
    {
        let input_s = input.to_owned();
        let start: usize = retrieve::scan_start(self.items.len(), scan_cap);
        let mut best: Option<usize> = None;
        let mut i: usize = start;
        while i < self.items.len()
            invariant
                start <= i <= self.items.len(),
                input_s@ == input@,
                sims.len() == self@.len(),
                match best {
                    Some(b) => {
                        &&& start <= b < i
                        &&& self@[b as int].user_text != input@
                        &&& forall|j: int|
                            start <= j < i && (#[trigger] self@[j]).user_text != input@
                                ==> bits::key32(sims[j]) <= bits::key32(sims[b as int])
                        &&& forall|j: int|
                            start <= j < b && (#[trigger] self@[j]).user_text != input@
                                ==> bits::key32(sims[j]) < bits::key32(sims[b as int])
                    },
                    None => forall|j: int|
                        start <= j < i ==> (#[trigger] self@[j]).user_text == input@,
                },
            decreases self.items.len() - i,
        {
            if !(self.items[i].user_text == input_s) {
                let better: bool = match best {
                    Some(b) => bits::order32(sims[i]) > bits::order32(sims[b]),
                    None => true,
                };
                if better {
                    best = Some(i);
                }
            }
            i += 1;
        }
        best
    }

    /// Proposes into the pool. `input_sims` compare the input with the user lines,
    /// `topic_sims` pick the quoted user line (avoids plain echo of the input).
    pub fn propose(
        &self,
        pool: &mut Pool,
        intern: &Interner,
        store: &Store,
        input: &str,
        input_chunks: &Vec<TokenId>,
        input_sims: &Vec<u32>,
        topic_sims: &Vec<u32>,
        n_adapt: usize,
        scan_cap: usize,
    )
        requires
            input_sims.len() == self@.len(),
            topic_sims.len() == self@.len(),
        ensures
            is_adapted_pool(
                self@,
                old(pool)@,
                final(pool)@,
                store.statistics().0,
                intern@,
                input@,
                input_chunks@,
                input_sims@,
                topic_sims@,
                n_adapt as int,
                retrieve::scan_from(self@.len() as int, scan_cap as int),
            ),
    {
        if self.items.len() == 0 || n_adapt == 0 {
            return ;
        }
        let ghost start = retrieve::scan_from(self@.len() as int, scan_cap as int);
        let first = self.nearest(input, input_sims, scan_cap);
        match first {
            Some(c) => {
                let toks = substitute(store, intern, &self.items[c], input_chunks);
                let text = tokenizer::speak(intern, &toks);
                pool.push(PathKind::Adapt, text, toks);
                proof {
                    assert(is_nearest(self@, input@, input_sims@, start, c as int));
                    assert(!only_echoes(self@, input@, start));
                    assert(pool@ == with_adapted(
                        old(pool)@,
                        store.statistics().0,
                        intern@,
                        self@[c as int],
                        input_chunks@,
                    ));
                }
            },
            None => {
                proof {
                    assert(only_echoes(self@, input@, start));
                }
            },
        }
        let ghost one = pool@;
        if n_adapt >= 2 {
            let quote = self.nearest(input, topic_sims, scan_cap);
            match quote {
                Some(c) => {
                    let p = &self.items[c];
                    pool.push(
                        PathKind::Adapt,
                        p.user_text.clone(),
                        mix::copy_tokens(&p.user_chunks),
                    );
                    proof {
                        assert(is_nearest(self@, input@, topic_sims@, start, c as int));
                        assert(pool@ == with_quote(one, self@[c as int]));
                        assert(!only_echoes(self@, input@, start));
                    }
                },
                None => {
                    proof {
                        assert(only_echoes(self@, input@, start));
                    }
                },
            }
        }
        proof {
            match first {
                Some(a) => {
                    assert(is_quoted_pool(
                        self@,
                        one,
                        pool@,
                        input@,
                        topic_sims@,
                        n_adapt as int,
                        start,
                    ));
                    assert(is_nearest(self@, input@, input_sims@, start, a as int));
                },
                None => {
                    assert(pool@ == old(pool)@);
                },
            }
        }
    }
}

/// Every exchange of the window begins with the input.
pub open spec fn only_echoes(pairs: Seq<Exchange>, input: Seq<char>, start: int) -> bool {
    forall|j: int| start <= j < pairs.len() ==> (#[trigger] pairs[j]).user_text == input
}

/// What the source proposes: with something other than the input in the window, first the
/// adapted reply of the exchange nearest to the input; from two proposals on, then the user line
/// of the one nearest to the topic.
pub open spec fn is_adapted_pool(
    pairs: Seq<Exchange>,
    before: Seq<mix::Proposed>,
    after: Seq<mix::Proposed>,
    counts: Map<u32, u32>,
    v: intern::Vocab,
    input: Seq<char>,
    input_chunks: Seq<u32>,
    input_sims: Seq<u32>,
    topic_sims: Seq<u32>,
    n_adapt: int,
    start: int,
) -> bool {
    if n_adapt == 0 || only_echoes(pairs, input, start) {
        after == before
    } else {
        exists|a: int|
            {
                &&& #[trigger] is_nearest(pairs, input, input_sims, start, a)
                &&& is_quoted_pool(
                    pairs,
                    with_adapted(before, counts, v, pairs[a], input_chunks),
                    after,
                    input,
                    topic_sims,
                    n_adapt,
                    start,
                )
            }
    }
}

/// What the second proposal adds.
pub open spec fn is_quoted_pool(
    pairs: Seq<Exchange>,
    before: Seq<mix::Proposed>,
    after: Seq<mix::Proposed>,
    input: Seq<char>,
    topic_sims: Seq<u32>,
    n_adapt: int,
    start: int,
) -> bool {
    if n_adapt < 2 {
        after == before
    } else {
        exists|q: int|
            #[trigger] is_nearest(pairs, input, topic_sims, start, q) && after == with_quote(
                before,
                pairs[q],
            )
    }
}

/// There is one nearest exchange at most.
pub proof fn law_nearest_is_one(
    pairs: Seq<Exchange>,
    input: Seq<char>,
    sims: Seq<u32>,
    start: int,
    a: int,
    b: int,
)
    requires
        is_nearest(pairs, input, sims, start, a),
        is_nearest(pairs, input, sims, start, b),
    ensures
        a == b,
{
    if a < b {
        assert(pairs[a].user_text != input);
    }
    if b < a {
        assert(pairs[b].user_text != input);
    }
}

/// Ranking loses and adds nothing, and puts rare tokens first.
pub proof fn law_rarest_first(counts: Map<u32, u32>, xs: Seq<u32>)
    ensures
        ranked(counts, xs).to_multiset() == xs.to_multiset(),
        forall|i: int, j: int|
            0 <= i < j < ranked(counts, xs).len() ==> count_in(
                counts,
                #[trigger] ranked(counts, xs)[i],
            ) <= count_in(counts, #[trigger] ranked(counts, xs)[j]),
    decreases xs.len(),
{
    broadcast use vstd::seq_lib::group_to_multiset_ensures;

    if xs.len() > 0 {
        let front = ranked(counts, xs.drop_last());
        law_rarest_first(counts, xs.drop_last());
        lemma_placed(counts, front, xs.last());
        assert(xs =~= xs.drop_last().push(xs.last()));
    }
}

proof fn lemma_placed(counts: Map<u32, u32>, s: Seq<u32>, x: u32)
    requires
        forall|i: int, j: int|
            0 <= i < j < s.len() ==> count_in(counts, #[trigger] s[i]) <= count_in(
                counts,
                #[trigger] s[j],
            ),
    ensures
        placed(counts, s, x).to_multiset() == s.to_multiset().insert(x),
        forall|i: int, j: int|
            0 <= i < j < placed(counts, s, x).len() ==> count_in(
                counts,
                #[trigger] placed(counts, s, x)[i],
            ) <= count_in(counts, #[trigger] placed(counts, s, x)[j]),
        forall|i: int|
            0 <= i < placed(counts, s, x).len() ==> #[trigger] placed(counts, s, x)[i] == x
                || s.contains(placed(counts, s, x)[i]),
    decreases s.len(),
{
    broadcast use vstd::seq_lib::group_to_multiset_ensures;

    if s.len() == 0 || count_in(counts, s.last()) <= count_in(counts, x) {
        let r = s.push(x);
        assert forall|i: int, j: int| 0 <= i < j < r.len() implies count_in(counts, #[trigger] r[i])
            <= count_in(counts, #[trigger] r[j]) by {
            if j == s.len() {
                assert(count_in(counts, s[i]) <= count_in(counts, s[s.len() - 1]));
            }
        }
    } else {
        let d = s.drop_last();
        lemma_placed(counts, d, x);
        let q = placed(counts, d, x);
        let r = q.push(s.last());
        assert(s =~= d.push(s.last()));
        assert(s.to_multiset().insert(x) =~= d.to_multiset().insert(x).insert(s.last()));
        assert forall|i: int, j: int| 0 <= i < j < r.len() implies count_in(counts, #[trigger] r[i])
            <= count_in(counts, #[trigger] r[j]) by {
            if j == q.len() {
                if q[i] != x {
                    let k = choose|k: int| 0 <= k < d.len() && d[k] == q[i];
                    assert(count_in(counts, s[k]) <= count_in(counts, s[s.len() - 1]));
                }
            }
        }
        assert forall|i: int| 0 <= i < r.len() implies #[trigger] r[i] == x || s.contains(r[i]) by {
            if i < q.len() {
                assert(q[i] == x || d.contains(q[i]));
                if q[i] != x {
                    let k = choose|k: int| 0 <= k < d.len() && d[k] == q[i];
                    assert(s[k] == r[i]);
                }
            } else {
                assert(s[s.len() - 1] == r[i]);
            }
        }
    }
}

proof fn lemma_firsts_inside(xs: Seq<u32>, wanted: spec_fn(u32) -> bool, y: u32)
    requires
        tally::firsts(xs, wanted).contains(y),
    ensures
        xs.contains(y),
    decreases xs.len(),
{
    if xs.len() > 0 {
        let front = tally::firsts(xs.drop_last(), wanted);
        if y == xs.last() {
            assert(xs[xs.len() - 1] == y);
        } else {
            tally::lemma_push_contains(front, xs.last());
            lemma_firsts_inside(xs.drop_last(), wanted, y);
            let i = choose|i: int| 0 <= i < xs.drop_last().len() && xs.drop_last()[i] == y;
            assert(xs[i] == y);
        }
    }
}

proof fn lemma_rewritten_inside(xs: Seq<u32>, olds: Seq<u32>, news: Seq<u32>, k: int, i: int)
    requires
        0 <= k <= news.len(),
        0 <= i < rewritten(xs, olds, news, k).len(),
    ensures
        xs.contains(rewritten(xs, olds, news, k)[i]) || news.contains(
            rewritten(xs, olds, news, k)[i],
        ),
    decreases k,
{
    if k > 0 {
        lemma_rewritten_inside(xs, olds, news, k - 1, i);
        assert(news[k - 1] == news[k - 1]);
    } else {
        assert(xs[i] == xs[i]);
    }
}

/// An adapted reply says nothing of its own: every token stood in the remembered reply or
/// stands in the input.
pub proof fn law_adapted_is_closed(
    counts: Map<u32, u32>,
    v: intern::Vocab,
    base: Exchange,
    input: Seq<u32>,
    i: int,
)
    requires
        0 <= i < adapted(counts, v, base, input).len(),
    ensures
        base.reply_chunks.contains(adapted(counts, v, base, input)[i]) || input.contains(
            adapted(counts, v, base, input)[i],
        ),
{
    broadcast use vstd::seq_lib::group_to_multiset_ensures;

    let olds = ranked(counts, tally::firsts(base.user_chunks, is_old(v, base, input)));
    let first = tally::firsts(input, is_new(v, base));
    let news = ranked(counts, first);
    let k = substitutions(olds.len() as int, news.len() as int);
    lemma_rewritten_inside(base.reply_chunks, olds, news, k, i);
    let x = adapted(counts, v, base, input)[i];
    if news.contains(x) {
        law_rarest_first(counts, first);
        assert(news.to_multiset().count(x) > 0);
        assert(first.contains(x));
        lemma_firsts_inside(input, is_new(v, base), x);
    }
}

// ---- what a rewriting does ----
/// A word by which the remembered input differs from the new one: it carries meaning, stands in
/// the remembered input and its reply, and not in the new input.
pub open spec fn outdated(v: intern::Vocab, base: Exchange, input: Seq<u32>, w: u32) -> bool {
    &&& interest::content(v, w)
    &&& base.user_chunks.contains(w)
    &&& base.reply_chunks.contains(w)
    &&& !input.contains(w)
}

/// A word by which the new input differs from the remembered one.
pub open spec fn fresh(v: intern::Vocab, base: Exchange, input: Seq<u32>, w: u32) -> bool {
    interest::content(v, w) && input.contains(w) && !base.user_chunks.contains(w)
}

proof fn lemma_ranked_same(counts: Map<u32, u32>, xs: Seq<u32>)
    requires
        xs.no_duplicates(),
    ensures
        forall|y: u32| #[trigger] ranked(counts, xs).contains(y) <==> xs.contains(y),
        ranked(counts, xs).no_duplicates(),
        ranked(counts, xs).len() == xs.len(),
{
    broadcast use vstd::seq_lib::group_to_multiset_ensures;

    law_rarest_first(counts, xs);
    let r = ranked(counts, xs);
    assert forall|y: u32| #[trigger] r.contains(y) <==> xs.contains(y) by {
        assert(r.to_multiset().count(y) > 0 <==> r.contains(y));
        assert(xs.to_multiset().count(y) > 0 <==> xs.contains(y));
    }
    assert(r.len() == r.to_multiset().len());
    assert(xs.len() == xs.to_multiset().len());
    xs.lemma_multiset_has_no_duplicates();
    assert forall|x: u32| r.to_multiset().contains(x) implies r.to_multiset().count(x) == 1 by {
        assert(xs.to_multiset().contains(x));
    }
    r.lemma_multiset_has_no_duplicates_conv();
}

proof fn lemma_rewritten_at(xs: Seq<u32>, olds: Seq<u32>, news: Seq<u32>, k: int, p: int)
    requires
        0 <= k <= olds.len(),
        k <= news.len(),
        0 <= p < xs.len(),
        olds.no_duplicates(),
        forall|i: int, j: int|
            0 <= i < olds.len() && 0 <= j < news.len() ==> #[trigger] olds[i] != #[trigger] news[j],
    ensures
        rewritten(xs, olds, news, k).len() == xs.len(),
        (forall|m: int| 0 <= m < k ==> #[trigger] olds[m] != xs[p]) ==> rewritten(
            xs,
            olds,
            news,
            k,
        )[p] == xs[p],
        forall|m: int|
            0 <= m < k && #[trigger] olds[m] == xs[p] ==> rewritten(xs, olds, news, k)[p]
                == news[m],
    decreases k,
{
    if k > 0 {
        lemma_rewritten_at(xs, olds, news, k - 1, p);
        let before = rewritten(xs, olds, news, k - 1);
        if exists|m: int| 0 <= m < k - 1 && #[trigger] olds[m] == xs[p] {
            let m = choose|m: int| 0 <= m < k - 1 && #[trigger] olds[m] == xs[p];
            assert(before[p] == news[m]);
            assert(olds[k - 1] != news[m]);
        } else {
            assert(before[p] == xs[p]);
        }
    }
}

/// How the words are paired: the outdated ones and the fresh ones, each rarest first.
proof fn lemma_pairing(
    counts: Map<u32, u32>,
    v: intern::Vocab,
    base: Exchange,
    input: Seq<u32>,
) -> (r: (Seq<u32>, Seq<u32>))
    ensures
        r.0.no_duplicates(),
        r.1.no_duplicates(),
        forall|w: u32| #[trigger] r.0.contains(w) <==> outdated(v, base, input, w),
        forall|w: u32| #[trigger] r.1.contains(w) <==> fresh(v, base, input, w),
        forall|i: int, j: int|
            0 <= i < r.0.len() && 0 <= j < r.1.len() ==> #[trigger] r.0[i] != #[trigger] r.1[j],
        forall|i: int, j: int|
            0 <= i < j < r.0.len() ==> count_in(counts, #[trigger] r.0[i]) <= count_in(
                counts,
                #[trigger] r.0[j],
            ),
        forall|i: int, j: int|
            0 <= i < j < r.1.len() ==> count_in(counts, #[trigger] r.1[i]) <= count_in(
                counts,
                #[trigger] r.1[j],
            ),
        adapted(counts, v, base, input) == rewritten(
            base.reply_chunks,
            r.0,
            r.1,
            substitutions(r.0.len() as int, r.1.len() as int),
        ),
{
    let a = tally::firsts(base.user_chunks, is_old(v, base, input));
    let b = tally::firsts(input, is_new(v, base));
    tally::law_firsts_lists_each_once(base.user_chunks, is_old(v, base, input));
    tally::law_firsts_lists_each_once(input, is_new(v, base));
    law_rarest_first(counts, a);
    law_rarest_first(counts, b);
    lemma_ranked_same(counts, a);
    lemma_ranked_same(counts, b);
    let (olds, news) = (ranked(counts, a), ranked(counts, b));
    assert forall|i: int, j: int| 0 <= i < olds.len() && 0 <= j < news.len() implies #[trigger] olds[i]
        != #[trigger] news[j] by {
        assert(olds.contains(olds[i]));
        assert(news.contains(news[j]));
    }
    (olds, news)
}

/// Only what differs is swapped: a place of the remembered reply keeps its word, or it held a
/// word that carries meaning, stands in the remembered input and not in the new one, and now
/// holds one that carries meaning, stands in the new input and not in the remembered one. So a
/// word that the two inputs share stays where it is.
pub proof fn law_only_what_differs_is_swapped(
    counts: Map<u32, u32>,
    v: intern::Vocab,
    base: Exchange,
    input: Seq<u32>,
    p: int,
)
    requires
        0 <= p < base.reply_chunks.len(),
    ensures
        ({
            let was = base.reply_chunks[p];
            let now = adapted(counts, v, base, input)[p];
            &&& adapted(counts, v, base, input).len() == base.reply_chunks.len()
            &&& now != was ==> {
                &&& interest::content(v, was)
                &&& base.user_chunks.contains(was)
                &&& !input.contains(was)
                &&& interest::content(v, now)
                &&& input.contains(now)
                &&& !base.user_chunks.contains(now)
            }
            &&& input.contains(was) ==> now == was
            &&& !base.user_chunks.contains(was) ==> now == was
        }),
{
    let (olds, news) = lemma_pairing(counts, v, base, input);
    let k = substitutions(olds.len() as int, news.len() as int);
    let was = base.reply_chunks[p];
    lemma_rewritten_at(base.reply_chunks, olds, news, k, p);
    if exists|m: int| 0 <= m < k && #[trigger] olds[m] == was {
        let m = choose|m: int| 0 <= m < k && #[trigger] olds[m] == was;
        assert(olds.contains(olds[m]));
        assert(news.contains(news[m]));
    }
}

/// The word that differs goes: where one word is outdated and the new input has a word of its
/// own, the outdated one is gone from the reply, and in each of its places stands a fresh word
/// than which no other is rarer.
pub proof fn law_the_word_that_differs_goes(
    counts: Map<u32, u32>,
    v: intern::Vocab,
    base: Exchange,
    input: Seq<u32>,
    w: u32,
    own: u32,
)
    requires
        outdated(v, base, input, w),
        forall|x: u32| #[trigger] outdated(v, base, input, x) ==> x == w,
        fresh(v, base, input, own),
    ensures
        !adapted(counts, v, base, input).contains(w),
        forall|p: int|
            0 <= p < base.reply_chunks.len() && base.reply_chunks[p] == w ==> {
                let now = #[trigger] adapted(counts, v, base, input)[p];
                fresh(v, base, input, now) && count_in(counts, now) <= count_in(counts, own)
            },
{
    let (olds, news) = lemma_pairing(counts, v, base, input);
    let k = substitutions(olds.len() as int, news.len() as int);
    let r = adapted(counts, v, base, input);
    assert(olds.contains(w));
    let m = choose|m: int| 0 <= m < olds.len() && olds[m] == w;
    assert forall|i: int| 0 <= i < olds.len() implies #[trigger] olds[i] == w by {
        assert(olds.contains(olds[i]));
    }
    if olds.len() > 1 {
        assert(olds[0] == olds[1]);
    }
    assert(news.contains(own));
    let n = choose|n: int| 0 <= n < news.len() && news[n] == own;
    assert(news.contains(news[0]));
    if n > 0 {
        assert(count_in(counts, news[0]) <= count_in(counts, news[n]));
    }
    lemma_rewritten_len(base.reply_chunks, olds, news, k);
    assert forall|p: int| 0 <= p < r.len() implies #[trigger] r[p] != w by {
        law_only_what_differs_is_swapped(counts, v, base, input, p);
        lemma_rewritten_at(base.reply_chunks, olds, news, k, p);
        if base.reply_chunks[p] == w {
            assert(olds[0] == base.reply_chunks[p]);
        }
    }
    assert forall|p: int| 0 <= p < base.reply_chunks.len() && base.reply_chunks[p] == w implies ({
        let now = #[trigger] r[p];
        fresh(v, base, input, now) && count_in(counts, now) <= count_in(counts, own)
    }) by {
        lemma_rewritten_at(base.reply_chunks, olds, news, k, p);
        assert(olds[0] == base.reply_chunks[p]);
    }
}

proof fn lemma_rewritten_len(xs: Seq<u32>, olds: Seq<u32>, news: Seq<u32>, k: int)
    ensures
        rewritten(xs, olds, news, k).len() == xs.len(),
    decreases k,
{
    if k > 0 {
        lemma_rewritten_len(xs, olds, news, k - 1);
    }
}

/// With outdated and fresh words at hand something is swapped, the rarest outdated word before
/// any other; a word is swapped everywhere or nowhere, for one and the same; and no more than
/// two words are swapped.
pub proof fn law_the_rarest_words_are_swapped(
    counts: Map<u32, u32>,
    v: intern::Vocab,
    base: Exchange,
    input: Seq<u32>,
    p: int,
    q: int,
    r: int,
)
    requires
        0 <= p < base.reply_chunks.len(),
        0 <= q < base.reply_chunks.len(),
        0 <= r < base.reply_chunks.len(),
    ensures
        ({
            let was = base.reply_chunks;
            let now = adapted(counts, v, base, input);
            &&& was[p] == was[q] ==> now[p] == now[q]
            &&& now[p] != was[p] && now[q] != was[q] && was[p] != was[q] ==> now[p] != now[q]
            &&& now[q] != was[q] && outdated(v, base, input, was[p]) && count_in(counts, was[p])
                < count_in(counts, was[q]) ==> now[p] != was[p]
            &&& now[p] != was[p] && now[q] != was[q] && now[r] != was[r] ==> was[p] == was[q]
                || was[q] == was[r] || was[p] == was[r]
        }),
{
    let (olds, news) = lemma_pairing(counts, v, base, input);
    let k = substitutions(olds.len() as int, news.len() as int);
    let was = base.reply_chunks;
    lemma_rewritten_at(was, olds, news, k, p);
    lemma_rewritten_at(was, olds, news, k, q);
    lemma_rewritten_at(was, olds, news, k, r);
    if outdated(v, base, input, was[p]) {
        assert(olds.contains(was[p]));
    }
    if outdated(v, base, input, was[q]) {
        assert(olds.contains(was[q]));
    }
    assert(k <= 2);
}

/// The exchange that is rewritten is the one most like the input among those that do not begin
/// with the input itself, and of equally similar ones the oldest.
pub proof fn law_the_nearest_is_the_most_similar(
    pairs: Seq<Exchange>,
    input: Seq<char>,
    sims: Seq<u32>,
    start: int,
    c: int,
    j: int,
)
    requires
        is_nearest(pairs, input, sims, start, c),
        start <= j < pairs.len(),
        pairs[j].user_text != input,
    ensures
        start <= c < pairs.len(),
        pairs[c].user_text != input,
        bits::key32(sims[j]) <= bits::key32(sims[c]),
        j < c ==> bits::key32(sims[j]) < bits::key32(sims[c]),
{
}

/// The source proposes an adapted reply and, from two proposals on, a quoted line; nothing
/// where it is switched off or remembers only the input itself.
pub proof fn law_adapt_proposes_up_to_two(
    pairs: Seq<Exchange>,
    before: Seq<mix::Proposed>,
    after: Seq<mix::Proposed>,
    counts: Map<u32, u32>,
    v: intern::Vocab,
    input: Seq<char>,
    chunks: Seq<u32>,
    input_sims: Seq<u32>,
    topic_sims: Seq<u32>,
    n_adapt: int,
    start: int,
)
    requires
        0 <= n_adapt,
        is_adapted_pool(
            pairs,
            before,
            after,
            counts,
            v,
            input,
            chunks,
            input_sims,
            topic_sims,
            n_adapt,
            start,
        ),
    ensures
        n_adapt == 0 ==> after == before,
        (forall|j: int| start <= j < pairs.len() ==> (#[trigger] pairs[j]).user_text == input)
            ==> after == before,
        before.len() <= after.len() <= before.len() + 2,
        n_adapt == 1 ==> after.len() <= before.len() + 1,
        forall|i: int| 0 <= i < before.len() ==> #[trigger] after[i] == before[i],
        forall|i: int|
            before.len() <= i < after.len() ==> (#[trigger] after[i]).source is Adapt,
{
}

/// A new, readable proposal of the source joins the pool at its end: the rewritten reply with
/// its tokens, and of a quoted exchange what the user said.
pub proof fn law_adapt_says_what_it_found(
    pool: Seq<mix::Proposed>,
    counts: Map<u32, u32>,
    v: intern::Vocab,
    base: Exchange,
    input: Seq<u32>,
)
    ensures
        ({
            let toks = adapted(counts, v, base, input);
            let p = with_adapted(pool, counts, v, base, input);
            p != pool ==> p.len() == pool.len() + 1 && p.last().tokens == toks && p.last().text
                == tokenizer::spoken(v, toks) && p.last().surprise is None
        }),
        ({
            let p = with_quote(pool, base);
            p != pool ==> p.len() == pool.len() + 1 && p.last().text == base.user_text
                && p.last().tokens == base.user_chunks && p.last().surprise is None
        }),
{
}

/// Where two words are outdated and the new input has two of its own, both outdated words go.
pub proof fn law_two_words_that_differ_go(
    counts: Map<u32, u32>,
    v: intern::Vocab,
    base: Exchange,
    input: Seq<u32>,
    w: u32,
    x: u32,
    own: u32,
    other: u32,
)
    requires
        w != x,
        outdated(v, base, input, w),
        outdated(v, base, input, x),
        forall|y: u32| #[trigger] outdated(v, base, input, y) ==> y == w || y == x,
        own != other,
        fresh(v, base, input, own),
        fresh(v, base, input, other),
    ensures
        !adapted(counts, v, base, input).contains(w),
        !adapted(counts, v, base, input).contains(x),
{
    let (olds, news) = lemma_pairing(counts, v, base, input);
    let k = substitutions(olds.len() as int, news.len() as int);
    let r = adapted(counts, v, base, input);
    assert(olds.contains(w) && olds.contains(x));
    let a = choose|a: int| 0 <= a < olds.len() && olds[a] == w;
    let b = choose|b: int| 0 <= b < olds.len() && olds[b] == x;
    assert(news.contains(own) && news.contains(other));
    let c = choose|c: int| 0 <= c < news.len() && news[c] == own;
    let d = choose|d: int| 0 <= d < news.len() && news[d] == other;
    if olds.len() > 2 {
        assert(olds.contains(olds[0]) && olds.contains(olds[1]) && olds.contains(olds[2]));
        assert(olds[0] != olds[1] && olds[1] != olds[2] && olds[0] != olds[2]);
    }
    assert(k == 2);
    lemma_rewritten_len(base.reply_chunks, olds, news, k);
    assert forall|p: int| 0 <= p < r.len() implies #[trigger] r[p] != w && r[p] != x by {
        law_only_what_differs_is_swapped(counts, v, base, input, p);
        lemma_rewritten_at(base.reply_chunks, olds, news, k, p);
        if base.reply_chunks[p] == w {
            assert(olds[a] == base.reply_chunks[p]);
        } else if base.reply_chunks[p] == x {
            assert(olds[b] == base.reply_chunks[p]);
        }
    }
}

/// What is rewritten is the reply of the exchange most like the input, and what is quoted is
/// the user's line of the one most like the topic.
pub proof fn law_replies_follow_the_input_and_quotes_the_topic(
    pairs: Seq<Exchange>,
    before: Seq<mix::Proposed>,
    after: Seq<mix::Proposed>,
    counts: Map<u32, u32>,
    v: intern::Vocab,
    input: Seq<char>,
    chunks: Seq<u32>,
    input_sims: Seq<u32>,
    topic_sims: Seq<u32>,
    n_adapt: int,
    start: int,
    j: int,
)
    requires
        is_adapted_pool(
            pairs,
            before,
            after,
            counts,
            v,
            input,
            chunks,
            input_sims,
            topic_sims,
            n_adapt,
            start,
        ),
        n_adapt >= 1,
        start <= j < pairs.len(),
        pairs[j].user_text != input,
    ensures
        exists|a: int|
            {
                &&& start <= a < pairs.len()
                &&& (#[trigger] pairs[a]).user_text != input
                &&& bits::key32(input_sims[j]) <= bits::key32(input_sims[a])
                &&& n_adapt == 1 ==> after == with_adapted(before, counts, v, pairs[a], chunks)
                &&& n_adapt >= 2 ==> exists|q: int|
                    {
                        &&& start <= q < pairs.len()
                        &&& (#[trigger] pairs[q]).user_text != input
                        &&& bits::key32(topic_sims[j]) <= bits::key32(topic_sims[q])
                        &&& after == with_quote(
                            with_adapted(before, counts, v, pairs[a], chunks),
                            pairs[q],
                        )
                    }
            },
{
    assert(!only_echoes(pairs, input, start));
    let a = choose|a: int|
        {
            &&& #[trigger] is_nearest(pairs, input, input_sims, start, a)
            &&& is_quoted_pool(
                pairs,
                with_adapted(before, counts, v, pairs[a], chunks),
                after,
                input,
                topic_sims,
                n_adapt,
                start,
            )
        };
    law_the_nearest_is_the_most_similar(pairs, input, input_sims, start, a, j);
    assert(pairs[a].user_text != input);
    if n_adapt >= 2 {
        let one = with_adapted(before, counts, v, pairs[a], chunks);
        let q = choose|q: int|
            #[trigger] is_nearest(pairs, input, topic_sims, start, q) && after == with_quote(
                one,
                pairs[q],
            );
        law_the_nearest_is_the_most_similar(pairs, input, topic_sims, start, q, j);
        assert(pairs[q].user_text != input);
    }
}

proof fn lemma_placed_stably(counts: Map<u32, u32>, s: Seq<u32>, x: u32, n: int)
    ensures
        placed(counts, s, x).filter(|y: u32| count_in(counts, y) == n) == s.push(x).filter(
            |y: u32| count_in(counts, y) == n,
        ),
    decreases s.len(),
{
    reveal(Seq::filter);
    let p = |y: u32| count_in(counts, y) == n;
    assert(s.push(x).drop_last() =~= s);
    if s.len() > 0 && count_in(counts, s.last()) > count_in(counts, x) {
        let d = s.drop_last();
        lemma_placed_stably(counts, d, x, n);
        assert(d.push(x).drop_last() =~= d);
        assert(placed(counts, s, x).drop_last() =~= placed(counts, d, x));
        assert(placed(counts, s, x).last() == s.last());
        let z = s.last();
        assert(s.filter(p) == (if p(z) {
            d.filter(p).push(z)
        } else {
            d.filter(p)
        }));
        assert(d.push(x).filter(p) == (if p(x) {
            d.filter(p).push(x)
        } else {
            d.filter(p)
        }));
        assert(s.push(x).filter(p) == (if p(x) {
            s.filter(p).push(x)
        } else {
            s.filter(p)
        }));
        assert(placed(counts, s, x).filter(p) == (if p(z) {
            placed(counts, d, x).filter(p).push(z)
        } else {
            placed(counts, d, x).filter(p)
        }));
        assert(!(p(x) && p(z)));
    }
}

/// Equally frequent tokens keep their order: those of any one frequency come in the ranking as
/// they came in the list.
pub proof fn law_equally_rare_keep_their_order(counts: Map<u32, u32>, xs: Seq<u32>, n: int)
    ensures
        ranked(counts, xs).filter(|y: u32| count_in(counts, y) == n) == xs.filter(
            |y: u32| count_in(counts, y) == n,
        ),
    decreases xs.len(),
{
    reveal(Seq::filter);
    if xs.len() > 0 {
        let front = xs.drop_last();
        law_equally_rare_keep_their_order(counts, front, n);
        lemma_placed_stably(counts, ranked(counts, front), xs.last(), n);
        assert(ranked(counts, front).push(xs.last()).drop_last() =~= ranked(counts, front));
    }
}

/// Filling in the bins gives every exchange those of the user's line, and changes nothing else.
pub proof fn law_bins_are_of_the_users_line(pairs: Seq<Exchange>, dim: int, i: int)
    requires
        0 <= i < pairs.len(),
    ensures
        with_bins(pairs, dim).len() == pairs.len(),
        with_bins(pairs, dim)[i].user_text == pairs[i].user_text,
        with_bins(pairs, dim)[i].user_chunks == pairs[i].user_chunks,
        with_bins(pairs, dim)[i].reply_chunks == pairs[i].reply_chunks,
        with_bins(pairs, dim)[i].bins == embed::bins_of(pairs[i].user_text, dim),
{
}

/// Of two words that are swapped the rarer one goes for the rarer fresh one; and a fresh word
/// that was left out is no rarer than one that was taken.
pub proof fn law_rare_words_go_for_rare_ones(
    counts: Map<u32, u32>,
    v: intern::Vocab,
    base: Exchange,
    input: Seq<u32>,
    p: int,
    q: int,
    own: u32,
)
    requires
        0 <= p < base.reply_chunks.len(),
        0 <= q < base.reply_chunks.len(),
    ensures
        ({
            let was = base.reply_chunks;
            let now = adapted(counts, v, base, input);
            &&& now[p] != was[p] && now[q] != was[q] && count_in(counts, was[p]) < count_in(
                counts,
                was[q],
            ) ==> count_in(counts, now[p]) <= count_in(counts, now[q])
            &&& now[p] != was[p] && fresh(v, base, input, own) && !now.contains(own)
                ==> count_in(counts, now[p]) <= count_in(counts, own)
        }),
{
    let (olds, news) = lemma_pairing(counts, v, base, input);
    let k = substitutions(olds.len() as int, news.len() as int);
    let was = base.reply_chunks;
    let now = adapted(counts, v, base, input);
    lemma_rewritten_at(was, olds, news, k, p);
    lemma_rewritten_at(was, olds, news, k, q);
    if now[p] != was[p] {
        let a = choose|a: int| 0 <= a < k && #[trigger] olds[a] == was[p];
        assert(now[p] == news[a]);
        if now[q] != was[q] && count_in(counts, was[p]) < count_in(counts, was[q]) {
            let b = choose|b: int| 0 <= b < k && #[trigger] olds[b] == was[q];
            assert(now[q] == news[b]);
            if b < a {
                assert(count_in(counts, olds[b]) <= count_in(counts, olds[a]));
            } else if a < b {
                assert(count_in(counts, news[a]) <= count_in(counts, news[b]));
            }
        }
        if fresh(v, base, input, own) && !now.contains(own) {
            assert(news.contains(own));
            let n = choose|n: int| 0 <= n < news.len() && news[n] == own;
            if n < k {
                assert(olds.contains(olds[n]));
                assert(was.contains(olds[n]));
                let o = choose|o: int| 0 <= o < was.len() && was[o] == olds[n];
                lemma_rewritten_at(was, olds, news, k, o);
                assert(olds[n] == was[o]);
                assert(now[o] == own);
            }
            if a < n {
                assert(count_in(counts, news[a]) <= count_in(counts, news[n]));
            }
        }
    }
}

} // verus!
