//! Markov generation over interned chunks, with longest-match backoff.
//!
//! Which contexts count, how often, and how a reply grows from the drawn chunks is decided
//! here. The host interpolates the counts and draws.
use crate::bits;
use crate::charclass;
use crate::explain::GenStep;
use crate::fx;
use crate::ids;
use crate::ids::EOS;
use crate::ids::TokenId;
use crate::intern;
use crate::intern::Interner;
use crate::nexts;
use crate::params::Params;
use crate::params::SmoothingKind;
use crate::sais;
use crate::smoothing;
use crate::store::Store;
use crate::tally;
use vstd::prelude::*;

verus! {

/// The last `l` tokens.
pub open spec fn suffix(ctx: Seq<u32>, l: int) -> Seq<u32> {
    ctx.subrange(ctx.len() - l, ctx.len() as int)
}

/// The tokens that follow a context in body and buffer.
pub open spec fn behind(text: Seq<u32>, buf: Seq<u32>, ctx: Seq<u32>) -> Seq<u32> {
    if ctx.len() == 0 {
        Seq::empty()
    } else {
        nexts::nexts(text, ctx) + nexts::nexts(buf, ctx)
    }
}

/// How often the last `l` tokens of a context are followed by something.
pub open spec fn total_at(text: Seq<u32>, buf: Seq<u32>, ctx: Seq<u32>, l: int) -> int {
    behind(text, buf, suffix(ctx, l)).len() as int
}

/// The longest suffix up to `l` that is followed at least `f` times, or nothing.
pub open spec fn deepest(text: Seq<u32>, buf: Seq<u32>, ctx: Seq<u32>, f: int, l: int) -> int
    decreases l,
{
    if l <= 0 {
        0
    } else if total_at(text, buf, ctx, l) >= f {
        l
    } else {
        deepest(text, buf, ctx, f, l - 1)
    }
}

/// How much of a context a distribution rests on: the longest suffix that is frequent enough,
/// else the longest that occurs at all.
pub open spec fn backoff_len(text: Seq<u32>, buf: Seq<u32>, ctx: Seq<u32>, f_min: int) -> int {
    let d = deepest(text, buf, ctx, f_min, ctx.len() as int);
    if d > 0 {
        d
    } else {
        deepest(text, buf, ctx, 1, ctx.len() as int)
    }
}

/// What was counted behind one context.
#[derive(Debug)]
pub struct Order {
    /// Length of the context.
    pub used: usize,
    pub counts: Vec<(TokenId, u32)>,
    pub total: u32,
}

impl Order {
    /// The counts are those behind the last `used` tokens.
    pub open spec fn counts_behind(&self, text: Seq<u32>, buf: Seq<u32>, ctx: Seq<u32>) -> bool {
        let found = behind(text, buf, suffix(ctx, self.used as int));
        self.used <= ctx.len() && tally::is_table(self.counts@, found) && self.total == found.len()
    }
}

proof fn lemma_nothing_behind(text: Seq<u32>, buf: Seq<u32>)
    ensures
        tally::is_table(Seq::<(u32, u32)>::empty(), behind(text, buf, Seq::empty())),
        behind(text, buf, Seq::empty()).len() == 0,
{
}

/// The counts behind the last `l` tokens of a context.
fn order_at(store: &Store, ctx: &Vec<TokenId>, l: usize) -> (r: Order)
    requires
        store.wf(),
        l <= ctx.len(),
    ensures
        r.used == l,
        r.counts_behind(store.text@, store.buf@, ctx@),
{
    let sub = tail(ctx, l);
    let (counts, total) = store.next_counts(sub.as_slice());
    proof {
        if l == 0 {
            assert(suffix(ctx@, 0) =~= Seq::empty());
            assert(counts@ =~= Seq::empty());
            lemma_nothing_behind(store.text@, store.buf@);
        }
    }
    Order { used: l, counts, total }
}

/// The last `l` tokens.
pub fn tail(xs: &Vec<TokenId>, l: usize) -> (r: Vec<TokenId>)
    requires
        l <= xs.len(),
    ensures
        r@ == suffix(xs@, l as int),
{
    let from: usize = xs.len() - l;
    let mut r: Vec<TokenId> = Vec::new();
    let mut i: usize = from;
    while i < xs.len()
        invariant
            from <= i <= xs.len(),
            r@ == xs@.subrange(from as int, i as int),
        decreases xs.len() - i,
    {
        r.push(xs[i]);
        proof {
            assert(xs@.subrange(from as int, i + 1) =~= xs@.subrange(from as int, i as int).push(
                xs@[i as int],
            ));
        }
        i += 1;
    }
    r
}

/// The counts that a distribution rests on when only one context is used: the longest suffix
/// that is frequent enough, else the longest that occurs at all.
pub fn backoff_context(store: &Store, ctx: &Vec<TokenId>, f_min: u32) -> (r: Order)
    requires
        store.wf(),
    ensures
        r.used == backoff_len(store.text@, store.buf@, ctx@, f_min as int),
        r.counts_behind(store.text@, store.buf@, ctx@),
{
    let ghost text = store.text@;
    let ghost buf = store.buf@;
    let mut fallback: usize = 0;
    let mut l: usize = ctx.len();
    while l > 0
        invariant
            store.wf(),
            text == store.text@,
            buf == store.buf@,
            l <= ctx.len(),
            fallback <= ctx.len(),
            deepest(text, buf, ctx@, f_min as int, ctx.len() as int) == deepest(
                text,
                buf,
                ctx@,
                f_min as int,
                l as int,
            ),
            fallback > 0 ==> deepest(text, buf, ctx@, 1, ctx.len() as int) == fallback,
            fallback == 0 ==> deepest(text, buf, ctx@, 1, ctx.len() as int) == deepest(
                text,
                buf,
                ctx@,
                1,
                l as int,
            ),
        decreases l,
    {
        let o = order_at(store, ctx, l);
        if o.total >= f_min {
            return o;
        }
        if o.total > 0 && fallback == 0 {
            fallback = l;
        }
        l -= 1;
    }
    order_at(store, ctx, fallback)
}

/// The context length and frequency that an interpolation over all orders up to `l` reports.
pub open spec fn reported(text: Seq<u32>, buf: Seq<u32>, ctx: Seq<u32>, f_min: int, l: int) -> (
    int,
    int,
)
    decreases l,
{
    if l <= 0 {
        (0, 0)
    } else {
        let before = reported(text, buf, ctx, f_min, l - 1);
        let t = total_at(text, buf, ctx, l);
        if t > 0 && (t >= f_min || before.1 < f_min) {
            (l, t)
        } else {
            before
        }
    }
}

/// The orders up to `l` with something behind them.
pub open spec fn live_orders(text: Seq<u32>, buf: Seq<u32>, ctx: Seq<u32>, l: int) -> Seq<int>
    decreases l,
{
    if l <= 0 {
        Seq::empty()
    } else if total_at(text, buf, ctx, l) > 0 {
        live_orders(text, buf, ctx, l - 1).push(l)
    } else {
        live_orders(text, buf, ctx, l - 1)
    }
}

/// A context with its last token but one left out.
pub open spec fn gapped(ctx: Seq<u32>) -> Seq<u32> {
    ctx.remove(ctx.len() - 2)
}

/// How many recent tokens the recency cache looks at.
pub const RECENT: usize = 12;

/// The recent tokens.
pub open spec fn recent(ctx: Seq<u32>) -> Seq<u32> {
    if ctx.len() > RECENT {
        suffix(ctx, RECENT as int)
    } else {
        ctx
    }
}

/// Everything that is counted for one decode step.
#[derive(Debug)]
pub struct Evidence {
    /// Counts behind the suffixes of the context that occur, shortest first.
    pub orders: Vec<Order>,
    pub used: usize,
    pub freq: u32,
    /// Whether ids seen at an order are excluded from the lower ones.
    pub exclude: bool,
    /// Counts behind the gapped context, where they are mixed in.
    pub skip: Option<Order>,
    /// Counts of the recent tokens, where they are mixed in.
    pub recent: Option<Vec<(TokenId, u32)>>,
}

/// The match does not cover the context, or is not frequent enough.
pub open spec fn is_sparse(used: int, freq: int, len: int, f_min: int) -> bool {
    used < len || freq < f_min
}

impl Evidence {
    /// What is counted for a context.
    pub open spec fn counts_for(&self, store: Store, params: Params, ctx: Seq<u32>) -> bool {
        let text = store.text@;
        let buf = store.buf@;
        let f_min = params.f_min as int;
        let rep = reported(text, buf, ctx, f_min, ctx.len() as int);
        let sparse = is_sparse(rep.0, rep.1, ctx.len() as int, f_min);
        &&& self.used == rep.0
        &&& self.freq == rep.1
        &&& self.orders@.map_values(|o: Order| o.used as int) == live_orders(
            text,
            buf,
            ctx,
            ctx.len() as int,
        )
        &&& forall|i: int|
            0 <= i < self.orders.len() ==> (#[trigger] self.orders[i]).counts_behind(text, buf, ctx)
        &&& self.exclude == (params.ppm_exclude || params.smoothing == SmoothingKind::Kn)
        &&& match self.skip {
            Some(o) => {
                &&& sparse && bits::positive64(params.lambda_skip) && ctx.len() >= 3
                &&& o.used == ctx.len() - 1
                &&& o.total > 0
                &&& o.counts_behind(text, buf, gapped(ctx))
            },
            None => !sparse || !bits::positive64(params.lambda_skip) || ctx.len() < 3 || behind(
                text,
                buf,
                gapped(ctx),
            ).len() == 0,
        }
        &&& match self.recent {
            Some(t) => {
                &&& sparse && bits::positive64(params.lambda_cache) && ctx.len() > 0
                &&& is_census(t@, recent(ctx))
            },
            None => !sparse || !bits::positive64(params.lambda_cache) || ctx.len() == 0,
        }
    }
}

/// Every token of a list with its count, in the order of first occurrence.
pub open spec fn is_census(t: Seq<(u32, u32)>, xs: Seq<u32>) -> bool {
    &&& smoothing::tokens_of(t) == tally::firsts(xs, |x: u32| true)
    &&& forall|i: int| 0 <= i < t.len() ==> (#[trigger] t[i]).1 == tally::occ(xs, t[i].0)
}

fn occurrences(xs: &Vec<TokenId>, id: TokenId) -> (r: u32)
    requires
        xs.len() < u32::MAX,
    ensures
        r == tally::occ(xs@, id),
{
    let mut c: u32 = 0;
    let mut i: usize = 0;
    while i < xs.len()
        invariant
            i <= xs.len() < u32::MAX,
            c == tally::occ(xs@.take(i as int), id),
            c <= i,
        decreases xs.len() - i,
    {
        proof {
            assert(xs@.take(i + 1).drop_last() =~= xs@.take(i as int));
        }
        if xs[i] == id {
            c += 1;
        }
        i += 1;
    }
    proof {
        assert(xs@.take(i as int) =~= xs@);
    }
    c
}

/// Every token of a list with its count, in the order of first occurrence.
pub fn parrot_unigram(xs: &Vec<TokenId>) -> (r: Vec<(TokenId, u32)>)
    requires
        xs.len() < u32::MAX,
    ensures
        is_census(r@, xs@),
{
    let ghost any = |x: u32| true;
    let mut seen = fx::new_ids();
    let mut r: Vec<(TokenId, u32)> = Vec::new();
    let mut i: usize = 0;
    proof {
        assert(smoothing::tokens_of(r@) =~= tally::firsts(xs@.take(0), any));
    }
    while i < xs.len()
        invariant
            i <= xs.len() < u32::MAX,
            any == (|x: u32| true),
            smoothing::tokens_of(r@) == tally::firsts(xs@.take(i as int), any),
            forall|k: int| 0 <= k < r.len() ==> (#[trigger] r[k]).1 == tally::occ(xs@, r[k].0),
            forall|x: u32| #[trigger]
                seen@.contains(x) <==> smoothing::tokens_of(r@).contains(x),
        decreases xs.len() - i,
    {
        let ghost before = smoothing::tokens_of(r@);
        let id: TokenId = xs[i];
        proof {
            assert(xs@.take(i + 1).drop_last() =~= xs@.take(i as int));
        }
        let fresh: bool = fx::add_id(&mut seen, id);
        if fresh {
            let c: u32 = occurrences(xs, id);
            let ghost r0 = r@;
            r.push((id, c));
            proof {
                assert(smoothing::tokens_of(r@) =~= before.push(id));
                tally::lemma_push_contains(before, id);
            }
        }
        i += 1;
    }
    proof {
        assert(xs@.take(i as int) =~= xs@);
    }
    r
}

/// Everything that is counted for one decode step after a context.
pub fn evidence(store: &Store, params: &Params, ctx: &Vec<TokenId>) -> (r: Evidence)
    requires
        store.wf(),
        ctx.len() < u32::MAX,
    ensures
        r.counts_for(*store, *params, ctx@),
{
    let ghost text = store.text@;
    let ghost buf = store.buf@;
    let mut orders: Vec<Order> = Vec::new();
    let mut used: usize = 0;
    let mut freq: u32 = 0;
    let mut l: usize = 0;
    proof {
        assert(orders@.map_values(|o: Order| o.used as int) =~= Seq::<int>::empty());
    }
    while l < ctx.len()
        invariant
            store.wf(),
            text == store.text@,
            buf == store.buf@,
            l <= ctx.len(),
            used == reported(text, buf, ctx@, params.f_min as int, l as int).0,
            freq == reported(text, buf, ctx@, params.f_min as int, l as int).1,
            orders@.map_values(|o: Order| o.used as int) == live_orders(text, buf, ctx@, l as int),
            forall|i: int|
                0 <= i < orders.len() ==> (#[trigger] orders[i]).counts_behind(text, buf, ctx@),
        decreases ctx.len() - l,
    {
        let o = order_at(store, ctx, l + 1);
        l += 1;
        if o.total > 0 {
            if o.total >= params.f_min || freq < params.f_min {
                used = l;
                freq = o.total;
            }
            let ghost before = orders@;
            orders.push(o);
            proof {
                assert(orders@.map_values(|o: Order| o.used as int) =~= before.map_values(
                    |o: Order| o.used as int,
                ).push(l as int));
            }
        }
    }
    let sparse: bool = used < ctx.len() || freq < params.f_min;
    let mut skip: Option<Order> = None;
    if sparse && bits::is_positive64(params.lambda_skip) && ctx.len() >= 3 {
        let mut gap = tail(ctx, ctx.len());
        proof {
            assert(suffix(ctx@, ctx.len() as int) =~= ctx@);
        }
        let at: usize = ctx.len() - 2;
        let _ = gap.remove(at);
        proof {
            assert(gap@ =~= gapped(ctx@));
        }
        let o = order_at(store, &gap, gap.len());
        proof {
            assert(suffix(gap@, gap.len() as int) =~= gap@);
        }
        if o.total > 0 {
            skip = Some(o);
        }
    }
    let mut cache: Option<Vec<(TokenId, u32)>> = None;
    if sparse && bits::is_positive64(params.lambda_cache) && ctx.len() > 0 {
        let n: usize = if ctx.len() > RECENT {
            RECENT
        } else {
            ctx.len()
        };
        let hist = tail(ctx, n);
        proof {
            assert(hist@ =~= recent(ctx@));
        }
        cache = Some(parrot_unigram(&hist));
    }
    let exclude: bool = params.ppm_exclude || params.smoothing == SmoothingKind::Kn;
    Evidence { orders, used, freq, exclude, skip, recent: cache }
}

proof fn lemma_longer_is_rarer(text: Seq<u32>, ctx: Seq<u32>, l: int, k: int)
    requires
        0 <= l < ctx.len(),
        0 <= k,
    ensures
        nexts::nexts_upto(text, suffix(ctx, l + 1), k).len() <= nexts::nexts_upto(
            text,
            suffix(ctx, l),
            k + 1,
        ).len(),
    decreases k,
{
    let long = suffix(ctx, l + 1);
    let short = suffix(ctx, l);
    if k > 0 {
        lemma_longer_is_rarer(text, ctx, l, k - 1);
        if sais::starts_with(text, k - 1, long) && k - 1 + long.len() < text.len() {
            assert(short =~= long.subrange(1, long.len() as int));
            assert(text.subrange(k, k + short.len()) =~= text.subrange(
                k - 1,
                k - 1 + long.len(),
            ).subrange(1, long.len() as int));
            assert(sais::starts_with(text, k, short));
        }
    }
}

proof fn lemma_nexts_beyond(text: Seq<u32>, ctx: Seq<u32>, k: int)
    requires
        k >= text.len(),
        ctx.len() > 0,
    ensures
        nexts::nexts_upto(text, ctx, k) == nexts::nexts(text, ctx),
    decreases k,
{
    if k > text.len() {
        lemma_nexts_beyond(text, ctx, k - 1);
    }
}

/// A longer context never has more behind it.
pub proof fn law_totals_fall(text: Seq<u32>, buf: Seq<u32>, ctx: Seq<u32>, l: int)
    requires
        1 <= l < ctx.len(),
    ensures
        total_at(text, buf, ctx, l + 1) <= total_at(text, buf, ctx, l),
{
    lemma_longer_is_rarer(text, ctx, l, text.len() as int);
    lemma_longer_is_rarer(buf, ctx, l, buf.len() as int);
    lemma_nexts_beyond(text, suffix(ctx, l), text.len() as int + 1);
    lemma_nexts_beyond(buf, suffix(ctx, l), buf.len() as int + 1);
}

proof fn lemma_totals_fall(text: Seq<u32>, buf: Seq<u32>, ctx: Seq<u32>, l: int, m: int)
    requires
        1 <= l <= m <= ctx.len(),
    ensures
        total_at(text, buf, ctx, m) <= total_at(text, buf, ctx, l),
    decreases m - l,
{
    if l < m {
        law_totals_fall(text, buf, ctx, l);
        lemma_totals_fall(text, buf, ctx, l + 1, m);
    }
}

proof fn lemma_reported(text: Seq<u32>, buf: Seq<u32>, ctx: Seq<u32>, f_min: int, l: int)
    requires
        f_min >= 1,
        0 <= l <= ctx.len(),
    ensures
        ({
            let d = deepest(text, buf, ctx, f_min, l);
            let u = if d > 0 {
                d
            } else {
                deepest(text, buf, ctx, 1, l)
            };
            &&& reported(text, buf, ctx, f_min, l) == (
                u,
                if u > 0 {
                    total_at(text, buf, ctx, u)
                } else {
                    0
                },
            )
            &&& 0 <= u <= l
            &&& d > 0 ==> total_at(text, buf, ctx, d) >= f_min
        }),
    decreases l,
{
    if l > 0 {
        lemma_reported(text, buf, ctx, f_min, l - 1);
        if l > 1 {
            law_totals_fall(text, buf, ctx, l - 1);
        }
        let d0 = deepest(text, buf, ctx, f_min, l - 1);
        let e0 = deepest(text, buf, ctx, 1, l - 1);
        if d0 == 0 && l > 1 {
            lemma_none_deep(text, buf, ctx, f_min, l - 1);
        }
        if e0 > 0 && d0 == 0 {
            lemma_deepest_hits(text, buf, ctx, 1, l - 1);
            assert(total_at(text, buf, ctx, e0) < f_min);
        }
        if d0 > 0 {
            lemma_deepest_hits(text, buf, ctx, f_min, l - 1);
        }
    }
}

proof fn lemma_none_deep(text: Seq<u32>, buf: Seq<u32>, ctx: Seq<u32>, f: int, l: int)
    requires
        deepest(text, buf, ctx, f, l) == 0,
    ensures
        forall|m: int| 0 < m <= l ==> #[trigger] total_at(text, buf, ctx, m) < f,
    decreases l,
{
    if l > 0 {
        lemma_none_deep(text, buf, ctx, f, l - 1);
    }
}

proof fn lemma_deepest_hits(text: Seq<u32>, buf: Seq<u32>, ctx: Seq<u32>, f: int, l: int)
    requires
        deepest(text, buf, ctx, f, l) > 0,
    ensures
        deepest(text, buf, ctx, f, l) <= l,
        total_at(text, buf, ctx, deepest(text, buf, ctx, f, l)) >= f,
    decreases l,
{
    if l > 0 && total_at(text, buf, ctx, l) < f {
        lemma_deepest_hits(text, buf, ctx, f, l - 1);
    }
}

/// Interpolating over every order and backing off to one report the same context and frequency.
pub proof fn law_decoders_agree(text: Seq<u32>, buf: Seq<u32>, ctx: Seq<u32>, f_min: int)
    requires
        f_min >= 1,
    ensures
        reported(text, buf, ctx, f_min, ctx.len() as int).0 == backoff_len(text, buf, ctx, f_min),
        reported(text, buf, ctx, f_min, ctx.len() as int).1 == total_at(
            text,
            buf,
            ctx,
            backoff_len(text, buf, ctx, f_min),
        ),
{
    lemma_reported(text, buf, ctx, f_min, ctx.len() as int);
    assert(suffix(ctx, 0) =~= Seq::empty());
}

/// Most chunks that are said while the corpus is empty.
pub const FIRST_WORDS: usize = 8;

/// A reply that grows chunk by chunk.
#[derive(Debug)]
pub struct Generated {
    pub tokens: Vec<TokenId>,
    pub steps: Vec<GenStep>,
    /// Hard cap on the steps.
    pub cap: usize,
    pub done: bool,
}

/// Hard cap on the steps of a reply.
pub open spec fn step_cap(corpus_empty: bool, parrot: int, max_gen_len: int) -> int {
    if !corpus_empty {
        max_gen_len
    } else if parrot < 1 {
        1
    } else if parrot > FIRST_WORDS {
        FIRST_WORDS as int
    } else {
        parrot
    }
}

/// The chunks that the steps said, without the end mark.
pub open spec fn said(steps: Seq<GenStep>) -> Seq<u32>
    decreases steps.len(),
{
    if steps.len() == 0 {
        Seq::empty()
    } else if steps.last().sampled == EOS {
        said(steps.drop_last())
    } else {
        said(steps.drop_last()).push(steps.last().sampled)
    }
}

/// The last `l_max` tokens of seed and reply.
pub open spec fn window(seed: Seq<u32>, tokens: Seq<u32>, l_max: int) -> Seq<u32> {
    let all = seed + tokens;
    if all.len() > l_max {
        suffix(all, l_max)
    } else {
        all
    }
}

impl Generated {
    /// The tokens are what the steps said; only an end mark or an empty distribution stops early.
    pub open spec fn wf(&self) -> bool {
        &&& self.tokens@ == said(self.steps@)
        &&& self.steps.len() <= self.cap
        &&& self.tokens.len() <= self.steps.len()
    }

    /// No reply yet.
    pub fn begin(corpus_empty: bool, parrot: usize, max_gen_len: usize) -> (r: Self)
        ensures
            r.wf(),
            r.tokens.len() == 0,
            r.steps.len() == 0,
            r.cap == step_cap(corpus_empty, parrot as int, max_gen_len as int),
            !r.done,
    {
        let cap: usize = if !corpus_empty {
            max_gen_len
        } else if parrot < 1 {
            1
        } else if parrot > FIRST_WORDS {
            FIRST_WORDS
        } else {
            parrot
        };
        let r = Generated { tokens: Vec::new(), steps: Vec::new(), cap, done: false };
        proof {
            assert(r.tokens@ =~= said(r.steps@));
        }
        r
    }

    /// Whether another chunk is to be drawn.
    pub fn wants(&self) -> (r: bool)
        ensures
            r == (!self.done && self.steps.len() < self.cap),
    {
        !self.done && self.steps.len() < self.cap
    }

    /// The context of the next chunk.
    pub fn context(&self, seed: &Vec<TokenId>, l_max: usize) -> (r: Vec<TokenId>)
        requires
            seed.len() + self.tokens.len() <= usize::MAX,
        ensures
            r@ == window(seed@, self.tokens@, l_max as int),
    {
        let mut all: Vec<TokenId> = tail(seed, seed.len());
        let mut i: usize = 0;
        proof {
            assert(suffix(seed@, seed.len() as int) =~= seed@);
            assert(all@ =~= seed@ + self.tokens@.take(0));
        }
        while i < self.tokens.len()
            invariant
                i <= self.tokens.len(),
                all@ == seed@ + self.tokens@.take(i as int),
            decreases self.tokens.len() - i,
        {
            all.push(self.tokens[i]);
            proof {
                assert(all@ =~= seed@ + self.tokens@.take(i + 1));
            }
            i += 1;
        }
        proof {
            assert(self.tokens@.take(i as int) =~= self.tokens@);
        }
        if all.len() > l_max {
            tail(&all, l_max)
        } else {
            all
        }
    }

    /// Takes the outcome of a draw: nothing stops the reply, an end mark too.
    pub fn take(&mut self, step: Option<GenStep>)
        requires
            old(self).wf(),
            !old(self).done,
            old(self).steps.len() < old(self).cap,
        ensures
            final(self).wf(),
            final(self).cap == old(self).cap,
            match step {
                Some(s) => {
                    &&& final(self).steps@ == old(self).steps@.push(s)
                    &&& final(self).done == (s.sampled == EOS)
                    &&& final(self).tokens@ == (if s.sampled == EOS {
                        old(self).tokens@
                    } else {
                        old(self).tokens@.push(s.sampled)
                    })
                },
                None => {
                    &&& final(self).steps == old(self).steps
                    &&& final(self).tokens == old(self).tokens
                    &&& final(self).done
                },
            },
    {
        match step {
            Some(s) => {
                let id: TokenId = s.sampled;
                self.steps.push(s);
                if id == EOS {
                    self.done = true;
                } else {
                    self.tokens.push(id);
                }
                proof {
                    assert(self.steps@.drop_last() =~= old(self).steps@);
                }
            },
            None => {
                self.done = true;
            },
        }
    }

    /// A reply without a chunk says the first of the parrot, if there is one.
    pub fn finish(self, parrot: &Vec<TokenId>, temperature: u32) -> (r: (Vec<TokenId>, Vec<GenStep>))
        requires
            self.wf(),
        ensures
            self.tokens.len() > 0 || parrot.len() == 0 ==> r.0 == self.tokens && r.1 == self.steps,
            self.tokens.len() == 0 && parrot.len() > 0 ==> {
                &&& r.0@ == seq![parrot[0]]
                &&& r.1@ == self.steps@.push(
                    (GenStep {
                        ctx_len_requested: 0,
                        ctx_len_used: 0,
                        freq: 0,
                        sampled: parrot[0],
                        temperature,
                        p: 0,
                        logp: 0,
                    }),
                )
            },
    {
        let Generated { mut tokens, mut steps, cap: _, done: _ } = self;
        if tokens.len() == 0 && parrot.len() > 0 {
            tokens.push(parrot[0]);
            steps.push(
                GenStep {
                    ctx_len_requested: 0,
                    ctx_len_used: 0,
                    freq: 0,
                    sampled: parrot[0],
                    temperature,
                    p: 0,
                    logp: 0,
                },
            );
            proof {
                assert(tokens@ =~= seq![parrot[0]]);
            }
        }
        (tokens, steps)
    }
}

/// A reply holds no end mark.
pub proof fn law_no_end_mark_inside(steps: Seq<GenStep>)
    ensures
        forall|i: int| 0 <= i < said(steps).len() ==> #[trigger] said(steps)[i] != EOS,
        said(steps).len() <= steps.len(),
    decreases steps.len(),
{
    if steps.len() > 0 {
        law_no_end_mark_inside(steps.drop_last());
        let front = said(steps.drop_last());
        assert forall|i: int| 0 <= i < said(steps).len() implies #[trigger] said(steps)[i] != EOS by {
            if i < front.len() {
                assert(front[i] != EOS);
            }
        }
    }
}

/// What may be said behind the anchor.
pub open spec fn forward_cap(max_gen_len: int) -> int {
    if max_gen_len > 0 {
        max_gen_len - 1
    } else {
        0
    }
}

/// What may be said in front of the anchor once `forward` chunks stand behind it.
pub open spec fn backward_cap(max_gen_len: int, forward: int) -> int {
    if max_gen_len > forward + 1 {
        max_gen_len - (forward + 1)
    } else {
        0
    }
}

/// The anchor takes one slot of the hard cap; forward gets the rest.
pub fn forward_budget(max_gen_len: usize) -> (r: usize)
    ensures
        r == forward_cap(max_gen_len as int),
{
    if max_gen_len > 0 {
        max_gen_len - 1
    } else {
        0
    }
}

/// Backward gets whatever remains.
pub fn backward_budget(max_gen_len: usize, forward: usize) -> (r: usize)
    ensures
        r == backward_cap(max_gen_len as int, forward as int),
{
    if max_gen_len > 0 && max_gen_len - 1 > forward {
        max_gen_len - 1 - forward
    } else {
        0
    }
}

/// The last token first.
pub open spec fn reversed(xs: Seq<u32>) -> Seq<u32> {
    Seq::new(xs.len(), |i: int| xs[xs.len() - 1 - i])
}

/// The last token first.
pub fn reverse(xs: &Vec<TokenId>) -> (r: Vec<TokenId>)
    ensures
        r@ == reversed(xs@),
{
    let mut r: Vec<TokenId> = Vec::new();
    let mut i: usize = 0;
    while i < xs.len()
        invariant
            i <= xs.len(),
            r.len() == i,
            forall|k: int| 0 <= k < i ==> #[trigger] r[k] == xs[xs.len() - 1 - k],
        decreases xs.len() - i,
    {
        r.push(xs[xs.len() - 1 - i]);
        i += 1;
    }
    proof {
        assert(r@ =~= reversed(xs@));
    }
    r
}

/// The context in which the left side grows: anchor and forward part, last token first.
pub fn backward_context(anchor: TokenId, forward: &Vec<TokenId>) -> (r: Vec<TokenId>)
    ensures
        r@ == reversed(seq![anchor] + forward@),
{
    let mut r = reverse(forward);
    r.push(anchor);
    proof {
        assert(r@ =~= reversed(seq![anchor] + forward@));
    }
    r
}

/// A reply around an anchor: what grew leftwards, turned round, then the anchor, then what
/// follows it.
pub open spec fn around(anchor: u32, forward: Seq<u32>, backward: Seq<u32>) -> Seq<u32> {
    reversed(backward) + seq![anchor] + forward
}

/// A reply around an anchor.
pub fn assemble(anchor: TokenId, forward: &Vec<TokenId>, backward: &Vec<TokenId>) -> (r: Vec<TokenId>)
    ensures
        r@ == around(anchor, forward@, backward@),
{
    let mut r = reverse(backward);
    r.push(anchor);
    let mut i: usize = 0;
    proof {
        assert(r@ =~= reversed(backward@) + seq![anchor] + forward@.take(0));
    }
    while i < forward.len()
        invariant
            i <= forward.len(),
            r@ == reversed(backward@) + seq![anchor] + forward@.take(i as int),
        decreases forward.len() - i,
    {
        r.push(forward[i]);
        proof {
            assert(r@ =~= reversed(backward@) + seq![anchor] + forward@.take(i + 1));
        }
        i += 1;
    }
    proof {
        assert(forward@.take(i as int) =~= forward@);
    }
    r
}

/// The cap on generated chunks is hard, also around an anchor.
pub proof fn law_cap_is_hard(
    anchor: u32,
    forward: Seq<GenStep>,
    backward: Seq<GenStep>,
    max_gen_len: int,
)
    requires
        max_gen_len >= 1,
        forward.len() <= forward_cap(max_gen_len),
        backward.len() <= backward_cap(max_gen_len, said(forward).len() as int),
    ensures
        around(anchor, said(forward), said(backward)).len() <= max_gen_len,
{
    law_no_end_mark_inside(forward);
    law_no_end_mark_inside(backward);
}

/// A reply must not open with these.
pub open spec fn opens_badly(v: intern::Vocab, id: u32) -> bool {
    ids::special(id) || charclass::punct_only(intern::text_of(v, id))
}

/// The tokens from the first on that may open a reply.
pub open spec fn opening(v: intern::Vocab, toks: Seq<u32>) -> Seq<u32>
    decreases toks.len(),
{
    if toks.len() > 0 && opens_badly(v, toks[0]) {
        opening(v, toks.subrange(1, toks.len() as int))
    } else {
        toks
    }
}

/// A generated reply must not open with punctuation: the
/// corpus stores a comma as its own chunk, so decode can start there. Leading
/// specials are dropped too.
pub fn trim_leading_punct(intern: &Interner, toks: &Vec<TokenId>) -> (r: Vec<TokenId>)
    ensures
        r@ == opening(intern@, toks@),
{
    let ghost v = intern@;
    let mut i: usize = 0;
    proof {
        assert(suffix(toks@, toks.len() as int) =~= toks@);
    }
    while i < toks.len()
        invariant
            v == intern@,
            i <= toks.len(),
            opening(v, toks@) == opening(v, suffix(toks@, toks.len() - i)),
        decreases toks.len() - i,
    {
        let id: TokenId = toks[i];
        proof {
            let here = suffix(toks@, toks.len() - i);
            assert(here[0] == id);
            assert(here.subrange(1, here.len() as int) =~= suffix(toks@, toks.len() - i - 1));
        }
        let bad: bool = ids::is_special(id) || charclass::is_punct_str(intern.get(id));
        if !bad {
            return tail(toks, toks.len() - i);
        }
        i += 1;
    }
    proof {
        assert(suffix(toks@, 0) =~= Seq::empty());
    }
    Vec::new()
}

/// What is left of a reply opens well.
pub proof fn law_opening_is_clean(v: intern::Vocab, toks: Seq<u32>)
    ensures
        opening(v, toks).len() > 0 ==> !opens_badly(v, opening(v, toks)[0]),
        opening(v, toks).len() <= toks.len(),
    decreases toks.len(),
{
    if toks.len() > 0 && opens_badly(v, toks[0]) {
        law_opening_is_clean(v, toks.subrange(1, toks.len() as int));
    }
}

proof fn lemma_deepest(text: Seq<u32>, buf: Seq<u32>, ctx: Seq<u32>, f: int, l: int)
    requires
        0 <= l,
    ensures
        0 <= deepest(text, buf, ctx, f, l) <= l,
        deepest(text, buf, ctx, f, l) > 0 ==> total_at(
            text,
            buf,
            ctx,
            deepest(text, buf, ctx, f, l),
        ) >= f,
        forall|k: int|
            deepest(text, buf, ctx, f, l) < k <= l ==> #[trigger] total_at(text, buf, ctx, k) < f,
    decreases l,
{
    if l > 0 && total_at(text, buf, ctx, l) < f {
        lemma_deepest(text, buf, ctx, f, l - 1);
    }
}

/// A distribution rests on the longest end of the context that was followed often enough; where
/// none was, on the longest that was followed at all; and on none where none was.
pub proof fn law_the_longest_known_context_counts(
    text: Seq<u32>,
    buf: Seq<u32>,
    ctx: Seq<u32>,
    f_min: int,
    l: int,
)
    requires
        1 <= l <= ctx.len(),
    ensures
        ({
            let d = backoff_len(text, buf, ctx, f_min);
            &&& 0 <= d <= ctx.len()
            &&& total_at(text, buf, ctx, l) >= f_min ==> l <= d && total_at(text, buf, ctx, d)
                >= f_min
            &&& total_at(text, buf, ctx, l) >= 1 ==> 1 <= d && (total_at(text, buf, ctx, d) >= f_min
                || (l <= d && total_at(text, buf, ctx, d) >= 1))
        }),
{
    lemma_deepest(text, buf, ctx, f_min, ctx.len() as int);
    lemma_deepest(text, buf, ctx, 1, ctx.len() as int);
}

/// The orders that are mixed are those with something behind them, the shortest first.
pub proof fn law_live_orders_are_followed(text: Seq<u32>, buf: Seq<u32>, ctx: Seq<u32>, l: int)
    requires
        0 <= l,
    ensures
        live_orders(text, buf, ctx, l) == Seq::new(l as nat, |i: int| i + 1).filter(
            |k: int| behind(text, buf, ctx.skip(ctx.len() - k)).len() > 0,
        ),
    decreases l,
{
    reveal(Seq::filter);
    let live = |k: int| behind(text, buf, ctx.skip(ctx.len() - k)).len() > 0;
    let all = Seq::new(l as nat, |i: int| i + 1);
    if l > 0 {
        law_live_orders_are_followed(text, buf, ctx, l - 1);
        assert(all.drop_last() =~= Seq::new((l - 1) as nat, |i: int| i + 1));
        assert(all.last() == l);
        assert(suffix(ctx, l) =~= ctx.skip(ctx.len() - l));
    }
    assert(live_orders(text, buf, ctx, l) =~= all.filter(live));
}

/// The gap leaves out the last token but one and nothing else. The recent tokens are the last
/// twelve. The context of a step is the end of seed and reply, as long as is allowed.
pub proof fn law_contexts_are_what_was_last(ctx: Seq<u32>, seed: Seq<u32>, tokens: Seq<u32>, l_max: int)
    requires
        ctx.len() >= 2,
        l_max >= 0,
    ensures
        gapped(ctx).len() == ctx.len() - 1,
        gapped(ctx).last() == ctx.last(),
        gapped(ctx).drop_last() == ctx.take(ctx.len() - 2),
        ctx.len() <= 12 ==> recent(ctx) == ctx,
        ctx.len() > 12 ==> recent(ctx) == ctx.skip(ctx.len() - 12),
        seed.len() + tokens.len() <= l_max ==> window(seed, tokens, l_max) == seed + tokens,
        seed.len() + tokens.len() > l_max ==> window(seed, tokens, l_max) == (seed + tokens).skip(
            seed.len() + tokens.len() - l_max,
        ),
{
    assert(gapped(ctx).drop_last() =~= ctx.take(ctx.len() - 2));
    if ctx.len() > 12 {
        assert(recent(ctx) =~= ctx.skip(ctx.len() - 12));
    }
    if seed.len() + tokens.len() > l_max {
        assert(window(seed, tokens, l_max) =~= (seed + tokens).skip(
            seed.len() + tokens.len() - l_max,
        ));
    }
}

/// A reply may have as many chunks as the cap says; without a corpus as many as it can parrot,
/// one at least and eight at most.
pub proof fn law_first_words_are_few(parrot: int, max_gen_len: int)
    requires
        parrot >= 0,
    ensures
        step_cap(false, parrot, max_gen_len) == max_gen_len,
        1 <= step_cap(true, parrot, max_gen_len) <= 8,
        1 <= parrot <= 8 ==> step_cap(true, parrot, max_gen_len) == parrot,
        parrot > 8 ==> step_cap(true, parrot, max_gen_len) == 8,
{
}

/// What was said is what was sampled, in this order and without the end marks.
pub proof fn law_what_was_sampled_is_said(steps: Seq<GenStep>)
    ensures
        said(steps) == steps.filter(|s: GenStep| s.sampled != EOS).map_values(
            |s: GenStep| s.sampled,
        ),
    decreases steps.len(),
{
    reveal(Seq::filter);
    let plain = |s: GenStep| s.sampled != EOS;
    let id = |s: GenStep| s.sampled;
    if steps.len() > 0 {
        law_what_was_sampled_is_said(steps.drop_last());
        let front = steps.drop_last();
        if plain(steps.last()) {
            assert(steps.filter(plain) == front.filter(plain).push(steps.last()));
            assert(steps.filter(plain).map_values(id) =~= front.filter(plain).map_values(id).push(
                id(steps.last()),
            ));
        } else {
            assert(steps.filter(plain) == front.filter(plain));
        }
    }
    assert(said(steps) =~= steps.filter(plain).map_values(id));
}

/// A reply around an anchor reads from the last chunk that grew leftwards to the first, then
/// the anchor, then what follows it. Both sides and the anchor share the cap.
pub proof fn law_replies_grow_around_the_anchor(
    anchor: u32,
    forward: Seq<u32>,
    backward: Seq<u32>,
    max_gen_len: int,
)
    ensures
        around(anchor, forward, backward).len() == backward.len() + 1 + forward.len(),
        around(anchor, forward, backward)[backward.len() as int] == anchor,
        forall|i: int|
            0 <= i < backward.len() ==> around(anchor, forward, backward)[backward.len() - 1 - i]
                == #[trigger] backward[i],
        forall|i: int|
            0 <= i < forward.len() ==> around(anchor, forward, backward)[backward.len() + 1 + i]
                == #[trigger] forward[i],
        max_gen_len >= 1 ==> forward_cap(max_gen_len) + 1 == max_gen_len,
        max_gen_len >= forward.len() + 1 ==> backward_cap(max_gen_len, forward.len() as int) + 1
            + forward.len() == max_gen_len,
        max_gen_len <= forward.len() + 1 ==> backward_cap(max_gen_len, forward.len() as int) == 0,
{
}

/// What is left of a reply starts with the first chunk that is neither special nor punctuation;
/// what stands in front of it is dropped, and nothing behind it.
pub proof fn law_a_reply_opens_with_its_first_word(v: intern::Vocab, toks: Seq<u32>)
    ensures
        exists|n: int|
            {
                &&& 0 <= n <= toks.len()
                &&& opening(v, toks) == #[trigger] toks.skip(n)
                &&& n < toks.len() ==> toks[n] >= 16 && !charclass::punct_only(
                    intern::text_of(v, toks[n]),
                )
                &&& forall|i: int|
                    0 <= i < n ==> (#[trigger] toks[i]) < 16 || charclass::punct_only(
                        intern::text_of(v, toks[i]),
                    )
            },
    decreases toks.len(),
{
    if toks.len() > 0 && opens_badly(v, toks[0]) {
        let rest = toks.subrange(1, toks.len() as int);
        law_a_reply_opens_with_its_first_word(v, rest);
        let n = choose|n: int|
            {
                &&& 0 <= n <= rest.len()
                &&& opening(v, rest) == #[trigger] rest.skip(n)
                &&& n < rest.len() ==> rest[n] >= 16 && !charclass::punct_only(
                    intern::text_of(v, rest[n]),
                )
                &&& forall|i: int|
                    0 <= i < n ==> (#[trigger] rest[i]) < 16 || charclass::punct_only(
                        intern::text_of(v, rest[i]),
                    )
            };
        assert(rest.skip(n) =~= toks.skip(n + 1));
        assert forall|i: int| 0 <= i < n + 1 implies (#[trigger] toks[i]) < 16
            || charclass::punct_only(intern::text_of(v, toks[i])) by {
            if i > 0 {
                assert(rest[i - 1] == toks[i]);
            }
        }
    } else {
        assert(toks.skip(0) =~= toks);
    }
}

/// The gapped context and the recent tokens are looked at exactly where the match is sparse,
/// they are weighed at all, and there is something to count. Ids seen at an order are excluded
/// below it where that is asked for, and always under the Kneser-Ney smoothing.
pub proof fn law_sparse_contexts_get_help(e: Evidence, store: Store, params: Params, ctx: Seq<u32>)
    requires
        e.counts_for(store, params, ctx),
    ensures
        e.skip is Some <==> (e.used < ctx.len() || e.freq < params.f_min) && bits::positive64(
            params.lambda_skip,
        ) && ctx.len() >= 3 && behind(store.text@, store.buf@, gapped(ctx)).len() > 0,
        e.recent is Some <==> (e.used < ctx.len() || e.freq < params.f_min) && bits::positive64(
            params.lambda_cache,
        ) && ctx.len() >= 1,
        params.smoothing == SmoothingKind::Kn ==> e.exclude,
        params.smoothing != SmoothingKind::Kn ==> e.exclude == params.ppm_exclude,
{
    if let Some(o) = e.skip {
        assert(suffix(gapped(ctx), o.used as int) =~= gapped(ctx));
    }
}

/// A census lists every token of a list once, with how often it stands there.
pub proof fn law_a_census_lists_each_once(t: Seq<(u32, u32)>, xs: Seq<u32>, x: u32)
    requires
        is_census(t, xs),
    ensures
        xs.contains(x) <==> exists|i: int| 0 <= i < t.len() && (#[trigger] t[i]).0 == x,
        forall|i: int, j: int| 0 <= i < j < t.len() ==> (#[trigger] t[i]).0 != (#[trigger] t[j]).0,
        forall|i: int|
            0 <= i < t.len() ==> (#[trigger] t[i]).1 == xs.to_multiset().count(t[i].0),
{
    let any = |x: u32| true;
    let ids = smoothing::tokens_of(t);
    tally::law_firsts_lists_each_once(xs, any);
    assert forall|i: int| 0 <= i < t.len() implies (#[trigger] t[i]).1 == xs.to_multiset().count(
        t[i].0,
    ) by {
        tally::law_occurrences_are_counted(xs, t[i].0);
    }
    assert forall|i: int| 0 <= i < t.len() implies (#[trigger] t[i]).0 == ids[i] by {}
    if xs.contains(x) {
        assert(ids.contains(x));
        let i = choose|i: int| 0 <= i < ids.len() && ids[i] == x;
        assert(t[i].0 == x);
    }
    if exists|i: int| 0 <= i < t.len() && (#[trigger] t[i]).0 == x {
        let i = choose|i: int| 0 <= i < t.len() && (#[trigger] t[i]).0 == x;
        assert(ids[i] == x);
        assert(ids.contains(x));
    }
}

} // verus!
