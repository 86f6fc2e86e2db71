//! What the log makes of the bot: corpus, retrieve and adapt stores, windows and ledgers.
//!
//! Everything here is a function of the dialogue lines heard so far. `replay` builds it from a
//! log in one go, `settle` grows it by one turn; both come to the same memory.
use crate::adapt;
use crate::adapt::PairStore;
use crate::embed;
use crate::embed::HashEmbedder;
use crate::embed::TopicTracker;
use crate::entropy;
use crate::generate;
use crate::ids::FIRST_USER;
use crate::ids::TokenId;
use crate::interest;
use crate::interest::InterestLedger;
use crate::interest::Touch;
use crate::interject;
use crate::interject::InterjectBank;
use crate::intern;
use crate::intern::Interner;
use crate::log::Record;
use crate::log::Role;
use crate::mix;
use crate::params::Params;
use crate::retrieve;
use crate::retrieve::BotStore;
use crate::store;
use crate::store::Store;
use crate::text;
use crate::tokenizer;
use crate::tokenizer::Tokenizer;
use vstd::prelude::*;

verus! {

/// A dialogue line as it was heard.
#[verifier::ext_equal]
pub struct Heard {
    pub role: Role,
    pub text: Seq<char>,
    pub learned: bool,
    pub chunks: Seq<u32>,
}

/// A vocabulary without user strings.
pub open spec fn fresh() -> intern::Vocab {
    intern::Vocab {
        strings: Seq::new(FIRST_USER as nat, |i: int| intern::reserved(i)),
        ids: Map::empty(),
    }
}

/// What the first `k` records say, cut by a tokenizer: the vocabulary and the dialogue lines.
/// Preference records are not dialogue.
pub open spec fn hear(
    tk: Tokenizer,
    recs: Seq<Record>,
    scores: Seq<Vec<u64>>,
    k: int,
) -> (intern::Vocab, Seq<Heard>)
    decreases k,
{
    if k <= 0 {
        (fresh(), Seq::empty())
    } else {
        let before = hear(tk, recs, scores, k - 1);
        let r = recs[k - 1];
        if r.role == Role::Meta {
            before
        } else {
            let ms = tk.morphs(r.text@, scores[k - 1]@);
            let cs = tk.chunks(r.text@, scores[k - 1]@);
            let v = intern::with_all(before.0, ms + cs);
            (
                v,
                before.1.push(
                    Heard {
                        role: r.role,
                        text: r.text@,
                        learned: r.learned,
                        chunks: tokenizer::ids_of(v, cs),
                    },
                ),
            )
        }
    }
}

/// The token stream of the absorbed lines.
pub open spec fn corpus(hs: Seq<Heard>) -> Seq<u32>
    decreases hs.len(),
{
    if hs.len() == 0 {
        Seq::empty()
    } else if hs.last().learned {
        corpus(hs.drop_last()) + store::wrapped(hs.last().chunks)
    } else {
        corpus(hs.drop_last())
    }
}

/// The token stream of the absorbed lines, each turned round.
pub open spec fn mirror(hs: Seq<Heard>) -> Seq<u32>
    decreases hs.len(),
{
    if hs.len() == 0 {
        Seq::empty()
    } else if hs.last().learned {
        mirror(hs.drop_last()) + store::wrapped(generate::reversed(hs.last().chunks))
    } else {
        mirror(hs.drop_last())
    }
}

/// The chunks of all lines.
pub open spec fn all_chunks(hs: Seq<Heard>) -> Seq<u32>
    decreases hs.len(),
{
    if hs.len() == 0 {
        Seq::empty()
    } else {
        all_chunks(hs.drop_last()) + hs.last().chunks
    }
}

/// The texts of a role.
pub open spec fn texts_of(hs: Seq<Heard>, role: Role) -> Seq<Seq<char>>
    decreases hs.len(),
{
    if hs.len() == 0 {
        Seq::empty()
    } else if hs.last().role == role {
        texts_of(hs.drop_last(), role).push(hs.last().text)
    } else {
        texts_of(hs.drop_last(), role)
    }
}

/// The absorbed lines of the bot.
pub open spec fn bot_lines(hs: Seq<Heard>) -> Seq<retrieve::Said>
    decreases hs.len(),
{
    if hs.len() == 0 {
        Seq::empty()
    } else if hs.last().learned && hs.last().role == Role::Bot {
        bot_lines(hs.drop_last()).push(
            retrieve::Said { text: hs.last().text, toks: hs.last().chunks, bins: Seq::empty() },
        )
    } else {
        bot_lines(hs.drop_last())
    }
}

/// The exchanges whose reply was absorbed, and the user line that still waits for its reply.
pub open spec fn exchanges(hs: Seq<Heard>) -> (
    Seq<adapt::Exchange>,
    Option<(Seq<char>, Seq<u32>)>,
)
    decreases hs.len(),
{
    if hs.len() == 0 {
        (Seq::empty(), None)
    } else {
        let before = exchanges(hs.drop_last());
        let h = hs.last();
        if h.role == Role::User {
            (before.0, Some((h.text, h.chunks)))
        } else if h.role == Role::Bot {
            match before.1 {
                Some(p) if h.learned => (
                    before.0.push(
                        adapt::Exchange {
                            user_text: p.0,
                            user_chunks: p.1,
                            reply_chunks: h.chunks,
                            bins: Seq::empty(),
                        },
                    ),
                    None,
                ),
                _ => (before.0, None),
            }
        } else {
            before
        }
    }
}

/// The exchanges that are kept: none where the source is switched off.
pub open spec fn kept_exchanges(hs: Seq<Heard>, n_adapt: int) -> Seq<adapt::Exchange> {
    if n_adapt > 0 {
        exchanges(hs).0
    } else {
        Seq::empty()
    }
}

/// What the interjection bank holds.
pub open spec fn interjected(hs: Seq<Heard>) -> Seq<(Seq<char>, int)>
    decreases hs.len(),
{
    if hs.len() == 0 {
        Seq::empty()
    } else if hs.last().learned && hs.last().chunks.len() > 0 {
        interject::fed(interjected(hs.drop_last()), hs.last().text)
    } else {
        interjected(hs.drop_last())
    }
}

/// The absorbed lines that have chunks.
pub open spec fn lessons(hs: Seq<Heard>) -> Seq<Seq<u32>>
    decreases hs.len(),
{
    if hs.len() == 0 {
        Seq::empty()
    } else if hs.last().learned && hs.last().chunks.len() > 0 {
        lessons(hs.drop_last()).push(hs.last().chunks)
    } else {
        lessons(hs.drop_last())
    }
}

/// Absorbed chunks so far.
pub open spec fn clock(ls: Seq<Seq<u32>>) -> int
    decreases ls.len(),
{
    if ls.len() == 0 {
        0
    } else {
        clock(ls.drop_last()) + ls.last().len()
    }
}

/// A line touches a chunk.
pub open spec fn touches(v: intern::Vocab, l: Seq<u32>, id: u32) -> bool {
    interest::touched(v, l, l.len() as int, id)
}

/// In how many lines a chunk appeared.
pub open spec fn appearances(v: intern::Vocab, ls: Seq<Seq<u32>>, id: u32) -> int
    decreases ls.len(),
{
    if ls.len() == 0 {
        0
    } else {
        appearances(v, ls.drop_last(), id) + (if touches(v, ls.last(), id) {
            1int
        } else {
            0
        })
    }
}

/// The clock at the last line in which a chunk appeared.
pub open spec fn last_touch(v: intern::Vocab, ls: Seq<Seq<u32>>, id: u32) -> int
    decreases ls.len(),
{
    if ls.len() == 0 {
        0
    } else if touches(v, ls.last(), id) {
        clock(ls.drop_last())
    } else {
        last_touch(v, ls.drop_last(), id)
    }
}

/// The ledger counts these lines.
pub open spec fn ledger_of(l: InterestLedger, v: intern::Vocab, ls: Seq<Seq<u32>>) -> bool {
    &&& l.wf()
    &&& l.g == clock(ls)
    &&& forall|id: u32| #[trigger]
        l.utterances(id) == entropy::saturated(appearances(v, ls, id))
    &&& forall|id: u32| #[trigger] l.touched_at(id) == last_touch(v, ls, id)
    &&& forall|id: u32| #[trigger] l.knows(id) <==> appearances(v, ls, id) > 0
}

/// The last `n`.
pub open spec fn last_n<T>(xs: Seq<T>, n: int) -> Seq<T> {
    if xs.len() > n {
        xs.subrange(xs.len() - n, xs.len() as int)
    } else {
        xs
    }
}

/// What a scan of the last `cap` sees; a cap of 0 sees everything.
pub open spec fn scanned<T>(xs: Seq<T>, cap: int) -> Seq<T> {
    xs.subrange(retrieve::scan_from(xs.len() as int, cap), xs.len() as int)
}

/// The bins of texts, as the topic window holds them.
pub open spec fn topic_bins(ts: Seq<Seq<char>>, dim: int, width: int) -> Seq<Seq<i64>> {
    ts.map_values(|t: Seq<char>| embed::fitted(embed::bins_of(t, dim), width))
}

/// Width of the topic window.
pub open spec fn topic_span(params: Params) -> int {
    if params.k_topic < 1 {
        1
    } else {
        params.k_topic as int
    }
}

/// Length of the context history.
pub open spec fn history_cap(params: Params) -> int {
    4 * params.context_cap()
}

/// Every chunk of the lines has a string.
pub open spec fn known_chunks(v: intern::Vocab, hs: Seq<Heard>) -> bool {
    forall|i: int| 0 <= i < hs.len() ==> all_known(v, (#[trigger] hs[i]).chunks)
}

/// Every token has a string.
pub open spec fn all_known(v: intern::Vocab, toks: Seq<u32>) -> bool {
    forall|j: int| 0 <= j < toks.len() ==> #[trigger] toks[j] < v.strings.len()
}

/// Everything that the log makes of the bot.
pub struct Memory {
    pub intern: Interner,
    pub store: Store,
    /// Reversed-stream twin of `store` for keyword-anchored bidirectional
    /// generation. Empty when `bidir` is off.
    pub rev_store: Store,
    pub topic: TopicTracker,
    pub history: Vec<TokenId>,
    /// Retrieve source: past bot utterances.
    pub bots: BotStore,
    /// Adapt source: learned exchanges.
    pub pairs: PairStore,
    /// Last `self_window` own reply texts for the self-repetition penalty.
    /// Text, not tokens: the penalty is char-level so live and replay agree
    /// exactly (token ids drift across reopen).
    pub recent_bot: Vec<String>,
    /// 関心: chunk ledger on the log-position clock.
    pub interest: InterestLedger,
    /// 合いの手 bank: short learned lines with frequencies.
    pub interjects: InterjectBank,
}

impl Memory {
    pub open spec fn wf(&self) -> bool {
        &&& self.intern.wf()
        &&& self.intern@.strings.len() < u32::MAX - 1
        &&& intern::dense(self.intern@)
        &&& self.store.wf()
        &&& self.store.synced()
        &&& self.rev_store.wf()
        &&& self.rev_store.synced()
        &&& self.topic.wf()
        &&& self.interest.wf()
        &&& self.interjects.wf()
    }

    /// The memory is what these lines make it, but for the topic window.
    pub open spec fn recalls(&self, params: Params, dim: int, hs: Seq<Heard>) -> bool {
        &&& known_chunks(self.intern@, hs)
        &&& self.store.stream() == corpus(hs)
        &&& self.rev_store.stream() == (if params.bidir {
            mirror(hs)
        } else {
            Seq::empty()
        })
        &&& self.history@ == last_n(all_chunks(hs), history_cap(params))
        &&& scanned(self.bots@, params.n_retrieve_scan as int) == retrieve::with_bins(
            scanned(bot_lines(hs), params.n_retrieve_scan as int),
            dim,
        )
        &&& scanned(self.pairs@, params.n_retrieve_scan as int) == adapt::with_bins(
            scanned(kept_exchanges(hs, params.n_adapt as int), params.n_retrieve_scan as int),
            dim,
        )
        &&& text::texts(self.recent_bot@) == last_n(
            texts_of(hs, Role::Bot),
            params.self_window as int,
        )
        &&& ledger_of(self.interest, self.intern@, lessons(hs))
        &&& interject::held(self.interjects.items@) == interjected(hs)
    }

    /// Nothing is left in a buffer, and nothing is kept that no scan sees.
    pub open spec fn is_merged(&self, params: Params, dim: int, hs: Seq<Heard>) -> bool {
        let cap = params.n_retrieve_scan as int;
        &&& self.bots@ == retrieve::with_bins(scanned(bot_lines(hs), cap), dim)
        &&& self.pairs@ == adapt::with_bins(
            scanned(kept_exchanges(hs, params.n_adapt as int), cap),
            dim,
        )
        &&& self.store.buf.len() == 0
        &&& self.rev_store.buf.len() == 0
        &&& self.store.threshold() == store::threshold_for(params.merge_threshold)
        &&& self.rev_store.threshold() == store::threshold_for(params.merge_threshold)
    }

    /// The topic window holds the newest of these user texts.
    pub open spec fn follows_topic(&self, params: Params, dim: int, users: Seq<Seq<char>>) -> bool {
        &&& self.topic.k == topic_span(params)
        &&& self.topic.dim == params.embed_dim
        &&& embed::held_bins(self.topic.window@) == topic_bins(
            last_n(users, topic_span(params)),
            dim,
            params.embed_dim as int,
        )
    }
}

/// One log makes one memory: whatever recalls the same lines holds the same corpus, history,
/// replies, exchanges, ledger and bank.
pub proof fn law_same_lines_same_memory(
    a: Memory,
    b: Memory,
    params: Params,
    dim: int,
    hs: Seq<Heard>,
)
    requires
        a.intern@ == b.intern@,
        a.recalls(params, dim, hs),
        b.recalls(params, dim, hs),
    ensures
        a.store.stream() == b.store.stream(),
        a.rev_store.stream() == b.rev_store.stream(),
        a.history@ == b.history@,
        scanned(a.bots@, params.n_retrieve_scan as int) == scanned(
            b.bots@,
            params.n_retrieve_scan as int,
        ),
        scanned(a.pairs@, params.n_retrieve_scan as int) == scanned(
            b.pairs@,
            params.n_retrieve_scan as int,
        ),
        text::texts(a.recent_bot@) == text::texts(b.recent_bot@),
        interject::held(a.interjects.items@) == interject::held(b.interjects.items@),
        a.interest.g == b.interest.g,
        forall|id: u32| #[trigger] a.interest.knows(id) <==> b.interest.knows(id),
        forall|id: u32| #[trigger] a.interest.utterances(id) == b.interest.utterances(id),
        forall|id: u32| #[trigger] a.interest.touched_at(id) == b.interest.touched_at(id),
{
    let v = a.intern@;
    let ls = lessons(hs);
    assert forall|id: u32| #[trigger] a.interest.knows(id) <==> b.interest.knows(id) by {
        assert(b.interest.knows(id) <==> appearances(v, ls, id) > 0);
    }
    assert forall|id: u32| #[trigger] a.interest.utterances(id) == b.interest.utterances(id) by {
        assert(b.interest.utterances(id) == entropy::saturated(appearances(v, ls, id)));
    }
    assert forall|id: u32| #[trigger] a.interest.touched_at(id) == b.interest.touched_at(id) by {
        assert(b.interest.touched_at(id) == last_touch(v, ls, id));
    }
}

// ---- laws of the windows ----
/// Trimming twice is trimming once.
pub proof fn law_trim_again<T>(a: Seq<T>, b: Seq<T>, n: int)
    requires
        n >= 0,
    ensures
        last_n(last_n(a, n) + b, n) == last_n(a + b, n),
{
    assert(last_n(last_n(a, n) + b, n) =~= last_n(a + b, n));
}

/// A scan sees a new entry in the same place whether or not the front was trimmed.
pub proof fn law_scan_of_trimmed<T>(a: Seq<T>, b: Seq<T>, y: T, cap: int)
    requires
        cap >= 0,
        scanned(a, cap) == scanned(b, cap),
    ensures
        scanned(a.push(y), cap) == scanned(b.push(y), cap),
{
    let sa = scanned(a, cap);
    let sb = scanned(b, cap);
    if cap == 0 || a.len() < cap {
        assert(sa =~= a);
        assert(sb =~= b);
    } else {
        assert(sa.len() == cap);
        assert(b.len() >= cap);
        assert(scanned(a.push(y), cap) =~= sa.subrange(1, cap).push(y));
        assert(scanned(b.push(y), cap) =~= sb.subrange(1, cap).push(y));
    }
}

proof fn lemma_scan_skip<T>(xs: Seq<T>, cap: int)
    requires
        cap >= 0,
    ensures
        scanned(xs.skip(retrieve::overflow(xs.len() as int, cap)), cap) == scanned(xs, cap),
{
    let kept = xs.skip(retrieve::overflow(xs.len() as int, cap));
    assert(scanned(kept, cap) =~= scanned(xs, cap));
}

// ---- how the parts grow by a line ----
/// What one more line does to each part.
pub proof fn law_one_more_line(hs: Seq<Heard>, h: Heard)
    ensures
        corpus(hs.push(h)) == (if h.learned {
            corpus(hs) + store::wrapped(h.chunks)
        } else {
            corpus(hs)
        }),
        mirror(hs.push(h)) == (if h.learned {
            mirror(hs) + store::wrapped(generate::reversed(h.chunks))
        } else {
            mirror(hs)
        }),
        all_chunks(hs.push(h)) == all_chunks(hs) + h.chunks,
        forall|role: Role| #[trigger]
            texts_of(hs.push(h), role) == (if h.role == role {
                texts_of(hs, role).push(h.text)
            } else {
                texts_of(hs, role)
            }),
        bot_lines(hs.push(h)) == (if h.learned && h.role == Role::Bot {
            bot_lines(hs).push(
                retrieve::Said { text: h.text, toks: h.chunks, bins: Seq::empty() },
            )
        } else {
            bot_lines(hs)
        }),
        interjected(hs.push(h)) == (if h.learned && h.chunks.len() > 0 {
            interject::fed(interjected(hs), h.text)
        } else {
            interjected(hs)
        }),
        lessons(hs.push(h)) == (if h.learned && h.chunks.len() > 0 {
            lessons(hs).push(h.chunks)
        } else {
            lessons(hs)
        }),
{
    assert(hs.push(h).drop_last() =~= hs);
}

proof fn lemma_exchanges_push(hs: Seq<Heard>, h: Heard)
    ensures
        h.role == Role::User ==> exchanges(hs.push(h)) == (
            exchanges(hs).0,
            Some((h.text, h.chunks)),
        ),
        h.role == Role::Bot ==> exchanges(hs.push(h)) == (match exchanges(hs).1 {
            Some(p) if h.learned => (
                exchanges(hs).0.push(
                    adapt::Exchange {
                        user_text: p.0,
                        user_chunks: p.1,
                        reply_chunks: h.chunks,
                        bins: Seq::empty(),
                    },
                ),
                None::<(Seq<char>, Seq<u32>)>,
            ),
            _ => (exchanges(hs).0, None::<(Seq<char>, Seq<u32>)>),
        }),
{
    assert(hs.push(h).drop_last() =~= hs);
}

/// A new vocabulary says of old chunks what the old one said.
pub open spec fn extends(v: intern::Vocab, w: intern::Vocab) -> bool {
    &&& v.strings.len() <= w.strings.len()
    &&& forall|i: int| 0 <= i < v.strings.len() ==> #[trigger] w.strings[i] == v.strings[i]
}

proof fn lemma_touches_stable(v: intern::Vocab, w: intern::Vocab, l: Seq<u32>, id: u32)
    requires
        extends(v, w),
        all_known(v, l),
    ensures
        touches(v, l, id) == touches(w, l, id),
{
    if exists|j: int| 0 <= j < l.len() && #[trigger] l[j] == id {
        let j = choose|j: int| 0 <= j < l.len() && #[trigger] l[j] == id;
        assert(l[j] < v.strings.len());
        assert(intern::text_of(v, id) == intern::text_of(w, id));
    }
}

proof fn lemma_counts_stable(v: intern::Vocab, w: intern::Vocab, ls: Seq<Seq<u32>>, id: u32)
    requires
        extends(v, w),
        forall|i: int| 0 <= i < ls.len() ==> all_known(v, #[trigger] ls[i]),
    ensures
        appearances(v, ls, id) == appearances(w, ls, id),
        last_touch(v, ls, id) == last_touch(w, ls, id),
        appearances(v, ls, id) >= 0,
    decreases ls.len(),
{
    if ls.len() > 0 {
        let front = ls.drop_last();
        assert forall|i: int| 0 <= i < front.len() implies all_known(v, #[trigger] front[i]) by {
            assert(front[i] == ls[i]);
        }
        lemma_counts_stable(v, w, front, id);
        lemma_touches_stable(v, w, ls.last(), id);
    }
}

/// A ledger stays right when the vocabulary grows.
pub proof fn law_ledger_survives_growth(
    l: InterestLedger,
    v: intern::Vocab,
    w: intern::Vocab,
    ls: Seq<Seq<u32>>,
)
    requires
        ledger_of(l, v, ls),
        extends(v, w),
        forall|i: int| 0 <= i < ls.len() ==> all_known(v, #[trigger] ls[i]),
    ensures
        ledger_of(l, w, ls),
{
    assert forall|id: u32| #[trigger] l.utterances(id) == entropy::saturated(
        appearances(w, ls, id),
    ) by {
        lemma_counts_stable(v, w, ls, id);
    }
    assert forall|id: u32| #[trigger] l.touched_at(id) == last_touch(w, ls, id) by {
        lemma_counts_stable(v, w, ls, id);
    }
    assert forall|id: u32| #[trigger] l.knows(id) <==> appearances(w, ls, id) > 0 by {
        lemma_counts_stable(v, w, ls, id);
    }
}

/// A chunk is hearsay, and has no score, exactly where it is unknown or appeared in fewer than
/// `hearsay_min` lines; repeats inside a line count once.
pub proof fn law_hearsay_counts_lines(
    l: InterestLedger,
    v: intern::Vocab,
    ls: Seq<Seq<u32>>,
    id: u32,
    hearsay_min: u32,
)
    requires
        ledger_of(l, v, ls),
    ensures
        !l.knows(id) || l.utterances(id) < hearsay_min <==> appearances(v, ls, id) == 0
            || appearances(v, ls, id) < hearsay_min,
{
    lemma_appearances_nonneg(v, ls, id);
    assert(l.knows(id) <==> appearances(v, ls, id) > 0);
    assert(l.utterances(id) == entropy::saturated(appearances(v, ls, id)));
}

proof fn lemma_known_extends(v: intern::Vocab, w: intern::Vocab, hs: Seq<Heard>)
    requires
        known_chunks(v, hs),
        v.strings.len() <= w.strings.len(),
    ensures
        known_chunks(w, hs),
{
    assert forall|i: int| 0 <= i < hs.len() implies all_known(w, (#[trigger] hs[i]).chunks) by {
        assert(all_known(v, hs[i].chunks));
    }
}

proof fn lemma_lessons_known(v: intern::Vocab, hs: Seq<Heard>)
    requires
        known_chunks(v, hs),
    ensures
        forall|i: int| 0 <= i < lessons(hs).len() ==> all_known(v, #[trigger] lessons(hs)[i]),
    decreases hs.len(),
{
    if hs.len() > 0 {
        let front = hs.drop_last();
        assert forall|i: int| 0 <= i < front.len() implies all_known(
            v,
            (#[trigger] front[i]).chunks,
        ) by {
            assert(front[i] == hs[i]);
        }
        lemma_lessons_known(v, front);
        assert(all_known(v, hs[hs.len() - 1].chunks));
        let ls = lessons(hs);
        assert forall|i: int| 0 <= i < ls.len() implies all_known(v, #[trigger] ls[i]) by {
            if i < lessons(front).len() {
                assert(ls[i] == lessons(front)[i]);
            }
        }
    }
}

/// A memory still recalls its lines when its vocabulary grows and its topic moves.
pub proof fn law_recall_survives_growth(
    a: Memory,
    b: Memory,
    params: Params,
    dim: int,
    hs: Seq<Heard>,
)
    requires
        a.recalls(params, dim, hs),
        b == (Memory { intern: b.intern, topic: b.topic, ..a }),
        extends(a.intern@, b.intern@),
    ensures
        b.recalls(params, dim, hs),
{
    lemma_known_extends(a.intern@, b.intern@, hs);
    lemma_lessons_known(a.intern@, hs);
    law_ledger_survives_growth(a.interest, a.intern@, b.intern@, lessons(hs));
}

proof fn lemma_appearances_nonneg(v: intern::Vocab, ls: Seq<Seq<u32>>, id: u32)
    ensures
        0 <= appearances(v, ls, id) <= ls.len(),
    decreases ls.len(),
{
    if ls.len() > 0 {
        lemma_appearances_nonneg(v, ls.drop_last(), id);
    }
}

/// What learning a line does to a ledger.
proof fn lemma_ledger_learns(
    before: InterestLedger,
    after: InterestLedger,
    v: intern::Vocab,
    ls: Seq<Seq<u32>>,
    l: Seq<u32>,
)
    requires
        ledger_of(before, v, ls),
        after.wf(),
        after.g == before.g + l.len(),
        forall|id: u32| #[trigger]
            after.utterances(id) == (if touches(v, l, id) {
                entropy::saturated(before.utterances(id) + 1)
            } else {
                before.utterances(id)
            }),
        forall|id: u32| #[trigger]
            after.touched_at(id) == (if touches(v, l, id) {
                before.g as int
            } else {
                before.touched_at(id)
            }),
        forall|id: u32| #[trigger] after.knows(id) <==> before.knows(id) || touches(v, l, id),
    ensures
        ledger_of(after, v, ls.push(l)),
{
    let all = ls.push(l);
    assert(all.drop_last() =~= ls);
    assert forall|id: u32| #[trigger] after.utterances(id) == entropy::saturated(
        appearances(v, all, id),
    ) by {
        lemma_appearances_nonneg(v, ls, id);
        assert(before.utterances(id) == entropy::saturated(appearances(v, ls, id)));
    }
    assert forall|id: u32| #[trigger] after.touched_at(id) == last_touch(v, all, id) by {
        assert(before.touched_at(id) == last_touch(v, ls, id));
    }
    assert forall|id: u32| #[trigger] after.knows(id) <==> appearances(v, all, id) > 0 by {
        lemma_appearances_nonneg(v, ls, id);
        assert(before.knows(id) <==> appearances(v, ls, id) > 0);
    }
}

// ---- training ----
/// The record trains the tokenizer.
pub open spec fn trains(r: Record) -> bool {
    r.role != Role::Meta && r.learned
}

/// Characters of the first `k` records that train.
pub open spec fn trained_chars(recs: Seq<Record>, k: int) -> int
    decreases k,
{
    if k <= 0 {
        0
    } else {
        trained_chars(recs, k - 1) + (if trains(recs[k - 1]) {
            recs[k - 1].text@.len() as int
        } else {
            0
        })
    }
}

/// How often a gram stands in the first `k` records that train.
pub open spec fn trained_grams(recs: Seq<Record>, k: int, g: Seq<u32>, max_n: int) -> int
    decreases k,
{
    if k <= 0 {
        0
    } else {
        trained_grams(recs, k - 1, g, max_n) + (if trains(recs[k - 1]) {
            entropy::gram_hits(entropy::codes(recs[k - 1].text@), g, max_n)
        } else {
            0
        })
    }
}

/// How often a gram stands there with `c` behind it.
pub open spec fn trained_nexts(recs: Seq<Record>, k: int, g: Seq<u32>, max_n: int, c: u32) -> int
    decreases k,
{
    if k <= 0 {
        0
    } else {
        trained_nexts(recs, k - 1, g, max_n, c) + (if trains(recs[k - 1]) {
            entropy::next_hits(entropy::codes(recs[k - 1].text@), g, max_n, c)
        } else {
            0
        })
    }
}

proof fn lemma_trained_mono(recs: Seq<Record>, k: int, n: int)
    requires
        0 <= k <= n,
    ensures
        0 <= trained_chars(recs, k) <= trained_chars(recs, n),
    decreases n,
{
    if k < n {
        lemma_trained_mono(recs, k, n - 1);
    } else if n > 0 {
        lemma_trained_mono(recs, n - 1, n - 1);
    }
}

/// The tokenizer has counted the absorbed lines of a log, and nothing else.
pub open spec fn is_trained(tk: Tokenizer, params: Params, recs: Seq<Record>) -> bool {
    let n = recs.len() as int;
    &&& tk.wf()
    &&& tk.cut == params.entropy_cut
    &&& tk.chunk_morphs == (if params.chunk_morphs < 1 {
        1
    } else {
        params.chunk_morphs
    })
    &&& tk.model.max_n == (if params.entropy_n < 2 {
        2
    } else {
        params.entropy_n
    })
    &&& tk.model.total_chars == trained_chars(recs, n)
    &&& forall|g: Seq<u32>| #[trigger]
        tk.model.gram_count(g) == entropy::saturated(
            trained_grams(recs, n, g, tk.model.max_n as int),
        )
    &&& forall|g: Seq<u32>, c: u32| #[trigger]
        tk.model.next_count(g, c) == trained_nexts(recs, n, g, tk.model.max_n as int, c)
}

/// A tokenizer trained on the absorbed lines of a log.
pub fn train(params: &Params, recs: &Vec<Record>) -> (r: Tokenizer)
    requires
        trained_chars(recs@, recs.len() as int) < u32::MAX,
    ensures
        is_trained(r, *params, recs@),
{
    let mut tk = Tokenizer::new(params);
    let ghost n = recs.len() as int;
    let ghost max_n = tk.model.max_n as int;
    let ghost cm = tk.chunk_morphs;
    let mut i: usize = 0;
    while i < recs.len()
        invariant
            n == recs.len(),
            i <= n,
            trained_chars(recs@, n) < u32::MAX,
            tk.wf(),
            tk.cut == params.entropy_cut,
            tk.chunk_morphs == cm,
            tk.model.max_n == max_n,
            tk.model.total_chars == trained_chars(recs@, i as int),
            forall|g: Seq<u32>| #[trigger]
                tk.model.gram_count(g) == entropy::saturated(
                    trained_grams(recs@, i as int, g, max_n),
                ),
            forall|g: Seq<u32>| #[trigger] trained_grams(recs@, i as int, g, max_n) >= 0,
            forall|g: Seq<u32>, c: u32| #[trigger]
                tk.model.next_count(g, c) == trained_nexts(recs@, i as int, g, max_n, c),
        decreases n - i,
    {
        let ghost was = tk.model;
        let meta: bool = match recs[i].role {
            Role::Meta => true,
            _ => false,
        };
        if !meta && recs[i].learned {
            proof {
                lemma_trained_mono(recs@, i + 1, n);
            }
            tk.observe(recs[i].text.as_str());
            proof {
                assert forall|g: Seq<u32>| #[trigger] trained_grams(recs@, i + 1, g, max_n)
                    >= 0 by {
                    entropy::lemma_gram_hits_nonneg(
                        entropy::codes(recs@[i as int].text@),
                        g,
                        max_n,
                    );
                    assert(trained_grams(recs@, i as int, g, max_n) >= 0);
                }
                assert forall|g: Seq<u32>| #[trigger] tk.model.gram_count(g)
                    == entropy::saturated(trained_grams(recs@, i + 1, g, max_n)) by {
                    entropy::lemma_gram_hits_nonneg(
                        entropy::codes(recs@[i as int].text@),
                        g,
                        max_n,
                    );
                    assert(was.gram_count(g) == entropy::saturated(
                        trained_grams(recs@, i as int, g, max_n),
                    ));
                    assert(trained_grams(recs@, i as int, g, max_n) >= 0);
                }
                assert forall|g: Seq<u32>, c: u32| #[trigger] tk.model.next_count(g, c)
                    == trained_nexts(recs@, i + 1, g, max_n, c) by {
                    assert(was.next_count(g, c) == trained_nexts(recs@, i as int, g, max_n, c));
                }
            }
        } else {
            proof {
                assert forall|g: Seq<u32>| #[trigger] trained_grams(recs@, i + 1, g, max_n)
                    >= 0 by {
                    assert(trained_grams(recs@, i as int, g, max_n) >= 0);
                }
                assert forall|g: Seq<u32>| #[trigger] tk.model.gram_count(g)
                    == entropy::saturated(trained_grams(recs@, i + 1, g, max_n)) by {
                    assert(was.gram_count(g) == entropy::saturated(
                        trained_grams(recs@, i as int, g, max_n),
                    ));
                }
                assert forall|g: Seq<u32>, c: u32| #[trigger] tk.model.next_count(g, c)
                    == trained_nexts(recs@, i + 1, g, max_n, c) by {
                    assert(was.next_count(g, c) == trained_nexts(recs@, i as int, g, max_n, c));
                }
            }
        }
        i += 1;
    }
    tk
}

// ---- replay ----
/// Room that the first `k` records take; a preference takes none.
pub open spec fn volume(recs: Seq<Record>, k: int) -> int
    decreases k,
{
    if k <= 0 {
        0
    } else if recs[k - 1].role == Role::Meta {
        volume(recs, k - 1)
    } else {
        volume(recs, k - 1) + recs[k - 1].text@.len() + 2
    }
}

/// Room that a memory has for lines: positions of the index are 31-bit numbers, and every line
/// may bring two strings for each of its characters.
pub const ROOM: u32 = 0x7fff_fff0;

proof fn lemma_volume_mono(recs: Seq<Record>, k: int, n: int)
    requires
        0 <= k <= n,
    ensures
        0 <= volume(recs, k) <= volume(recs, n),
    decreases n,
{
    if k < n {
        lemma_volume_mono(recs, k, n - 1);
    } else if n > 0 {
        lemma_volume_mono(recs, n - 1, n - 1);
    }
}

/// The chunks that a line touched, and how far the clock ran since each was last touched. The
/// line is the last of the lessons.
pub open spec fn is_touch_list(v: intern::Vocab, ls: Seq<Seq<u32>>, ts: Seq<Touch>) -> bool {
    let before = ls.drop_last();
    let l = ls.last();
    &&& forall|i: int|
        0 <= i < ts.len() ==> touches(v, l, (#[trigger] ts[i]).id) && ts[i].elapsed == clock(before)
            - last_touch(v, before, ts[i].id)
    &&& forall|i: int, j: int|
        0 <= i < j < ts.len() ==> (#[trigger] ts[i]).id != (#[trigger] ts[j]).id
    &&& forall|id: u32| #[trigger]
        touches(v, l, id) ==> exists|i: int| 0 <= i < ts.len() && (#[trigger] ts[i]).id == id
}

/// One touch list for every lesson.
pub open spec fn are_touch_lists(v: intern::Vocab, ls: Seq<Seq<u32>>, all: Seq<Vec<Touch>>) -> bool {
    &&& all.len() == ls.len()
    &&& forall|k: int|
        0 <= k < all.len() ==> is_touch_list(v, ls.take(k + 1), (#[trigger] all[k])@)
}

proof fn lemma_touch_lists_survive(
    v: intern::Vocab,
    w: intern::Vocab,
    ls: Seq<Seq<u32>>,
    all: Seq<Vec<Touch>>,
)
    requires
        are_touch_lists(v, ls, all),
        extends(v, w),
        forall|i: int| 0 <= i < ls.len() ==> all_known(v, #[trigger] ls[i]),
    ensures
        are_touch_lists(w, ls, all),
{
    assert forall|k: int| 0 <= k < all.len() implies is_touch_list(
        w,
        ls.take(k + 1),
        (#[trigger] all[k])@,
    ) by {
        let part = ls.take(k + 1);
        let before = part.drop_last();
        let ts = all[k]@;
        assert(is_touch_list(v, part, ts));
        assert forall|i: int| 0 <= i < before.len() implies all_known(v, #[trigger] before[i]) by {
            assert(before[i] == ls[i]);
        }
        assert(part.last() == ls[k]);
        assert forall|i: int| 0 <= i < ts.len() implies touches(
            w,
            part.last(),
            (#[trigger] ts[i]).id,
        ) && ts[i].elapsed == clock(before) - last_touch(w, before, ts[i].id) by {
            lemma_touches_stable(v, w, part.last(), ts[i].id);
            lemma_counts_stable(v, w, before, ts[i].id);
        }
        assert forall|id: u32| #[trigger] touches(w, part.last(), id) implies exists|i: int|
            0 <= i < ts.len() && (#[trigger] ts[i]).id == id by {
            lemma_touches_stable(v, w, part.last(), id);
            assert(touches(v, part.last(), id));
        }
    }
}

proof fn lemma_touch_lists_push(
    v: intern::Vocab,
    ls: Seq<Seq<u32>>,
    all: Seq<Vec<Touch>>,
    l: Seq<u32>,
    ts: Vec<Touch>,
)
    requires
        are_touch_lists(v, ls, all),
        is_touch_list(v, ls.push(l), ts@),
    ensures
        are_touch_lists(v, ls.push(l), all.push(ts)),
{
    let more = ls.push(l);
    let lists = all.push(ts);
    assert forall|k: int| 0 <= k < lists.len() implies is_touch_list(
        v,
        more.take(k + 1),
        (#[trigger] lists[k])@,
    ) by {
        if k < all.len() {
            assert(more.take(k + 1) =~= ls.take(k + 1));
            assert(is_touch_list(v, ls.take(k + 1), all[k]@));
        } else {
            assert(more.take(k + 1) =~= more);
        }
    }
}

/// The line that a log record became.
pub open spec fn heard_line(r: Record, chunks: Seq<u32>) -> Heard {
    Heard { role: r.role, text: r.text@, learned: r.learned, chunks }
}

/// A user line that waits for its reply.
pub open spec fn waiting(p: Option<(String, Vec<TokenId>)>) -> Option<(Seq<char>, Seq<u32>)> {
    match p {
        Some(x) => Some((x.0@, x.1@)),
        None => None,
    }
}

/// The newest `n` texts.
fn keep_texts(v: &mut Vec<String>, n: usize)
    ensures
        text::texts(final(v)@) == last_n(text::texts(old(v)@), n as int),
{
    if v.len() > n {
        let cut: usize = v.len() - n;
        let kept = v.split_off(cut);
        *v = kept;
    }
    proof {
        assert(text::texts(v@) =~= last_n(text::texts(old(v)@), n as int));
    }
}

/// Appends tokens.
fn append(xs: &mut Vec<TokenId>, more: &Vec<TokenId>)
    ensures
        final(xs)@ == old(xs)@ + more@,
{
    let mut i: usize = 0;
    proof {
        assert(xs@ =~= old(xs)@ + more@.take(0));
    }
    while i < more.len()
        invariant
            i <= more.len(),
            xs@ == old(xs)@ + more@.take(i as int),
        decreases more.len() - i,
    {
        xs.push(more[i]);
        proof {
            assert(xs@ =~= old(xs)@ + more@.take(i + 1));
        }
        i += 1;
    }
    proof {
        assert(more@.take(i as int) =~= more@);
    }
}

impl Memory {
    /// What the parts hold while a log is replayed: nothing is trimmed or binned yet.
    pub open spec fn gathers(&self, params: Params, hs: Seq<Heard>) -> bool {
        &&& self.intern.wf()
        &&& self.intern@.strings.len() < u32::MAX - 1
        &&& intern::dense(self.intern@)
        &&& self.store.wf()
        &&& self.rev_store.wf()
        &&& self.interjects.wf()
        &&& known_chunks(self.intern@, hs)
        &&& self.store.stream() == corpus(hs)
        &&& self.rev_store.stream() == (if params.bidir {
            mirror(hs)
        } else {
            Seq::empty()
        })
        &&& self.history@ == all_chunks(hs)
        &&& self.bots@ == bot_lines(hs)
        &&& self.pairs@ == kept_exchanges(hs, params.n_adapt as int)
        &&& text::texts(self.recent_bot@) == last_n(
            texts_of(hs, Role::Bot),
            params.self_window as int,
        )
        &&& ledger_of(self.interest, self.intern@, lessons(hs))
        &&& interject::held(self.interjects.items@) == interjected(hs)
    }

    /// No part holds more than `n`.
    pub open spec fn within(&self, n: int) -> bool {
        self.intern@.strings.len() <= FIRST_USER + 2 * n && self.parts_within(n)
    }

    /// No part but the vocabulary holds more than `n`.
    pub open spec fn parts_within(&self, n: int) -> bool {
        &&& self.store.stream().len() <= n
        &&& self.rev_store.stream().len() <= n
        &&& self.interest.entries.len() <= n
        &&& self.interest.g <= n
        &&& self.interjects.items.len() <= n
        &&& self.interjects.total <= n
    }

    fn blank(params: &Params) -> (r: Self)
        ensures
            r.gathers(*params, Seq::empty()),
            r.within(0),
            r.intern@ == fresh(),
            r.topic.wf(),
            r.topic.k == topic_span(*params),
            r.topic.dim == params.embed_dim,
            r.topic.window.len() == 0,
            r.store.threshold() == store::threshold_for(params.merge_threshold),
            r.rev_store.threshold() == store::threshold_for(params.merge_threshold),
    {
        let intern = Interner::new();
        let store = Store::new(params.merge_threshold);
        let rev_store = Store::new(params.merge_threshold);
        let topic = TopicTracker::new(params.embed_dim, params.k_topic);
        let bots = BotStore::new();
        let pairs = PairStore::new();
        let interest = InterestLedger::new();
        let interjects = InterjectBank::new();
        let r = Memory {
            intern,
            store,
            rev_store,
            topic,
            history: Vec::new(),
            bots,
            pairs,
            recent_bot: Vec::new(),
            interest,
            interjects,
        };
        proof {
            let none = Seq::<Heard>::empty();
            assert(r.store.stream() =~= corpus(none));
            assert(r.rev_store.stream() =~= Seq::empty());
            assert(r.history@ =~= all_chunks(none));
            assert(text::texts(r.recent_bot@) =~= Seq::empty());
            assert(r.interjects.total == 0);
            assert(r.intern@ =~= fresh());
        }
        r
    }

    /// Takes an absorbed line into the ledgers.
    fn study(&mut self, line: &str, chunks: &Vec<TokenId>, Ghost(hs): Ghost<Seq<Heard>>) -> (ts: Vec<
        Touch,
    >)
        requires
            old(self).intern.wf(),
            known_chunks(old(self).intern@, hs),
            all_known(old(self).intern@, chunks@),
            ledger_of(old(self).interest, old(self).intern@, lessons(hs)),
            old(self).interjects.wf(),
            old(self).interest.entries.len() + chunks.len() < u32::MAX - 1,
            old(self).interest.g + chunks.len() <= u64::MAX,
            old(self).interjects.items.len() < u32::MAX - 1,
            old(self).interjects.total < u64::MAX,
        ensures
            *final(self) == (Memory {
                interest: final(self).interest,
                interjects: final(self).interjects,
                ..*old(self)
            }),
            ledger_of(final(self).interest, old(self).intern@, lessons(hs).push(chunks@)),
            final(self).interjects.wf(),
            interject::held(final(self).interjects.items@) == interject::fed(
                interject::held(old(self).interjects.items@),
                line@,
            ),
            final(self).interest.entries.len() <= old(self).interest.entries.len() + chunks.len(),
            final(self).interest.g == old(self).interest.g + chunks.len(),
            final(self).interjects.items.len() <= old(self).interjects.items.len() + 1,
            final(self).interjects.total <= old(self).interjects.total + 1,
            is_touch_list(old(self).intern@, lessons(hs).push(chunks@), ts@),
    {
        let ghost v = self.intern@;
        let ghost ls = lessons(hs);
        let ghost before = self.interest;
        let ts = self.interest.learn(chunks, &self.intern);
        self.interjects.learn(line);
        proof {
            assert forall|id: u32| #[trigger] self.interest.utterances(id) == (if touches(
                v,
                chunks@,
                id,
            ) {
                entropy::saturated(before.utterances(id) + 1)
            } else {
                before.utterances(id)
            }) by {}
            assert forall|id: u32| #[trigger] self.interest.touched_at(id) == (if touches(
                v,
                chunks@,
                id,
            ) {
                before.g as int
            } else {
                before.touched_at(id)
            }) by {}
            assert forall|id: u32| #[trigger] self.interest.knows(id) <==> before.knows(id)
                || touches(v, chunks@, id) by {}
            lemma_ledger_learns(before, self.interest, v, ls, chunks@);
            let all = ls.push(chunks@);
            assert(all.drop_last() =~= ls);
            assert forall|i: int| 0 <= i < ts.len() implies touches(
                v,
                all.last(),
                (#[trigger] ts[i]).id,
            ) && ts[i].elapsed == clock(ls) - last_touch(v, ls, ts[i].id) by {
                assert(before.touched_at(ts[i].id) == last_touch(v, ls, ts[i].id));
            }
            assert forall|id: u32| #[trigger] touches(v, all.last(), id) implies exists|i: int|
                0 <= i < ts.len() && (#[trigger] ts[i]).id == id by {
                assert(interest::touched(v, chunks@, chunks.len() as int, id));
            }
        }
        ts
    }

    /// Takes one more line of a log that is replayed.
    fn gather(
        &mut self,
        params: &Params,
        r: &Record,
        chunks: &Vec<TokenId>,
        pending: &mut Option<(String, Vec<TokenId>)>,
        Ghost(hs): Ghost<Seq<Heard>>,
        Ghost(n): Ghost<int>,
    ) -> (ts: Option<Vec<Touch>>)
        requires
            r.role != Role::Meta,
            old(self).gathers(*params, hs),
            all_known(old(self).intern@, chunks@),
            chunks.len() <= r.text@.len(),
            old(self).parts_within(n),
            n + r.text@.len() + 2 < ROOM,
            waiting(*old(pending)) == exchanges(hs).1,
        ensures
            final(self).gathers(*params, hs.push(heard_line(*r, chunks@))),
            final(self).intern == old(self).intern,
            final(self).topic == old(self).topic,
            final(self).store.threshold() == old(self).store.threshold(),
            final(self).rev_store.threshold() == old(self).rev_store.threshold(),
            final(self).parts_within(n + r.text@.len() + 2),
            waiting(*final(pending)) == exchanges(hs.push(heard_line(*r, chunks@))).1,
            match ts {
                Some(t) => r.learned && chunks.len() > 0 && is_touch_list(
                    old(self).intern@,
                    lessons(hs).push(chunks@),
                    t@,
                ),
                None => !(r.learned && chunks.len() > 0),
            },
    {
        let ghost h = heard_line(*r, chunks@);
        let ghost v = self.intern@;
        proof {
            law_one_more_line(hs, h);
            lemma_exchanges_push(hs, h);
        }
        let is_bot: bool = match r.role {
            Role::Bot => true,
            _ => false,
        };
        let mut ts: Option<Vec<Touch>> = None;
        if r.learned {
            self.store.push_utterance_deferred(chunks.as_slice());
            if params.bidir {
                let rev = generate::reverse(chunks);
                self.rev_store.push_utterance_deferred(rev.as_slice());
            }
            if is_bot {
                self.bots.push_raw(r.text.clone(), mix::copy_tokens(chunks));
            }
            if chunks.len() > 0 {
                let t = self.study(r.text.as_str(), chunks, Ghost(hs));
                ts = Some(t);
            }
        }
        if is_bot {
            let waited = pending.take();
            match waited {
                Some((ut, uc)) => {
                    if r.learned && params.n_adapt > 0 {
                        self.pairs.push_raw(ut, uc, mix::copy_tokens(chunks));
                    }
                },
                None => {},
            }
            if params.self_window > 0 {
                self.recent_bot.push(r.text.clone());
                proof {
                    assert(text::texts(self.recent_bot@) =~= text::texts(old(self).recent_bot@).push(
                        r.text@,
                    ));
                    law_trim_again(
                        texts_of(hs, Role::Bot),
                        seq![r.text@],
                        params.self_window as int,
                    );
                    assert(last_n(texts_of(hs, Role::Bot), params.self_window as int) + seq![r.text@]
                        =~= last_n(texts_of(hs, Role::Bot), params.self_window as int).push(
                        r.text@,
                    ));
                    assert(texts_of(hs, Role::Bot) + seq![r.text@] =~= texts_of(hs, Role::Bot).push(
                        r.text@,
                    ));
                }
                keep_texts(&mut self.recent_bot, params.self_window);
            } else {
                proof {
                    assert(last_n(texts_of(hs.push(h), Role::Bot), 0) =~= last_n(
                        texts_of(hs, Role::Bot),
                        0,
                    ));
                }
            }
        } else {
            *pending = Some((r.text.clone(), mix::copy_tokens(chunks)));
        }
        append(&mut self.history, chunks);
        proof {
            let all = hs.push(h);
            assert forall|i: int| 0 <= i < all.len() implies all_known(
                v,
                (#[trigger] all[i]).chunks,
            ) by {
                if i < hs.len() {
                    assert(all[i] == hs[i]);
                }
            }
        }
        ts
    }
}

/// User records among the first `k`.
pub open spec fn users(recs: Seq<Record>, k: int) -> int
    decreases k,
{
    if k <= 0 {
        0
    } else {
        users(recs, k - 1) + (if recs[k - 1].role == Role::User {
            1int
        } else {
            0
        })
    }
}

proof fn lemma_users_heard(tk: Tokenizer, recs: Seq<Record>, scores: Seq<Vec<u64>>, k: int)
    requires
        0 <= k <= recs.len(),
    ensures
        texts_of(hear(tk, recs, scores, k).1, Role::User).len() == users(recs, k),
    decreases k,
{
    if k > 0 {
        lemma_users_heard(tk, recs, scores, k - 1);
        let before = hear(tk, recs, scores, k - 1).1;
        let now = hear(tk, recs, scores, k).1;
        if recs[k - 1].role != Role::Meta {
            assert(now.drop_last() =~= before);
        }
    }
}

fn count_users(recs: &Vec<Record>) -> (r: usize)
    ensures
        r == users(recs@, recs.len() as int),
{
    let mut n: usize = 0;
    let mut i: usize = 0;
    while i < recs.len()
        invariant
            i <= recs.len(),
            n == users(recs@, i as int),
            n <= i,
        decreases recs.len() - i,
    {
        let user: bool = match recs[i].role {
            Role::User => true,
            _ => false,
        };
        if user {
            n += 1;
        }
        i += 1;
    }
    n
}

/// What is left behind the first `from`.
pub open spec fn later<T>(xs: Seq<T>, from: int) -> Seq<T> {
    if xs.len() <= from {
        Seq::empty()
    } else {
        xs.subrange(from, xs.len() as int)
    }
}

/// No line is longer than a memory has room for.
pub open spec fn short_lines(hs: Seq<Heard>) -> bool {
    forall|i: int| 0 <= i < hs.len() ==> (#[trigger] hs[i]).text.len() < ROOM
}

proof fn lemma_short(hs: Seq<Heard>)
    requires
        short_lines(hs),
    ensures
        forall|i: int| 0 <= i < bot_lines(hs).len() ==> (#[trigger] bot_lines(hs)[i]).text.len() < ROOM,
        forall|i: int|
            0 <= i < exchanges(hs).0.len() ==> (#[trigger] exchanges(hs).0[i]).user_text.len()
                < ROOM,
        exchanges(hs).1 matches Some(p) ==> p.0.len() < ROOM,
    decreases hs.len(),
{
    if hs.len() > 0 {
        let front = hs.drop_last();
        assert forall|i: int| 0 <= i < front.len() implies (#[trigger] front[i]).text.len()
            < ROOM by {
            assert(front[i] == hs[i]);
        }
        lemma_short(front);
        assert(hs[hs.len() - 1].text.len() < ROOM);
        assert forall|i: int| 0 <= i < bot_lines(hs).len() implies (#[trigger] bot_lines(
            hs,
        )[i]).text.len() < ROOM by {
            if i < bot_lines(front).len() {
                assert(bot_lines(hs)[i] == bot_lines(front)[i]);
            }
        }
        assert forall|i: int| 0 <= i < exchanges(hs).0.len() implies (#[trigger] exchanges(
            hs,
        ).0[i]).user_text.len() < ROOM by {
            if i < exchanges(front).0.len() {
                assert(exchanges(hs).0[i] == exchanges(front).0[i]);
            }
        }
    }
}

proof fn lemma_scan_said(xs: Seq<retrieve::Said>, dim: int, cap: int)
    requires
        cap >= 0,
    ensures
        scanned(retrieve::with_bins(scanned(xs, cap), dim), cap) == retrieve::with_bins(
            scanned(xs, cap),
            dim,
        ),
{
    assert(scanned(retrieve::with_bins(scanned(xs, cap), dim), cap) =~= retrieve::with_bins(
        scanned(xs, cap),
        dim,
    ));
}

proof fn lemma_scan_exchanges(xs: Seq<adapt::Exchange>, dim: int, cap: int)
    requires
        cap >= 0,
    ensures
        scanned(adapt::with_bins(scanned(xs, cap), dim), cap) == adapt::with_bins(
            scanned(xs, cap),
            dim,
        ),
{
    assert(scanned(adapt::with_bins(scanned(xs, cap), dim), cap) =~= adapt::with_bins(
        scanned(xs, cap),
        dim,
    ));
}

/// Drops what lies before the newest part of a history.
fn trim_history(h: &mut Vec<TokenId>, params: &Params)
    ensures
        final(h)@ == last_n(old(h)@, history_cap(*params)),
{
    let cap: usize = params.l_max_capped();
    let n: usize = h.len();
    if cap <= usize::MAX / 4 && n > cap * 4 {
        let kept = generate::tail(h, cap * 4);
        *h = kept;
    }
    proof {
        assert(cap > usize::MAX / 4 ==> 4 * cap > usize::MAX);
        assert(h@ =~= last_n(old(h)@, history_cap(*params)));
    }
}

/// Replays every dialogue record of a log. Store pushes are deferred and
/// merged once at the end: no lookups happen mid-replay, so the final state
/// is identical to per-utterance pushes without quadratic index rebuilds.
///
/// The topic window takes only user records: that is what the live path
/// pushes, and replay has to agree or the window diverges after reopen. Only the last
/// `k_topic` user records can still be inside it, so earlier ones are not embedded.
///
/// The tokenizer is trained on the log and frozen; `scores` are its entropy scores for each
/// record. The second part of the result are the touched chunks of every absorbed line, from
/// which the host keeps the heat of the interests.
pub fn replay(
    params: &Params,
    embedder: &HashEmbedder,
    tk: &Tokenizer,
    recs: &Vec<Record>,
    scores: &Vec<Vec<u64>>,
) -> (r: (Memory, Vec<Vec<Touch>>))
    requires
        tk.wf(),
        embedder.wf(),
        scores.len() == recs.len(),
        volume(recs@, recs.len() as int) < ROOM,
    ensures
        r.0.wf(),
        r.0.within(volume(recs@, recs.len() as int)),
        r.0.intern@ == hear(*tk, recs@, scores@, recs.len() as int).0,
        r.0.recalls(
            *params,
            embedder.dim as int,
            hear(*tk, recs@, scores@, recs.len() as int).1,
        ),
        r.0.follows_topic(
            *params,
            embedder.dim as int,
            texts_of(hear(*tk, recs@, scores@, recs.len() as int).1, Role::User),
        ),
        r.0.is_merged(
            *params,
            embedder.dim as int,
            hear(*tk, recs@, scores@, recs.len() as int).1,
        ),
        are_touch_lists(
            r.0.intern@,
            lessons(hear(*tk, recs@, scores@, recs.len() as int).1),
            r.1@,
        ),
{
    let ghost n = recs.len() as int;
    let ghost dim = embedder.dim as int;
    let n_user: usize = count_users(recs);
    let k_topic: usize = if params.k_topic < 1 {
        1
    } else {
        params.k_topic
    };
    let from: usize = if n_user > k_topic {
        n_user - k_topic
    } else {
        0
    };
    let mut m = Memory::blank(params);
    let mut all: Vec<Vec<Touch>> = Vec::new();
    let mut pending: Option<(String, Vec<TokenId>)> = None;
    let mut user_idx: usize = 0;
    let mut i: usize = 0;
    let ghost mut hs: Seq<Heard> = Seq::empty();
    proof {
        assert(embed::held_bins(m.topic.window@) =~= topic_bins(
            later(texts_of(hs, Role::User), from as int),
            dim,
            params.embed_dim as int,
        ));
    }
    while i < recs.len()
        invariant
            n == recs.len(),
            dim == embedder.dim,
            tk.wf(),
            embedder.wf(),
            scores.len() == recs.len(),
            volume(recs@, n) < ROOM,
            i <= n,
            n_user == users(recs@, n),
            k_topic == topic_span(*params),
            from == (if n_user > k_topic {
                n_user - k_topic
            } else {
                0
            }),
            hear(*tk, recs@, scores@, i as int) == (m.intern@, hs),
            short_lines(hs),
            m.gathers(*params, hs),
            m.within(volume(recs@, i as int)),
            waiting(pending) == exchanges(hs).1,
            are_touch_lists(m.intern@, lessons(hs), all@),
            user_idx == texts_of(hs, Role::User).len(),
            user_idx == users(recs@, i as int),
            user_idx <= i,
            m.topic.wf(),
            m.topic.k == k_topic,
            m.topic.dim == params.embed_dim,
            embed::held_bins(m.topic.window@) == topic_bins(
                later(texts_of(hs, Role::User), from as int),
                dim,
                params.embed_dim as int,
            ),
            m.store.threshold() == store::threshold_for(params.merge_threshold),
            m.rev_store.threshold() == store::threshold_for(params.merge_threshold),
        decreases n - i,
    {
        let r: &Record = &recs[i];
        proof {
            lemma_volume_mono(recs@, i as int, n);
            lemma_volume_mono(recs@, i + 1, n);
            lemma_users_mono(recs@, i + 1, n);
        }
        let meta: bool = match r.role {
            Role::Meta => true,
            _ => false,
        };
        if !meta {
            let ghost v = m.intern@;
            let ghost before = hs;
            let ghost room = volume(recs@, i as int);
            let tok = tk.tokenize(&mut m.intern, r.text.as_str(), &scores[i]);
            let ghost w = m.intern@;
            proof {
                let ms = tk.morphs(r.text@, scores@[i as int]@);
                let cs = tk.chunks(r.text@, scores@[i as int]@);
                lemma_with_all_extends(v, ms + cs, w);
                lemma_lessons_known(v, hs);
                lemma_known_extends(v, w, hs);
                law_ledger_survives_growth(m.interest, v, w, lessons(hs));
                lemma_touch_lists_survive(v, w, lessons(hs), all@);
                law_one_more_line(hs, heard_line(*r, tok.chunks@));
                assert(m.gathers(*params, hs));
            }
            let ts = m.gather(params, r, &tok.chunks, &mut pending, Ghost(hs), Ghost(room));
            match ts {
                Some(t) => {
                    proof {
                        lemma_touch_lists_push(w, lessons(hs), all@, tok.chunks@, t);
                    }
                    all.push(t);
                },
                None => {},
            }
            proof {
                hs = hs.push(heard_line(*r, tok.chunks@));
                assert(hear(*tk, recs@, scores@, i + 1) == (m.intern@, hs));
            }
            let user: bool = match r.role {
                Role::User => true,
                _ => false,
            };
            if user {
                if user_idx >= from {
                    let bins = embedder.embed(r.text.as_str());
                    let ghost seen = later(texts_of(before, Role::User), from as int);
                    proof {
                        assert(seen.len() < k_topic);
                        assert(m.topic.window.len() == seen.len()) by {
                            assert(embed::held_bins(m.topic.window@).len() == seen.len());
                        }
                        assert(later(texts_of(hs, Role::User), from as int) =~= seen.push(r.text@));
                    }
                    m.topic.push(&bins);
                    proof {
                        assert(embed::held_bins(m.topic.window@) =~= topic_bins(
                            seen.push(r.text@),
                            dim,
                            params.embed_dim as int,
                        ));
                    }
                } else {
                    proof {
                        assert(later(texts_of(hs, Role::User), from as int) =~= later(
                            texts_of(before, Role::User),
                            from as int,
                        ));
                    }
                }
                user_idx += 1;
            }
        }
        i += 1;
    }
    m.store.merge();
    if params.bidir {
        m.rev_store.merge();
    }
    proof {
        lemma_short(hs);
    }
    trim_history(&mut m.history, params);
    m.bots.finish(embedder, params.n_retrieve_scan);
    m.pairs.finish(embedder, params.n_retrieve_scan);
    proof {
        lemma_scan_said(bot_lines(hs), dim, params.n_retrieve_scan as int);
        lemma_scan_exchanges(
            kept_exchanges(hs, params.n_adapt as int),
            dim,
            params.n_retrieve_scan as int,
        );
        let us = texts_of(hs, Role::User);
        assert(later(us, from as int) =~= last_n(us, topic_span(*params)));
        if !params.bidir {
            assert(m.rev_store.stream().len() == 0);
        }
    }
    (m, all)
}

proof fn lemma_users_mono(recs: Seq<Record>, k: int, n: int)
    requires
        0 <= k <= n,
    ensures
        0 <= users(recs, k) <= users(recs, n),
    decreases n,
{
    if k < n {
        lemma_users_mono(recs, k, n - 1);
    } else if n > 0 {
        lemma_users_mono(recs, n - 1, n - 1);
    }
}

/// More words leave the old ones alone.
pub proof fn lemma_with_all_extends(v: intern::Vocab, ss: Seq<Seq<char>>, w: intern::Vocab)
    requires
        w == intern::with_all(v, ss),
    ensures
        extends(v, w),
    decreases ss.len(),
{
    if ss.len() > 0 {
        lemma_with_all_extends(v, ss.drop_last(), intern::with_all(v, ss.drop_last()));
    }
}

// ---- live turns ----
/// Both lines of a turn, and which of them is absorbed.
#[verifier::ext_equal]
pub struct TurnLines {
    pub input: Seq<char>,
    pub chunks: Seq<u32>,
    pub learned_user: bool,
    pub reply: Seq<char>,
    pub tokens: Seq<u32>,
    pub learned_bot: bool,
}

impl TurnLines {
    /// The user's line.
    pub open spec fn user(self) -> Heard {
        Heard {
            role: Role::User,
            text: self.input,
            learned: self.learned_user,
            chunks: self.chunks,
        }
    }

    /// The bot's line.
    pub open spec fn bot(self) -> Heard {
        Heard {
            role: Role::Bot,
            text: self.reply,
            learned: self.learned_bot,
            chunks: self.tokens,
        }
    }

    /// Only a line with chunks is absorbed.
    pub open spec fn wf(self) -> bool {
        &&& self.learned_user ==> self.chunks.len() > 0
        &&& self.learned_bot ==> self.tokens.len() > 0
    }
}

/// What an absorbed line adds.
pub open spec fn added(learned: bool, chunks: Seq<u32>) -> Seq<u32> {
    if learned {
        store::wrapped(chunks)
    } else {
        Seq::empty()
    }
}

/// The bank after a line.
pub open spec fn banked(bank: Seq<(Seq<char>, int)>, learned: bool, t: Seq<char>) -> Seq<
    (Seq<char>, int),
> {
    if learned {
        interject::fed(bank, t)
    } else {
        bank
    }
}

/// Lessons with one more line.
pub open spec fn taught(ls: Seq<Seq<u32>>, learned: bool, chunks: Seq<u32>) -> Seq<Seq<u32>> {
    if learned {
        ls.push(chunks)
    } else {
        ls
    }
}

/// Body and buffer of a store behind the absorbed lines of a turn.
pub open spec fn extended(
    a: Store,
    b: Store,
    learned_user: bool,
    chunks: Seq<u32>,
    learned_bot: bool,
    tokens: Seq<u32>,
) -> bool {
    let one = if learned_user {
        store::pushed(a.text@, a.buf@, a.threshold(), chunks)
    } else {
        (a.text@, a.buf@)
    };
    let two = if learned_bot {
        store::pushed(one.0, one.1, a.threshold(), tokens)
    } else {
        one
    };
    (b.text@, b.buf@) == two && b.threshold() == a.threshold()
}

/// How a turn changes a memory. Words and topic are those of before.
pub open spec fn grows(params: Params, dim: int, a: Memory, b: Memory, t: TurnLines) -> bool {
    let cap = params.n_retrieve_scan as int;
    &&& b.intern == a.intern
    &&& b.topic == a.topic
    &&& b.store.stream() == a.store.stream() + added(t.learned_user, t.chunks) + added(
        t.learned_bot,
        t.tokens,
    )
    &&& extended(a.store, b.store, t.learned_user, t.chunks, t.learned_bot, t.tokens)
    &&& extended(
        a.rev_store,
        b.rev_store,
        params.bidir && t.learned_user,
        generate::reversed(t.chunks),
        params.bidir && t.learned_bot,
        generate::reversed(t.tokens),
    )
    &&& b.rev_store.stream() == (if params.bidir {
        a.rev_store.stream() + added(t.learned_user, generate::reversed(t.chunks)) + added(
            t.learned_bot,
            generate::reversed(t.tokens),
        )
    } else {
        a.rev_store.stream()
    })
    &&& b.history@ == last_n(a.history@ + t.chunks + t.tokens, history_cap(params))
    &&& b.bots@ == (if t.learned_bot {
        a.bots@.push(
            retrieve::Said {
                text: t.reply,
                toks: t.tokens,
                bins: embed::bins_of(t.reply, dim),
            },
        ).skip(retrieve::overflow(a.bots@.len() as int + 1, cap))
    } else {
        a.bots@
    })
    &&& b.pairs@ == (if t.learned_bot && params.n_adapt > 0 {
        a.pairs@.push(
            adapt::Exchange {
                user_text: t.input,
                user_chunks: t.chunks,
                reply_chunks: t.tokens,
                bins: embed::bins_of(t.input, dim),
            },
        ).skip(retrieve::overflow(a.pairs@.len() as int + 1, cap))
    } else {
        a.pairs@
    })
    &&& text::texts(b.recent_bot@) == (if params.self_window > 0 {
        last_n(text::texts(a.recent_bot@).push(t.reply), params.self_window as int)
    } else {
        text::texts(a.recent_bot@)
    })
    &&& forall|ls: Seq<Seq<u32>>| #[trigger]
        ledger_of(a.interest, a.intern@, ls) ==> ledger_of(
            b.interest,
            a.intern@,
            taught(taught(ls, t.learned_user, t.chunks), t.learned_bot, t.tokens),
        )
    &&& interject::held(b.interjects.items@) == banked(
        banked(interject::held(a.interjects.items@), t.learned_user, t.input),
        t.learned_bot,
        t.reply,
    )
}

/// The touched chunks of the absorbed lines of a turn, a list for each.
pub open spec fn are_turn_touches(
    v: intern::Vocab,
    ls: Seq<Seq<u32>>,
    t: TurnLines,
    all: Seq<Vec<Touch>>,
) -> bool {
    let first = if t.learned_user {
        1int
    } else {
        0
    };
    &&& all.len() == first + (if t.learned_bot {
        1int
    } else {
        0
    })
    &&& t.learned_user ==> is_touch_list(v, ls.push(t.chunks), all[0]@)
    &&& t.learned_bot ==> is_touch_list(
        v,
        taught(ls, t.learned_user, t.chunks).push(t.tokens),
        all[first]@,
    )
}

/// What a line adds to the count of a gram.
pub open spec fn gram_part(learned: bool, t: Seq<char>, g: Seq<u32>, max_n: int) -> int {
    if learned {
        entropy::gram_hits(entropy::codes(t), g, max_n)
    } else {
        0
    }
}

/// What a line adds to the count of a gram with `c` behind it.
pub open spec fn next_part(learned: bool, t: Seq<char>, g: Seq<u32>, max_n: int, c: u32) -> int {
    if learned {
        entropy::next_hits(entropy::codes(t), g, max_n, c)
    } else {
        0
    }
}

/// The tokenizer has also counted the absorbed lines of a turn.
pub open spec fn trains_on(a: Tokenizer, b: Tokenizer, t: TurnLines) -> bool {
    let n = a.model.max_n as int;
    &&& b.wf()
    &&& b.cut == a.cut
    &&& b.chunk_morphs == a.chunk_morphs
    &&& b.model.max_n == a.model.max_n
    &&& b.model.total_chars == a.model.total_chars + (if t.learned_user {
        t.input.len() as int
    } else {
        0
    }) + (if t.learned_bot {
        t.reply.len() as int
    } else {
        0
    })
    &&& forall|g: Seq<u32>| #[trigger]
        b.model.gram_count(g) == entropy::saturated(
            a.model.gram_count(g) + gram_part(t.learned_user, t.input, g, n) + gram_part(
                t.learned_bot,
                t.reply,
                g,
                n,
            ),
        )
    &&& forall|g: Seq<u32>, c: u32| #[trigger]
        b.model.next_count(g, c) == a.model.next_count(g, c) + next_part(
            t.learned_user,
            t.input,
            g,
            n,
            c,
        ) + next_part(t.learned_bot, t.reply, g, n, c)
}

/// A live session and a replay of its log come to the same memory: what recalls the lines so
/// far and grows by a turn recalls the lines with that turn.
pub proof fn law_live_equals_replay(
    params: Params,
    dim: int,
    a: Memory,
    b: Memory,
    hs: Seq<Heard>,
    t: TurnLines,
)
    requires
        a.recalls(params, dim, hs),
        t.wf(),
        all_known(a.intern@, t.chunks),
        all_known(a.intern@, t.tokens),
        grows(params, dim, a, b, t),
    ensures
        b.recalls(params, dim, hs.push(t.user()).push(t.bot())),
{
    let u = t.user();
    let w = t.bot();
    let h1 = hs.push(u);
    let h2 = h1.push(w);
    let cap = params.n_retrieve_scan as int;
    law_one_more_line(hs, u);
    law_one_more_line(h1, w);
    lemma_exchanges_push(hs, u);
    lemma_exchanges_push(h1, w);
    assert forall|i: int| 0 <= i < h2.len() implies all_known(
        b.intern@,
        (#[trigger] h2[i]).chunks,
    ) by {
        if i < hs.len() {
            assert(h2[i] == hs[i]);
        }
    }
    assert(b.store.stream() =~= corpus(h2));
    if params.bidir {
        assert(b.rev_store.stream() =~= mirror(h2));
    }
    let all = all_chunks(hs);
    law_trim_again(all, t.chunks + t.tokens, history_cap(params));
    assert(a.history@ + t.chunks + t.tokens =~= a.history@ + (t.chunks + t.tokens));
    assert(all_chunks(h2) =~= all + (t.chunks + t.tokens));
    // retrieve window
    if t.learned_bot {
        let raw = retrieve::Said { text: t.reply, toks: t.tokens, bins: Seq::empty() };
        let full = retrieve::Said {
            text: t.reply,
            toks: t.tokens,
            bins: embed::bins_of(t.reply, dim),
        };
        let x = bot_lines(hs);
        let y = retrieve::with_bins(x, dim);
        assert(scanned(y, cap) =~= retrieve::with_bins(scanned(x, cap), dim));
        law_scan_of_trimmed(a.bots@, y, full, cap);
        lemma_scan_skip(a.bots@.push(full), cap);
        assert(y.push(full) =~= retrieve::with_bins(x.push(raw), dim));
        assert(scanned(y.push(full), cap) =~= retrieve::with_bins(scanned(x.push(raw), cap), dim));
    }
    // adapt window
    if t.learned_bot && params.n_adapt > 0 {
        let raw = adapt::Exchange {
            user_text: t.input,
            user_chunks: t.chunks,
            reply_chunks: t.tokens,
            bins: Seq::empty(),
        };
        let full = adapt::binned(raw, dim);
        let x = exchanges(hs).0;
        let y = adapt::with_bins(x, dim);
        assert(scanned(y, cap) =~= adapt::with_bins(scanned(x, cap), dim));
        law_scan_of_trimmed(a.pairs@, y, full, cap);
        lemma_scan_skip(a.pairs@.push(full), cap);
        assert(y.push(full) =~= adapt::with_bins(x.push(raw), dim));
        assert(scanned(y.push(full), cap) =~= adapt::with_bins(scanned(x.push(raw), cap), dim));
        assert(exchanges(h2).0 == x.push(raw));
    }
    // own replies
    let said = texts_of(hs, Role::Bot);
    let win = params.self_window as int;
    if win > 0 {
        law_trim_again(said, seq![t.reply], win);
        assert(last_n(said, win) + seq![t.reply] =~= last_n(said, win).push(t.reply));
        assert(said + seq![t.reply] =~= said.push(t.reply));
    } else {
        assert(last_n(said.push(t.reply), win) =~= last_n(said, win));
    }
}

impl Memory {
    /// Room for `k` more.
    pub open spec fn has_room(&self, k: int) -> bool {
        self.parts_within(ROOM - k)
    }

    /// Takes one absorbed line into corpus and ledgers.
    fn absorb(&mut self, params: &Params, tk: &mut Tokenizer, line: &str, chunks: &Vec<TokenId>) -> (ts:
        Vec<Touch>)
        requires
            old(self).wf(),
            old(tk).wf(),
            old(tk).model.total_chars + line@.len() < u32::MAX,
            chunks.len() > 0,
            all_known(old(self).intern@, chunks@),
            old(self).has_room(chunks.len() + 2),
        ensures
            final(self).wf(),
            final(tk).wf(),
            final(tk).cut == old(tk).cut,
            final(tk).chunk_morphs == old(tk).chunk_morphs,
            final(tk).model.max_n == old(tk).model.max_n,
            final(tk).model.total_chars == old(tk).model.total_chars + line@.len(),
            forall|g: Seq<u32>| #[trigger]
                final(tk).model.gram_count(g) == entropy::saturated(
                    old(tk).model.gram_count(g) + entropy::gram_hits(
                        entropy::codes(line@),
                        g,
                        old(tk).model.max_n as int,
                    ),
                ),
            forall|g: Seq<u32>, c: u32| #[trigger]
                final(tk).model.next_count(g, c) == old(tk).model.next_count(g, c)
                    + entropy::next_hits(
                    entropy::codes(line@),
                    g,
                    old(tk).model.max_n as int,
                    c,
                ),
            *final(self) == (Memory {
                store: final(self).store,
                rev_store: final(self).rev_store,
                interest: final(self).interest,
                interjects: final(self).interjects,
                ..*old(self)
            }),
            final(self).store.stream() == old(self).store.stream() + store::wrapped(chunks@),
            final(self).rev_store.stream() == (if params.bidir {
                old(self).rev_store.stream() + store::wrapped(generate::reversed(chunks@))
            } else {
                old(self).rev_store.stream()
            }),
            extended(old(self).store, final(self).store, true, chunks@, false, Seq::empty()),
            extended(
                old(self).rev_store,
                final(self).rev_store,
                params.bidir,
                generate::reversed(chunks@),
                false,
                Seq::empty(),
            ),
            forall|ls: Seq<Seq<u32>>| #[trigger]
                ledger_of(old(self).interest, old(self).intern@, ls) ==> ledger_of(
                    final(self).interest,
                    old(self).intern@,
                    ls.push(chunks@),
                ),
            forall|ls: Seq<Seq<u32>>| #[trigger]
                ledger_of(old(self).interest, old(self).intern@, ls) ==> is_touch_list(
                    old(self).intern@,
                    ls.push(chunks@),
                    ts@,
                ),
            interject::held(final(self).interjects.items@) == interject::fed(
                interject::held(old(self).interjects.items@),
                line@,
            ),
            final(self).interest.entries.len() <= old(self).interest.entries.len() + chunks.len(),
            final(self).interest.g == old(self).interest.g + chunks.len(),
            final(self).interjects.items.len() <= old(self).interjects.items.len() + 1,
            final(self).interjects.total <= old(self).interjects.total + 1,
    {
        let ghost v = self.intern@;
        let ghost before = self.interest;
        tk.observe(line);
        let ts = self.interest.learn(chunks, &self.intern);
        self.interjects.learn(line);
        proof {
            assert forall|ls: Seq<Seq<u32>>| #[trigger] ledger_of(before, v, ls) implies ledger_of(
                self.interest,
                v,
                ls.push(chunks@),
            ) by {
                assert forall|id: u32| #[trigger] self.interest.utterances(id) == (if touches(
                    v,
                    chunks@,
                    id,
                ) {
                    entropy::saturated(before.utterances(id) + 1)
                } else {
                    before.utterances(id)
                }) by {}
                assert forall|id: u32| #[trigger] self.interest.touched_at(id) == (if touches(
                    v,
                    chunks@,
                    id,
                ) {
                    before.g as int
                } else {
                    before.touched_at(id)
                }) by {}
                assert forall|id: u32| #[trigger] self.interest.knows(id) <==> before.knows(id)
                    || touches(v, chunks@, id) by {}
                lemma_ledger_learns(before, self.interest, v, ls, chunks@);
            }
            assert forall|ls: Seq<Seq<u32>>| #[trigger] ledger_of(before, v, ls) implies is_touch_list(
                v,
                ls.push(chunks@),
                ts@,
            ) by {
                let all = ls.push(chunks@);
                assert(all.drop_last() =~= ls);
                assert forall|i: int| 0 <= i < ts.len() implies touches(
                    v,
                    all.last(),
                    (#[trigger] ts[i]).id,
                ) && ts[i].elapsed == clock(ls) - last_touch(v, ls, ts[i].id) by {
                    assert(before.touched_at(ts[i].id) == last_touch(v, ls, ts[i].id));
                }
                assert forall|id: u32| #[trigger] touches(v, all.last(), id) implies exists|i: int|
                    0 <= i < ts.len() && (#[trigger] ts[i]).id == id by {
                    assert(interest::touched(v, chunks@, chunks.len() as int, id));
                }
            }
        }
        self.store.push_utterance(chunks.as_slice());
        if params.bidir {
            let rev = generate::reverse(chunks);
            self.rev_store.push_utterance(rev.as_slice());
        }
        ts
    }

    /// Takes a finished turn into the memory. The result is what was touched, a list for each
    /// absorbed line.
    pub fn settle(
        &mut self,
        params: &Params,
        embedder: &HashEmbedder,
        tk: &mut Tokenizer,
        input: &String,
        chunks: &Vec<TokenId>,
        learned_user: bool,
        reply: &String,
        tokens: &Vec<TokenId>,
        learned_bot: bool,
    ) -> (r: Vec<Vec<Touch>>)
        requires
            old(self).wf(),
            old(tk).wf(),
            embedder.wf(),
            learned_user ==> chunks.len() > 0,
            learned_bot ==> tokens.len() > 0,
            all_known(old(self).intern@, chunks@),
            all_known(old(self).intern@, tokens@),
            old(tk).model.total_chars + input@.len() + reply@.len() < u32::MAX,
            old(self).has_room(chunks.len() + tokens.len() + 4),
        ensures
            final(self).wf(),
            trains_on(
                *old(tk),
                *final(tk),
                (TurnLines {
                    input: input@,
                    chunks: chunks@,
                    learned_user,
                    reply: reply@,
                    tokens: tokens@,
                    learned_bot,
                }),
            ),
            grows(
                *params,
                embedder.dim as int,
                *old(self),
                *final(self),
                (TurnLines {
                    input: input@,
                    chunks: chunks@,
                    learned_user,
                    reply: reply@,
                    tokens: tokens@,
                    learned_bot,
                }),
            ),
            forall|ls: Seq<Seq<u32>>| #[trigger]
                ledger_of(old(self).interest, old(self).intern@, ls) ==> are_turn_touches(
                    old(self).intern@,
                    ls,
                    (TurnLines {
                        input: input@,
                        chunks: chunks@,
                        learned_user,
                        reply: reply@,
                        tokens: tokens@,
                        learned_bot,
                    }),
                    r@,
                ),
    {
        let ghost start = *self;
        let ghost tk0 = *tk;
        let ghost lines = TurnLines {
            input: input@,
            chunks: chunks@,
            learned_user,
            reply: reply@,
            tokens: tokens@,
            learned_bot,
        };
        let mut all: Vec<Vec<Touch>> = Vec::new();
        if learned_user {
            let ts = self.absorb(params, tk, input.as_str(), chunks);
            all.push(ts);
        }
        let ghost mid = *self;
        let ghost tk1 = *tk;
        if learned_bot {
            let ts = self.absorb(params, tk, reply.as_str(), tokens);
            all.push(ts);
            self.bots.push_live(
                embedder,
                reply.clone(),
                mix::copy_tokens(tokens),
                params.n_retrieve_scan,
            );
            if params.n_adapt > 0 {
                self.pairs.push_live(
                    embedder,
                    input.clone(),
                    mix::copy_tokens(chunks),
                    mix::copy_tokens(tokens),
                    params.n_retrieve_scan,
                );
            }
        }
        append(&mut self.history, chunks);
        append(&mut self.history, tokens);
        trim_history(&mut self.history, params);
        if params.self_window > 0 {
            self.recent_bot.push(reply.clone());
            proof {
                assert(text::texts(self.recent_bot@) =~= text::texts(start.recent_bot@).push(reply@));
            }
            keep_texts(&mut self.recent_bot, params.self_window);
        }
        proof {
            assert(start.store.stream() + added(learned_user, chunks@) =~= mid.store.stream());
            assert(self.store.stream() =~= mid.store.stream() + added(learned_bot, tokens@));
            if params.bidir {
                assert(start.rev_store.stream() + added(learned_user, generate::reversed(chunks@))
                    =~= mid.rev_store.stream());
                assert(self.rev_store.stream() =~= mid.rev_store.stream() + added(
                    learned_bot,
                    generate::reversed(tokens@),
                ));
            }
            assert forall|ls: Seq<Seq<u32>>| #[trigger]
                ledger_of(start.interest, start.intern@, ls) implies ledger_of(
                self.interest,
                start.intern@,
                taught(taught(ls, learned_user, chunks@), learned_bot, tokens@),
            ) by {
                let one = taught(ls, learned_user, chunks@);
                assert(ledger_of(mid.interest, start.intern@, one));
            }
            assert forall|ls: Seq<Seq<u32>>| #[trigger]
                ledger_of(start.interest, start.intern@, ls) implies are_turn_touches(
                start.intern@,
                ls,
                lines,
                all@,
            ) by {
                let one = taught(ls, learned_user, chunks@);
                assert(ledger_of(mid.interest, start.intern@, one));
            }
            assert forall|g: Seq<u32>| #[trigger] tk.model.gram_count(g) == entropy::saturated(
                tk0.model.gram_count(g) + gram_part(
                    learned_user,
                    input@,
                    g,
                    tk0.model.max_n as int,
                ) + gram_part(learned_bot, reply@, g, tk0.model.max_n as int),
            ) by {
                let n = tk0.model.max_n as int;
                entropy::lemma_gram_hits_nonneg(entropy::codes(input@), g, n);
                entropy::lemma_gram_hits_nonneg(entropy::codes(reply@), g, n);
                assert(tk1.model.gram_count(g) == entropy::saturated(
                    tk0.model.gram_count(g) + gram_part(learned_user, input@, g, n),
                )) by {
                    entropy::lemma_gram_count_bound(tk0.model, g);
                }
                entropy::lemma_gram_count_bound(tk1.model, g);
            }
            assert forall|g: Seq<u32>, c: u32| #[trigger] tk.model.next_count(g, c)
                == tk0.model.next_count(g, c) + next_part(
                learned_user,
                input@,
                g,
                tk0.model.max_n as int,
                c,
            ) + next_part(learned_bot, reply@, g, tk0.model.max_n as int, c) by {
                assert(tk1.model.next_count(g, c) == tk0.model.next_count(g, c) + next_part(
                    learned_user,
                    input@,
                    g,
                    tk0.model.max_n as int,
                    c,
                ));
            }
        }
        all
    }
}

// ---- what a log says ----
/// The dialogue lines are those of the users and the bot, in the order of the log, with what
/// they said and whether it was absorbed.
pub proof fn law_dialogue_is_heard(
    tk: Tokenizer,
    recs: Seq<Record>,
    scores: Seq<Vec<u64>>,
    k: int,
)
    requires
        0 <= k <= recs.len(),
    ensures
        hear(tk, recs, scores, k).1.map_values(
            |h: Heard| (h.role, h.text, h.learned),
        ) == recs.take(k).filter(
            |r: Record| r.role == Role::User || r.role == Role::Bot,
        ).map_values(|r: Record| (r.role, r.text@, r.learned)),
    decreases k,
{
    reveal(Seq::filter);
    let said = |r: Record| r.role == Role::User || r.role == Role::Bot;
    if k > 0 {
        law_dialogue_is_heard(tk, recs, scores, k - 1);
        assert(recs.take(k).drop_last() =~= recs.take(k - 1));
        assert(recs.take(k).last() == recs[k - 1]);
        let line = |h: Heard| (h.role, h.text, h.learned);
        let told = |r: Record| (r.role, r.text@, r.learned);
        let before = hear(tk, recs, scores, k - 1).1;
        assert(before.map_values(line) =~= recs.take(k - 1).filter(said).map_values(told));
        if said(recs[k - 1]) {
            let h = hear(tk, recs, scores, k).1.last();
            assert(hear(tk, recs, scores, k).1 == before.push(h));
            assert(before.push(h).map_values(line) =~= before.map_values(line).push(line(h)));
            assert(recs.take(k).filter(said) == recs.take(k - 1).filter(said).push(recs[k - 1]));
            assert(recs.take(k).filter(said).map_values(told) =~= recs.take(k - 1).filter(
                said,
            ).map_values(told).push(told(recs[k - 1])));
        } else {
            assert(recs[k - 1].role == Role::Meta);
            assert(recs.take(k).filter(said) == recs.take(k - 1).filter(said));
        }
    }
    assert(hear(tk, recs, scores, k).1.map_values(|h: Heard| (h.role, h.text, h.learned))
        =~= recs.take(k).filter(said).map_values(|r: Record| (r.role, r.text@, r.learned)));
}

/// The corpus is the absorbed lines one after the other, each between its marks; its mirror is
/// the same of the lines turned round.
pub proof fn law_corpus_is_what_was_absorbed(hs: Seq<Heard>)
    ensures
        corpus(hs) == hs.filter(|h: Heard| h.learned && h.chunks.len() > 0).map_values(
            |h: Heard| seq![crate::ids::SEP] + h.chunks + seq![crate::ids::EOS],
        ).flatten(),
        mirror(hs) == hs.filter(|h: Heard| h.learned && h.chunks.len() > 0).map_values(
            |h: Heard| seq![crate::ids::SEP] + h.chunks.reverse() + seq![crate::ids::EOS],
        ).flatten(),
    decreases hs.len(),
{
    reveal(Seq::filter);
    let taken = |h: Heard| h.learned && h.chunks.len() > 0;
    let ahead = |h: Heard| seq![crate::ids::SEP] + h.chunks + seq![crate::ids::EOS];
    let back = |h: Heard| seq![crate::ids::SEP] + h.chunks.reverse() + seq![crate::ids::EOS];
    let a = hs.filter(taken).map_values(ahead);
    let b = hs.filter(taken).map_values(back);
    a.lemma_flatten_and_flatten_alt_are_equivalent();
    b.lemma_flatten_and_flatten_alt_are_equivalent();
    if hs.len() > 0 {
        let front = hs.drop_last();
        law_corpus_is_what_was_absorbed(front);
        let fa = front.filter(taken).map_values(ahead);
        let fb = front.filter(taken).map_values(back);
        fa.lemma_flatten_and_flatten_alt_are_equivalent();
        fb.lemma_flatten_and_flatten_alt_are_equivalent();
        if taken(hs.last()) {
            assert(a.drop_last() =~= fa);
            assert(b.drop_last() =~= fb);
            assert(generate::reversed(hs.last().chunks) =~= hs.last().chunks.reverse());
        } else {
            assert(corpus(front) + Seq::<u32>::empty() =~= corpus(front));
            assert(mirror(front) + Seq::<u32>::empty() =~= mirror(front));
            if hs.last().learned {
                assert(generate::reversed(hs.last().chunks).len() == 0);
            }
        }
    } else {
        assert(a =~= Seq::empty());
        assert(b =~= Seq::empty());
    }
}

/// The history is the chunks of every line, absorbed or not; the texts of a role are those of
/// its lines, absorbed or not; the bot's own replies are its absorbed lines; and the ledger is
/// taught the absorbed lines that have chunks.
pub proof fn law_lines_go_where_they_belong(hs: Seq<Heard>, role: Role)
    ensures
        all_chunks(hs) == hs.map_values(|h: Heard| h.chunks).flatten(),
        texts_of(hs, role) == hs.filter(|h: Heard| h.role == role).map_values(|h: Heard| h.text),
        bot_lines(hs) == hs.filter(|h: Heard| h.role == Role::Bot && h.learned).map_values(
            |h: Heard|
                retrieve::Said { text: h.text, toks: h.chunks, bins: Seq::<i64>::empty() },
        ),
        lessons(hs) == hs.filter(|h: Heard| h.learned && h.chunks.len() > 0).map_values(
            |h: Heard| h.chunks,
        ),
        interjected(hs) == hs.filter(|h: Heard| h.learned && h.chunks.len() > 0).map_values(
            |h: Heard| h.text,
        ).fold_left(
            Seq::<(Seq<char>, int)>::empty(),
            |bank: Seq<(Seq<char>, int)>, t: Seq<char>| interject::fed(bank, t),
        ),
    decreases hs.len(),
{
    reveal(Seq::filter);
    let cut = hs.map_values(|h: Heard| h.chunks);
    cut.lemma_flatten_and_flatten_alt_are_equivalent();
    let mine = |h: Heard| h.role == role;
    let text = |h: Heard| h.text;
    let own = |h: Heard| h.role == Role::Bot && h.learned;
    let said = |h: Heard|
        retrieve::Said { text: h.text, toks: h.chunks, bins: Seq::<i64>::empty() };
    let taken = |h: Heard| h.learned && h.chunks.len() > 0;
    let fed = |bank: Seq<(Seq<char>, int)>, t: Seq<char>| interject::fed(bank, t);
    if hs.len() > 0 {
        let front = hs.drop_last();
        law_lines_go_where_they_belong(front, role);
        let fcut = front.map_values(|h: Heard| h.chunks);
        fcut.lemma_flatten_and_flatten_alt_are_equivalent();
        assert(cut.drop_last() =~= fcut);
        assert(own(hs.last()) ==> hs.last().learned);
        if taken(hs.last()) {
            let texts = hs.filter(taken).map_values(text);
            assert(texts.drop_last() =~= front.filter(taken).map_values(text));
            assert(texts.last() == hs.last().text);
            reveal_with_fuel(Seq::fold_left, 2);
        }
    } else {
        assert(cut =~= Seq::empty());
        assert(hs.filter(taken).map_values(text) =~= Seq::empty());
        reveal_with_fuel(Seq::fold_left, 2);
    }
    assert(texts_of(hs, role) =~= hs.filter(mine).map_values(text));
    assert(bot_lines(hs) =~= hs.filter(own).map_values(said));
    assert(lessons(hs) =~= hs.filter(taken).map_values(|h: Heard| h.chunks));
}

/// An exchange is an absorbed line of the bot with the user's line just before it. A line of
/// the bot that follows another, or that was not absorbed, makes none.
pub proof fn law_replies_answer_the_line_before(hs: Seq<Heard>)
    requires
        forall|i: int| 0 <= i < hs.len() ==> (#[trigger] hs[i]).role != Role::Meta,
    ensures
        exchanges(hs).0 == Seq::new(hs.len(), |i: int| i).filter(
            |i: int|
                i > 0 && hs[i].role == Role::Bot && hs[i].learned && hs[i - 1].role == Role::User,
        ).map_values(
            |i: int|
                adapt::Exchange {
                    user_text: hs[i - 1].text,
                    user_chunks: hs[i - 1].chunks,
                    reply_chunks: hs[i].chunks,
                    bins: Seq::<i64>::empty(),
                },
        ),
        exchanges(hs).1 == (if hs.len() > 0 && hs.last().role == Role::User {
            Some((hs.last().text, hs.last().chunks))
        } else {
            None
        }),
{
    lemma_exchanges(hs, hs.len() as int);
    assert(hs.take(hs.len() as int) =~= hs);
}

proof fn lemma_exchanges(hs: Seq<Heard>, k: int)
    requires
        0 <= k <= hs.len(),
        forall|i: int| 0 <= i < hs.len() ==> (#[trigger] hs[i]).role != Role::Meta,
    ensures
        exchanges(hs.take(k)).0 == Seq::new(k as nat, |i: int| i).filter(
            |i: int|
                i > 0 && hs[i].role == Role::Bot && hs[i].learned && hs[i - 1].role == Role::User,
        ).map_values(
            |i: int|
                adapt::Exchange {
                    user_text: hs[i - 1].text,
                    user_chunks: hs[i - 1].chunks,
                    reply_chunks: hs[i].chunks,
                    bins: Seq::<i64>::empty(),
                },
        ),
        exchanges(hs.take(k)).1 == (if k > 0 && hs[k - 1].role == Role::User {
            Some((hs[k - 1].text, hs[k - 1].chunks))
        } else {
            None
        }),
    decreases k,
{
    reveal(Seq::filter);
    let answers = |i: int|
        i > 0 && hs[i].role == Role::Bot && hs[i].learned && hs[i - 1].role == Role::User;
    let pair = |i: int|
        adapt::Exchange {
            user_text: hs[i - 1].text,
            user_chunks: hs[i - 1].chunks,
            reply_chunks: hs[i].chunks,
            bins: Seq::<i64>::empty(),
        };
    let places = Seq::new(k as nat, |i: int| i);
    if k > 0 {
        lemma_exchanges(hs, k - 1);
        assert(hs.take(k).drop_last() =~= hs.take(k - 1));
        assert(hs.take(k).last() == hs[k - 1]);
        assert(places.drop_last() =~= Seq::new((k - 1) as nat, |i: int| i));
        assert(places.last() == k - 1);
        assert(hs[k - 1].role != Role::Meta);
    }
    assert(exchanges(hs.take(k)).0 =~= places.filter(answers).map_values(pair));
}

/// No exchange is kept where the source is switched off, and all are where it is not.
pub proof fn law_exchanges_are_kept_where_wanted(hs: Seq<Heard>, n_adapt: int)
    ensures
        n_adapt <= 0 ==> kept_exchanges(hs, n_adapt).len() == 0,
        n_adapt > 0 ==> kept_exchanges(hs, n_adapt) == exchanges(hs).0,
{
}

/// What is kept of a list is its newest part, as long as is allowed.
pub proof fn law_the_newest_are_kept<T>(xs: Seq<T>, n: int)
    requires
        0 <= n,
    ensures
        last_n(xs, n).len() == (if xs.len() <= n {
            xs.len() as int
        } else {
            n
        }),
        forall|i: int|
            0 <= i < last_n(xs, n).len() ==> #[trigger] last_n(xs, n)[i] == xs[xs.len() - last_n(
                xs,
                n,
            ).len() + i],
        scanned(xs, 0) == xs,
        n > 0 ==> scanned(xs, n) == last_n(xs, n),
{
    assert(scanned(xs, 0) =~= xs);
    if n > 0 {
        assert(scanned(xs, n) =~= last_n(xs, n));
    }
}

/// A line touches the chunks of content that stand in it. A chunk's appearances are the lines
/// that touch it, and its last touch is as long ago as the chunks absorbed since.
pub proof fn law_the_ledger_counts_lines(v: intern::Vocab, ls: Seq<Seq<u32>>, id: u32)
    ensures
        clock(ls) == ls.flatten().len(),
        appearances(v, ls, id) == ls.filter(
            |l: Seq<u32>| interest::content(v, id) && l.contains(id),
        ).len(),
        !interest::content(v, id) ==> appearances(v, ls, id) == 0,
        appearances(v, ls, id) == 0 ==> last_touch(v, ls, id) == 0,
        appearances(v, ls, id) > 0 ==> exists|k: int|
            {
                &&& 0 <= k < ls.len()
                &&& (#[trigger] ls[k]).contains(id)
                &&& last_touch(v, ls, id) == ls.take(k).flatten().len()
                &&& forall|j: int| k < j < ls.len() ==> !(#[trigger] ls[j]).contains(id)
            },
    decreases ls.len(),
{
    reveal(Seq::filter);
    let hit = |l: Seq<u32>| interest::content(v, id) && l.contains(id);
    ls.lemma_flatten_and_flatten_alt_are_equivalent();
    if ls.len() > 0 {
        let front = ls.drop_last();
        law_the_ledger_counts_lines(v, front, id);
        front.lemma_flatten_and_flatten_alt_are_equivalent();
        lemma_appearances_nonneg(v, front, id);
        let last = ls.last();
        assert(touches(v, last, id) == hit(last)) by {
            if last.contains(id) {
                let j = choose|j: int| 0 <= j < last.len() && last[j] == id;
                assert(last[j] == id);
            }
        }
        let n = ls.len() - 1;
        assert(ls.take(n) =~= front);
        if hit(last) {
            assert(ls[n].contains(id));
        } else if appearances(v, ls, id) > 0 {
            let k = choose|k: int|
                {
                    &&& 0 <= k < front.len()
                    &&& (#[trigger] front[k]).contains(id)
                    &&& last_touch(v, front, id) == front.take(k).flatten().len()
                    &&& forall|j: int| k < j < front.len() ==> !(#[trigger] front[j]).contains(id)
                };
            assert(front.take(k) =~= ls.take(k));
            assert(ls[k].contains(id));
            assert forall|j: int| k < j < ls.len() implies !(#[trigger] ls[j]).contains(id) by {
                if j < n {
                    assert(!front[j].contains(id));
                } else {
                    assert(interest::content(v, id));
                }
            }
        }
    } else {
        assert(ls =~= Seq::empty());
    }
}

proof fn lemma_training_front(recs: Seq<Record>, r: Record, k: int, g: Seq<u32>, max_n: int, c: u32)
    requires
        0 <= k <= recs.len(),
    ensures
        trained_chars(recs.push(r), k) == trained_chars(recs, k),
        trained_grams(recs.push(r), k, g, max_n) == trained_grams(recs, k, g, max_n),
        trained_nexts(recs.push(r), k, g, max_n, c) == trained_nexts(recs, k, g, max_n, c),
    decreases k,
{
    if k > 0 {
        lemma_training_front(recs, r, k - 1, g, max_n, c);
        assert(recs.push(r)[k - 1] == recs[k - 1]);
    }
}

/// The tokenizer is trained by what was absorbed: one more line of a user or of the bot adds its
/// characters and grams where it was absorbed, and nothing where it was not. A preference adds
/// nothing.
pub proof fn law_only_what_was_absorbed_trains(
    recs: Seq<Record>,
    r: Record,
    g: Seq<u32>,
    max_n: int,
    c: u32,
)
    ensures
        ({
            let n = recs.len() as int;
            let text = entropy::codes(r.text@);
            if r.learned && (r.role == Role::User || r.role == Role::Bot) {
                &&& trained_chars(recs.push(r), n + 1) == trained_chars(recs, n) + r.text@.len()
                &&& trained_grams(recs.push(r), n + 1, g, max_n) == trained_grams(recs, n, g, max_n)
                    + entropy::gram_hits(text, g, max_n)
                &&& trained_nexts(recs.push(r), n + 1, g, max_n, c) == trained_nexts(
                    recs,
                    n,
                    g,
                    max_n,
                    c,
                ) + entropy::next_hits(text, g, max_n, c)
            } else {
                &&& trained_chars(recs.push(r), n + 1) == trained_chars(recs, n)
                &&& trained_grams(recs.push(r), n + 1, g, max_n) == trained_grams(recs, n, g, max_n)
                &&& trained_nexts(recs.push(r), n + 1, g, max_n, c) == trained_nexts(
                    recs,
                    n,
                    g,
                    max_n,
                    c,
                )
            }
        }),
{
    lemma_training_front(recs, r, recs.len() as int, g, max_n, c);
}

/// The window of the topic is one text wide at least, and the history four contexts long.
pub proof fn law_windows_have_their_widths(params: Params)
    ensures
        topic_span(params) >= 1,
        params.k_topic >= 1 ==> topic_span(params) == params.k_topic,
        params.k_topic <= 1 ==> topic_span(params) == 1,
        history_cap(params) == 4 * params.context_cap(),
{
}

/// A live session and a retraining on its log come to the same counts: a tokenizer trained on a
/// log that then takes in a turn is trained on the log with the turn's two lines.
pub proof fn law_live_training_equals_retraining(
    a: Tokenizer,
    b: Tokenizer,
    params: Params,
    recs: Seq<Record>,
    user: Record,
    bot: Record,
    t: TurnLines,
)
    requires
        is_trained(a, params, recs),
        trains_on(a, b, t),
        user.role == Role::User,
        bot.role == Role::Bot,
        user.text@ == t.input,
        bot.text@ == t.reply,
        user.learned == t.learned_user,
        bot.learned == t.learned_bot,
    ensures
        is_trained(b, params, recs.push(user).push(bot)),
{
    let n = recs.len() as int;
    let one = recs.push(user);
    let two = one.push(bot);
    let max_n = a.model.max_n as int;
    law_only_what_was_absorbed_trains(recs, user, Seq::empty(), max_n, 0);
    law_only_what_was_absorbed_trains(one, bot, Seq::empty(), max_n, 0);
    assert forall|g: Seq<u32>| #[trigger]
        b.model.gram_count(g) == entropy::saturated(trained_grams(two, n + 2, g, max_n)) by {
        law_only_what_was_absorbed_trains(recs, user, g, max_n, 0);
        law_only_what_was_absorbed_trains(one, bot, g, max_n, 0);
        entropy::lemma_gram_hits_nonneg(entropy::codes(t.input), g, max_n);
        entropy::lemma_gram_hits_nonneg(entropy::codes(t.reply), g, max_n);
        assert(a.model.gram_count(g) == entropy::saturated(trained_grams(recs, n, g, max_n)));
    }
    assert forall|g: Seq<u32>, c: u32| #[trigger]
        b.model.next_count(g, c) == trained_nexts(two, n + 2, g, max_n, c) by {
        law_only_what_was_absorbed_trains(recs, user, g, max_n, c);
        law_only_what_was_absorbed_trains(one, bot, g, max_n, c);
        assert(a.model.next_count(g, c) == trained_nexts(recs, n, g, max_n, c));
    }
}

/// A training takes its dials from the parameters: one morpheme to a chunk at least, and grams
/// of two characters at least.
pub proof fn law_training_takes_the_dials(tk: Tokenizer, params: Params, recs: Seq<Record>)
    requires
        is_trained(tk, params, recs),
    ensures
        tk.cut == params.entropy_cut,
        tk.chunk_morphs >= 1,
        params.chunk_morphs >= 1 ==> tk.chunk_morphs == params.chunk_morphs,
        tk.model.max_n >= 2,
        params.entropy_n >= 2 ==> tk.model.max_n == params.entropy_n,
{
}

/// The touched chunks of a line are told once each, with the chunks absorbed since the line
/// that last touched them; a chunk never touched before has been waited for from the start.
pub proof fn law_touches_tell_how_long_it_was(
    v: intern::Vocab,
    ls: Seq<Seq<u32>>,
    ts: Seq<Touch>,
    id: u32,
)
    requires
        ls.len() > 0,
        is_touch_list(v, ls, ts),
        interest::content(v, id),
        ls.last().contains(id),
    ensures
        exists|i: int|
            {
                &&& 0 <= i < ts.len()
                &&& (#[trigger] ts[i]).id == id
                &&& forall|j: int| 0 <= j < ts.len() && j != i ==> (#[trigger] ts[j]).id != id
                &&& (forall|k: int| 0 <= k < ls.len() - 1 ==> !(#[trigger] ls[k]).contains(id))
                    ==> ts[i].elapsed == ls.drop_last().flatten().len()
                &&& forall|k: int|
                    #![trigger ls[k]]
                    0 <= k < ls.len() - 1 && ls[k].contains(id) && (forall|m: int|
                        k < m < ls.len() - 1 ==> !(#[trigger] ls[m]).contains(id))
                        ==> ts[i].elapsed == ls.drop_last().flatten().len() - ls.take(
                        k,
                    ).flatten().len()
            },
{
    let before = ls.drop_last();
    interest::law_lines_touch_their_content(v, ls.last(), id);
    assert(touches(v, ls.last(), id));
    let i = choose|i: int| 0 <= i < ts.len() && (#[trigger] ts[i]).id == id;
    law_the_ledger_counts_lines(v, before, id);
    assert forall|j: int| 0 <= j < ts.len() && j != i implies (#[trigger] ts[j]).id != id by {
        if j < i {
            assert(ts[j].id != ts[i].id);
        } else {
            assert(ts[i].id != ts[j].id);
        }
    }
    assert(ts[i].elapsed == clock(before) - last_touch(v, before, id));
    if forall|k: int| 0 <= k < ls.len() - 1 ==> !(#[trigger] ls[k]).contains(id) {
        if appearances(v, before, id) > 0 {
            let k = choose|k: int|
                {
                    &&& 0 <= k < before.len()
                    &&& (#[trigger] before[k]).contains(id)
                    &&& last_touch(v, before, id) == before.take(k).flatten().len()
                    &&& forall|j: int| k < j < before.len() ==> !(#[trigger] before[j]).contains(id)
                };
            assert(ls[k].contains(id));
        }
        lemma_appearances_nonneg(v, before, id);
    }
    assert forall|k: int|
        #![trigger ls[k]]
        0 <= k < ls.len() - 1 && ls[k].contains(id) && (forall|m: int|
            k < m < ls.len() - 1 ==> !(#[trigger] ls[m]).contains(id)) implies ts[i].elapsed
        == ls.drop_last().flatten().len() - ls.take(k).flatten().len() by {
        lemma_appears(v, before, id, k);
        let h = choose|h: int|
            {
                &&& 0 <= h < before.len()
                &&& (#[trigger] before[h]).contains(id)
                &&& last_touch(v, before, id) == before.take(h).flatten().len()
                &&& forall|j: int| h < j < before.len() ==> !(#[trigger] before[j]).contains(id)
            };
        assert(before[k] == ls[k]);
        if h < k {
            assert(!before[k].contains(id));
        } else if k < h {
            assert(!ls[h].contains(id));
        }
        assert(before.take(h) =~= ls.take(k));
    }
}

proof fn lemma_appears(v: intern::Vocab, ls: Seq<Seq<u32>>, id: u32, k: int)
    requires
        0 <= k < ls.len(),
        interest::content(v, id),
        ls[k].contains(id),
    ensures
        appearances(v, ls, id) > 0,
    decreases ls.len(),
{
    let front = ls.drop_last();
    lemma_appearances_nonneg(v, front, id);
    interest::law_lines_touch_their_content(v, ls.last(), id);
    if k < ls.len() - 1 {
        lemma_appears(v, front, id, k);
    }
}

/// The chunks of a heard line read back as what the tokenizer cut.
pub proof fn law_heard_chunks_read_back(
    tk: Tokenizer,
    recs: Seq<Record>,
    scores: Seq<Vec<u64>>,
    k: int,
    i: int,
)
    requires
        1 <= k <= recs.len(),
        recs[k - 1].role != Role::Meta,
        intern::vocab_wf(hear(tk, recs, scores, k - 1).0),
        hear(tk, recs, scores, k - 1).0.strings.len() + tk.morphs(
            recs[k - 1].text@,
            scores[k - 1]@,
        ).len() + tk.chunks(recs[k - 1].text@, scores[k - 1]@).len() <= u32::MAX,
        0 <= i < tk.chunks(recs[k - 1].text@, scores[k - 1]@).len(),
    ensures
        ({
            let h = hear(tk, recs, scores, k);
            let cs = tk.chunks(recs[k - 1].text@, scores[k - 1]@);
            &&& h.1.last().chunks.len() == cs.len()
            &&& intern::text_of(h.0, h.1.last().chunks[i]) == cs[i]
        }),
{
    let p = hear(tk, recs, scores, k - 1).0;
    let ms = tk.morphs(recs[k - 1].text@, scores[k - 1]@);
    let cs = tk.chunks(recs[k - 1].text@, scores[k - 1]@);
    let all = ms + cs;
    let v = intern::with_all(p, all);
    tokenizer::law_ids_read_back(p, all, ms.len() + i);
    assert(all[ms.len() + i] == cs[i]);
    assert(tokenizer::ids_of(v, cs)[i] == tokenizer::ids_of(v, all)[ms.len() + i]);
}

} // verus!
