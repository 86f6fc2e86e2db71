//! The same log, the same seed and the same inputs give the same replies.
//!
//! A turn is followed from its start to its end by what its steps promise. What the host hands
//! in is the same on both sides; the two sides may hold their texts and tables in different
//! places, so they are compared by content.
use crate::adapt;
use crate::alias;
use crate::bits;
use crate::embed;
use crate::engine::Engine;
use crate::explain::PathKind;
use crate::explain::TriggerTrace;
use crate::intern;
use crate::interest::InterestLedger;
use crate::interject;
use crate::log::Record;
use crate::memory;
use crate::memory::Heard;
use crate::memory::Memory;
use crate::mix;
use crate::params::Params;
use crate::propose;
use crate::propose::Attempt;
use crate::respond;
use crate::respond::Answer;
use crate::respond::First;
use crate::respond::Notes;
use crate::respond::Weights;
use crate::retrieve;
use crate::rng;
use crate::rng::Stream;
use crate::store;
use crate::store::Store;
use crate::text;
use crate::tokenizer::Tokenizer;
use crate::trigger::TriggerDict;
use crate::turn;
use crate::turn::Begun;
use crate::weather;
use vstd::prelude::*;

verus! {

// ---- two engines ----
/// Two tokenizers cut and count alike.
pub open spec fn same_cuts(a: Tokenizer, b: Tokenizer) -> bool {
    &&& a.cut == b.cut
    &&& a.chunk_morphs == b.chunk_morphs
    &&& a.model.max_n == b.model.max_n
    &&& a.model.total_chars == b.model.total_chars
    &&& forall|g: Seq<u32>| #[trigger] a.model.gram_count(g) == b.model.gram_count(g)
    &&& forall|g: Seq<u32>, c: u32| #[trigger]
        a.model.next_count(g, c) == b.model.next_count(g, c)
}

/// Two stores hold one stream, with the same part of it in the buffer.
pub open spec fn same_store(a: Store, b: Store) -> bool {
    a.text@ == b.text@ && a.buf@ == b.buf@ && a.threshold() == b.threshold()
}

/// Two memories are what these lines make them, with one vocabulary and one topic.
pub open spec fn same_memory(a: Memory, b: Memory, params: Params, dim: int, hs: Seq<Heard>) -> bool {
    &&& a.intern@ == b.intern@
    &&& a.recalls(params, dim, hs)
    &&& b.recalls(params, dim, hs)
    &&& same_store(a.store, b.store)
    &&& same_store(a.rev_store, b.rev_store)
    &&& a.bots@ == b.bots@
    &&& a.pairs@ == b.pairs@
    &&& a.topic.k == b.topic.k
    &&& a.topic.dim == b.topic.dim
    &&& embed::held_bins(a.topic.window@) == embed::held_bins(b.topic.window@)
}

/// Two dictionaries hold the same responses.
pub open spec fn same_triggers(a: TriggerDict, b: TriggerDict) -> bool {
    &&& a.entries.len() == b.entries.len()
    &&& forall|i: int|
        0 <= i < a.entries.len() ==> text::texts((#[trigger] a.entries[i]).responses@)
            == text::texts(b.entries[i].responses@)
}

/// Two engines agree on parameters, seed, stream, tokenizer, triggers, counters and memory.
pub open spec fn same_engine(a: Engine, b: Engine) -> bool {
    &&& a.params == b.params
    &&& a.seed == b.seed
    &&& a.rng == b.rng
    &&& a.embedder.dim == b.embedder.dim
    &&& same_cuts(a.tokenizer, b.tokenizer)
    &&& same_triggers(a.triggers, b.triggers)
    &&& a.eval == b.eval
    &&& a.digest@ == b.digest@
    &&& a.last_path == b.last_path
    &&& exists|hs: Seq<Heard>| #[trigger]
        same_memory(a.memory, b.memory, a.params, a.embedder.dim as int, hs)
}

// ---- a turn ----
/// What the host hands in over a turn.
pub struct Given {
    pub input: Seq<char>,
    /// Entropy scores of the input.
    pub scores: Seq<u64>,
    pub p_release: u64,
    /// How similar the input is to each trigger.
    pub trigger_sims: Seq<u32>,
    /// Entropy scores of the responses of a trigger hit.
    pub response_scores: Seq<Seq<u64>>,
    /// What the gates ask for.
    pub retrieve_size: int,
    pub cand_size: int,
    /// The scores of the past replies for each pick.
    pub pick_scores: Seq<Seq<u32>>,
    /// How near the exchanges are to the input, and to the topic.
    pub input_sims: Seq<u32>,
    pub topic_sims: Seq<u32>,
    /// What the Markov attempts generated, and where they left the stream.
    pub attempts: Seq<(Seq<u32>, Option<u32>)>,
    pub at: u128,
    /// What the choice of a reply goes by.
    pub topic_scores: Seq<u32>,
    pub ranking_scores: Seq<u32>,
    pub prob: Seq<u64>,
    pub alias: Seq<usize>,
    pub p_slip: u64,
    pub p_interject: u64,
    pub silent_score: u32,
    pub now: u64,
}

/// A turn on one side: what its steps made of it.
pub struct Turn {
    pub begun: Begun,
    pub heard: Memory,
    pub hit: Option<(TriggerTrace, Vec<String>)>,
    pub response_scores: Seq<Vec<u64>>,
    pub first: First,
    pub routed: Memory,
    /// Past replies that were picked, by their place among the candidates.
    pub picks: Seq<int>,
    /// The pool behind the adapted replies.
    pub adapted: Seq<mix::Proposed>,
    /// The chunk that Markov replies grow around.
    pub anchor: Option<u32>,
    pub weights: Weights,
    pub notes: Notes,
    pub answer: Answer,
    /// Where the turn leaves the stream.
    pub end: u128,
    /// The growth mark.
    pub mark: Option<Seq<char>>,
    pub after: Engine,
}

/// The contents of lists of scores.
pub open spec fn contents(xs: Seq<Vec<u64>>) -> Seq<Seq<u64>> {
    xs.map_values(|v: Vec<u64>| v@)
}

impl Given {
    /// The weights hold what is given.
    pub open spec fn weighs(self, w: Weights) -> bool {
        &&& w.topic_scores@ == self.topic_scores
        &&& w.scores@ == self.ranking_scores
        &&& w.slip_table.prob@ == self.prob
        &&& w.slip_table.alias@ == self.alias
        &&& w.p_slip == self.p_slip
        &&& w.p_interject == self.p_interject
        &&& w.silent_score == self.silent_score
    }
}

/// Which of `n` candidates are picked.
pub open spec fn flags(n: nat, picks: Seq<int>) -> Seq<bool>
    decreases picks.len(),
{
    if picks.len() == 0 {
        Seq::new(n, |i: int| false)
    } else {
        flags(n, picks.drop_last()).update(picks.last(), true)
    }
}

/// `n` candidates are picked from by these scores, one after the other, until there are enough
/// or there is none left to pick.
pub open spec fn are_picks(n: nat, enough: int, scores: Seq<Seq<u32>>, picks: Seq<int>) -> bool {
    &&& picks.len() <= enough
    &&& picks.len() <= n
    &&& forall|k: int|
        0 <= k < picks.len() ==> retrieve::is_next(
            flags(n, picks.take(k)),
            scores[k],
            #[trigger] picks[k],
        )
    &&& picks.len() >= enough || picks.len() >= n || forall|c: int|
        !#[trigger] retrieve::is_next(flags(n, picks), scores[picks.len() as int], c)
}

/// The pool with the picked past replies.
pub open spec fn with_picked(
    said: Seq<retrieve::Said>,
    cands: Seq<int>,
    pool: Seq<mix::Proposed>,
    picks: Seq<int>,
) -> Seq<mix::Proposed>
    decreases picks.len(),
{
    if picks.len() == 0 {
        pool
    } else {
        let b = said[cands[picks.last()]];
        mix::proposed(
            with_picked(said, cands, pool, picks.drop_last()),
            mix::Proposed {
                source: PathKind::Retrieve,
                text: b.text,
                tokens: b.toks,
                surprise: None,
            },
        )
    }
}

/// The pool and the known runs behind the first `k` Markov attempts.
pub open spec fn attempted(
    v: intern::Vocab,
    pool: Seq<mix::Proposed>,
    attempts: Seq<(Seq<u32>, Option<u32>)>,
    k: int,
) -> (Seq<mix::Proposed>, Set<Seq<u32>>)
    decreases k,
{
    if k <= 0 {
        (pool, Set::empty())
    } else {
        let before = attempted(v, pool, attempts, k - 1);
        propose::offered(v, before.0, before.1, attempts[k - 1].0, attempts[k - 1].1)
    }
}

impl Turn {
    /// The past replies that may be picked.
    pub open spec fn candidates(self, e: Engine) -> Seq<int> {
        let said = self.routed.bots@;
        retrieve::eligible(
            said,
            self.first.pool@,
            self.begun.input@,
            retrieve::scan_from(said.len() as int, e.params.n_retrieve_scan as int),
            said.len() as int,
        )
    }

    /// The pool behind the past replies.
    pub open spec fn retrieved(self, e: Engine) -> Seq<mix::Proposed> {
        if self.first.sources.retrieve {
            with_picked(self.routed.bots@, self.candidates(e), self.first.pool@, self.picks)
        } else {
            self.first.pool@
        }
    }

    /// The free sources ran: past replies, adapted ones, and Markov as long as it asked for
    /// another attempt.
    pub open spec fn runs(self, e: Engine, g: Given) -> bool {
        let sources = self.first.sources;
        let m = self.routed;
        let chunks = self.begun.tok.chunks@;
        &&& sources.retrieve ==> are_picks(
            self.candidates(e).len(),
            self.first.plan.n_retrieve as int,
            g.pick_scores,
            self.picks,
        )
        &&& if sources.adapt {
            adapt::is_adapted_pool(
                m.pairs@,
                self.retrieved(e),
                self.adapted,
                m.store.statistics().0,
                m.intern@,
                self.begun.input@,
                chunks,
                g.input_sims,
                g.topic_sims,
                e.params.n_adapt as int,
                retrieve::scan_from(m.pairs@.len() as int, e.params.n_retrieve_scan as int),
            )
        } else {
            self.adapted == self.retrieved(e)
        }
        &&& sources.n_cand > 0 ==> {
            &&& propose::is_anchor(m, e.params, chunks, self.begun.release, self.anchor)
            &&& forall|k: int|
                0 <= k <= g.attempts.len() ==> (k == g.attempts.len() <==> propose::next_attempt(
                    self.anchor,
                    sources.n_cand as int,
                    k,
                    (#[trigger] attempted(m.intern@, self.adapted, g.attempts, k)).0.len()
                        - self.adapted.len(),
                ) == Attempt::Done)
        }
    }

    /// Where the free sources leave the pool and the stream.
    pub open spec fn free(self, e: Engine, g: Given) -> (Seq<mix::Proposed>, u128) {
        if self.first.sources.n_cand > 0 {
            propose::parroted(
                self.routed.intern@,
                attempted(
                    self.routed.intern@,
                    self.adapted,
                    g.attempts,
                    g.attempts.len() as int,
                ).0,
                self.begun.tok.chunks@,
                e.params.mix,
                rng::moved(e.rng, g.at),
            )
        } else {
            (self.adapted, rng::after(e.rng.pos, 1))
        }
    }

    /// The pool at its end, and where that leaves the stream.
    pub open spec fn last(self, e: Engine, g: Given) -> (Seq<mix::Proposed>, u128) {
        let free = self.free(e, g);
        respond::last_pool(
            e.params,
            self.routed,
            self.first.sources.echo,
            self.begun.input@,
            self.begun.tok.chunks@,
            free.0,
            rng::moved(e.rng, free.1),
        )
    }

    /// The turn starts with this engine and is given this: each step made of it what it
    /// promises.
    pub open spec fn follows(self, e: Engine, g: Given) -> bool {
        let last = self.last(e, g);
        let chunks = self.begun.tok.chunks@;
        let responses = respond::answers(self.hit);
        &&& turn::is_begun(
            e.memory,
            self.heard,
            e.params,
            e.embedder.dim as int,
            e.tokenizer,
            e.rng,
            e.seed,
            turn::sky_over(e.params, e.digest@, e.seed),
            g.input,
            g.scores,
            g.p_release,
            self.begun,
        )
        &&& contents(self.response_scores) == g.response_scores
        &&& g.response_scores.len() == responses.len()
        &&& g.trigger_sims.len() == e.triggers.entries.len()
        &&& e.triggers.is_hit(g.trigger_sims, e.params.theta_trig, self.hit)
        &&& respond::is_first(
            self.heard,
            self.routed,
            e.params,
            e.tokenizer,
            responses,
            self.response_scores,
            g.retrieve_size,
            g.cand_size,
            self.first,
        )
        &&& self.runs(e, g)
        &&& g.weighs(self.weights)
        &&& self.weights.fits(last.0.len() as int)
        &&& respond::is_answer(
            self.answer,
            self.routed,
            e.params,
            e.seed,
            self.begun,
            last.0,
            self.weights,
            self.notes,
            g.now,
            rng::moved(e.rng, last.1),
            self.end,
        )
        &&& memory::all_known(self.routed.intern@, chunks)
        &&& memory::all_known(self.routed.intern@, self.answer.tokens@)
        &&& (Engine { memory: self.routed, rng: rng::moved(e.rng, self.end), ..e }).is_concluded(
            self.after,
            self.answer.rec_user,
            self.answer.rec_bot,
            self.answer.trace,
            chunks,
            self.answer.tokens@,
            self.mark,
        )
    }

    /// What is said, shown and written, and how it came to be.
    pub open spec fn replies_like(self, other: Turn) -> bool {
        let (a, b) = (self.answer, other.answer);
        &&& a.rec_bot.text@ == b.rec_bot.text@
        &&& respond::shown(a.trace.interject) == respond::shown(b.trace.interject)
        &&& self.mark == other.mark
        &&& a.trace.path == b.trace.path
        &&& a.trace.slipped == b.trace.slipped
        &&& a.trace.learned == b.trace.learned
        &&& a.tokens@ == b.tokens@
        &&& same_record(a.rec_user, b.rec_user)
        &&& same_record(a.rec_bot, b.rec_bot)
        &&& turn::worded(self.begun.care) == turn::worded(other.begun.care)
        &&& self.begun.release == other.begun.release
        &&& self.first.sources == other.first.sources
        &&& self.first.sources.n_cand > 0 ==> self.anchor == other.anchor
        &&& self.end == other.end
    }
}

/// Two records say the same.
pub open spec fn same_record(a: Record, b: Record) -> bool {
    a.text@ == b.text@ && a == (Record { text: a.text, ..b })
}

// ---- steps ----
proof fn lemma_same_morphs(a: Tokenizer, b: Tokenizer, s: Seq<char>, scores: Seq<u64>)
    requires
        same_cuts(a, b),
    ensures
        a.morphs(s, scores) == b.morphs(s, scores),
        a.chunks(s, scores) == b.chunks(s, scores),
{
    assert(a.cutting(s, scores) == b.cutting(s, scores));
}

proof fn lemma_same_triggered(
    a: Tokenizer,
    b: Tokenizer,
    v: intern::Vocab,
    pool: Seq<mix::Proposed>,
    responses: Seq<Seq<char>>,
    sa: Seq<Vec<u64>>,
    sb: Seq<Vec<u64>>,
    k: int,
)
    requires
        same_cuts(a, b),
        contents(sa) == contents(sb),
        k <= sa.len(),
    ensures
        propose::triggered(a, v, pool, responses, sa, k) == propose::triggered(
            b,
            v,
            pool,
            responses,
            sb,
            k,
        ),
        memory::extends(v, propose::triggered(a, v, pool, responses, sa, k).0),
    decreases k,
{
    if k > 0 {
        lemma_same_triggered(a, b, v, pool, responses, sa, sb, k - 1);
        assert(contents(sa)[k - 1] == sa[k - 1]@);
        assert(contents(sb).len() == sb.len());
        assert(contents(sb)[k - 1] == sb[k - 1]@);
        lemma_same_morphs(a, b, responses[k - 1], sa[k - 1]@);
        let before = propose::triggered(a, v, pool, responses, sa, k - 1).0;
        let words = a.morphs(responses[k - 1], sa[k - 1]@) + a.chunks(
            responses[k - 1],
            sa[k - 1]@,
        );
        memory::lemma_with_all_extends(before, words, intern::with_all(before, words));
    }
}

proof fn lemma_same_mind(
    params: Params,
    a: InterestLedger,
    b: InterestLedger,
    v: intern::Vocab,
    ws: Seq<Seq<char>>,
)
    requires
        forall|id: u32| #[trigger] a.knows(id) <==> b.knows(id),
        forall|id: u32| #[trigger] a.utterances(id) == b.utterances(id),
        turn::is_mind(a, v, params.hearsay_min, ws),
    ensures
        turn::is_mind(b, v, params.hearsay_min, ws),
{
    let h = params.hearsay_min;
    assert forall|id: u32| #[trigger] turn::established(a, id, h) <==> turn::established(
        b,
        id,
        h,
    ) by {
        assert(a.knows(id) <==> b.knows(id));
        assert(a.utterances(id) == b.utterances(id));
    }
    assert forall|w: Seq<char>| #[trigger] ws.contains(w) <==> turn::on_mind(b, v, h, w) by {
        assert(ws.contains(w) <==> turn::on_mind(a, v, h, w));
        if turn::on_mind(a, v, h, w) {
            let id = choose|id: u32| #[trigger]
                turn::established(a, id, h) && intern::text_of(v, id) == w;
            assert(turn::established(b, id, h));
        }
        if turn::on_mind(b, v, h, w) {
            let id = choose|id: u32| #[trigger]
                turn::established(b, id, h) && intern::text_of(v, id) == w;
            assert(turn::established(a, id, h));
        }
    }
}

proof fn lemma_same_care(
    params: Params,
    a: InterestLedger,
    b: InterestLedger,
    v: intern::Vocab,
    seed: u64,
    day: u64,
    x: Option<Seq<char>>,
    y: Option<Seq<char>>,
)
    requires
        forall|id: u32| #[trigger] a.knows(id) <==> b.knows(id),
        forall|id: u32| #[trigger] a.utterances(id) == b.utterances(id),
        turn::is_care(params, a, v, seed, day, x),
        turn::is_care(params, b, v, seed, day, y),
    ensures
        x == y,
{
    if params.weather && bits::key32(params.care_bonus) != 0 {
        let p = choose|ws: Seq<Seq<char>>|
            {
                &&& #[trigger] turn::is_mind(a, v, params.hearsay_min, ws)
                &&& match x {
                    Some(w) => ws.len() > 0 && w == ws[weather::mixed(
                        seed ^ weather::mixed(day ^ 0xCA9E_0000),
                    ) as int % ws.len() as int],
                    None => ws.len() == 0,
                }
            };
        let q = choose|ws: Seq<Seq<char>>|
            {
                &&& #[trigger] turn::is_mind(b, v, params.hearsay_min, ws)
                &&& match y {
                    Some(w) => ws.len() > 0 && w == ws[weather::mixed(
                        seed ^ weather::mixed(day ^ 0xCA9E_0000),
                    ) as int % ws.len() as int],
                    None => ws.len() == 0,
                }
            };
        lemma_same_mind(params, a, b, v, p);
        turn::law_mind_is_one(b, v, params.hearsay_min, p, q);
    }
}

/// Both sides hear the input alike.
proof fn lemma_same_start(a: Engine, b: Engine, x: Turn, y: Turn, g: Given, hs: Seq<Heard>)
    requires
        same_engine(a, b),
        same_memory(a.memory, b.memory, a.params, a.embedder.dim as int, hs),
        x.follows(a, g),
        y.follows(b, g),
    ensures
        same_memory(x.heard, y.heard, a.params, a.embedder.dim as int, hs),
        x.begun.input@ == y.begun.input@,
        x.begun.tok.morphemes@ == y.begun.tok.morphemes@,
        x.begun.tok.chunks@ == y.begun.tok.chunks@,
        x.begun.release == y.begun.release,
        turn::worded(x.begun.care) == turn::worded(y.begun.care),
{
    let dim = a.embedder.dim as int;
    let line = text::trimmed(g.input);
    lemma_same_morphs(a.tokenizer, b.tokenizer, line, g.scores);
    let words = a.tokenizer.morphs(line, g.scores) + a.tokenizer.chunks(line, g.scores);
    memory::lemma_with_all_extends(a.memory.intern@, words, x.heard.intern@);
    memory::law_recall_survives_growth(a.memory, x.heard, a.params, dim, hs);
    memory::law_recall_survives_growth(b.memory, y.heard, a.params, dim, hs);
    memory::law_same_lines_same_memory(x.heard, y.heard, a.params, dim, hs);
    match turn::sky_over(a.params, a.digest@, a.seed).day {
        Some(d) => {
            lemma_same_care(
                a.params,
                x.heard.interest,
                y.heard.interest,
                x.heard.intern@,
                a.seed,
                d,
                turn::worded(x.begun.care),
                turn::worded(y.begun.care),
            );
        },
        None => {},
    }
}

/// A trigger hits alike on both sides.
proof fn lemma_same_hit(a: Engine, b: Engine, x: Turn, y: Turn, g: Given)
    requires
        same_engine(a, b),
        x.follows(a, g),
        y.follows(b, g),
    ensures
        respond::answers(x.hit) == respond::answers(y.hit),
{
    let sims = g.trigger_sims;
    let theta = a.params.theta_trig;
    assert forall|i: int, j: int|
        #[trigger] crate::trigger::first_largest(sims, i) && #[trigger] crate::trigger::first_largest(
            sims,
            j,
        ) implies i == j by {
        if i < j {
            assert(bits::key32(sims[i]) < bits::key32(sims[j]));
        } else if j < i {
            assert(bits::key32(sims[j]) < bits::key32(sims[i]));
        }
    }
    assert forall|i: int| 0 <= i < a.triggers.entries.len() implies (
    #[trigger] a.triggers.entries[i]).responses.len() == b.triggers.entries[i].responses.len() by {
        assert(text::texts(a.triggers.entries[i].responses@).len() == text::texts(
            b.triggers.entries[i].responses@,
        ).len());
    }
}

/// Both sides route the turn alike.
proof fn lemma_same_route(a: Engine, b: Engine, x: Turn, y: Turn, g: Given, hs: Seq<Heard>)
    requires
        same_engine(a, b),
        same_memory(x.heard, y.heard, a.params, a.embedder.dim as int, hs),
        x.follows(a, g),
        y.follows(b, g),
    ensures
        same_memory(x.routed, y.routed, a.params, a.embedder.dim as int, hs),
        x.first.pool@ == y.first.pool@,
        x.first.plan == y.first.plan,
        x.first.sources == y.first.sources,
{
    let dim = a.embedder.dim as int;
    let cap = a.params.n_retrieve_scan as int;
    lemma_same_hit(a, b, x, y, g);
    let responses = respond::answers(x.hit);
    assert(contents(x.response_scores).len() == x.response_scores.len());
    lemma_same_triggered(
        a.tokenizer,
        b.tokenizer,
        x.heard.intern@,
        Seq::empty(),
        responses,
        x.response_scores,
        y.response_scores,
        responses.len() as int,
    );
    memory::law_recall_survives_growth(x.heard, x.routed, a.params, dim, hs);
    memory::law_recall_survives_growth(y.heard, y.routed, a.params, dim, hs);
    memory::law_same_lines_same_memory(x.heard, y.heard, a.params, dim, hs);
    assert(memory::scanned(x.heard.bots@, cap).len() == memory::scanned(y.heard.bots@, cap).len());
    assert(memory::scanned(x.heard.pairs@, cap).len() == memory::scanned(
        y.heard.pairs@,
        cap,
    ).len());
}

proof fn lemma_same_picks(
    n: nat,
    enough: int,
    scores: Seq<Seq<u32>>,
    p: Seq<int>,
    q: Seq<int>,
    k: int,
)
    requires
        are_picks(n, enough, scores, p),
        are_picks(n, enough, scores, q),
        0 <= k <= p.len(),
    ensures
        k <= q.len(),
        p.take(k) == q.take(k),
    decreases k,
{
    if k > 0 {
        lemma_same_picks(n, enough, scores, p, q, k - 1);
        assert(retrieve::is_next(flags(n, p.take(k - 1)), scores[k - 1], p[k - 1]));
        if q.len() == k - 1 {
            assert(q.take(k - 1) =~= q);
        }
        assert(retrieve::is_next(flags(n, q.take(k - 1)), scores[k - 1], q[k - 1]));
        retrieve::law_next_is_one(flags(n, p.take(k - 1)), scores[k - 1], p[k - 1], q[k - 1]);
        assert(p.take(k) =~= p.take(k - 1).push(p[k - 1]));
        assert(q.take(k) =~= q.take(k - 1).push(q[k - 1]));
    } else {
        assert(p.take(0) =~= q.take(0));
    }
}

/// One choice of scores picks one list.
pub proof fn law_picks_are_one(
    n: nat,
    enough: int,
    scores: Seq<Seq<u32>>,
    p: Seq<int>,
    q: Seq<int>,
)
    requires
        are_picks(n, enough, scores, p),
        are_picks(n, enough, scores, q),
    ensures
        p == q,
{
    lemma_same_picks(n, enough, scores, p, q, p.len() as int);
    lemma_same_picks(n, enough, scores, q, p, q.len() as int);
    assert(p.take(p.len() as int) =~= p);
    assert(q.take(p.len() as int) =~= q);
}

/// The adapted replies of one pool are one.
pub proof fn law_adapted_pool_is_one(
    pairs: Seq<adapt::Exchange>,
    before: Seq<mix::Proposed>,
    p: Seq<mix::Proposed>,
    q: Seq<mix::Proposed>,
    counts: Map<u32, u32>,
    v: intern::Vocab,
    input: Seq<char>,
    chunks: Seq<u32>,
    input_sims: Seq<u32>,
    topic_sims: Seq<u32>,
    n_adapt: int,
    start: int,
)
    requires
        adapt::is_adapted_pool(
            pairs,
            before,
            p,
            counts,
            v,
            input,
            chunks,
            input_sims,
            topic_sims,
            n_adapt,
            start,
        ),
        adapt::is_adapted_pool(
            pairs,
            before,
            q,
            counts,
            v,
            input,
            chunks,
            input_sims,
            topic_sims,
            n_adapt,
            start,
        ),
    ensures
        p == q,
{
    if n_adapt != 0 && !adapt::only_echoes(pairs, input, start) {
        let i = choose|i: int|
            {
                &&& #[trigger] adapt::is_nearest(pairs, input, input_sims, start, i)
                &&& adapt::is_quoted_pool(
                    pairs,
                    adapt::with_adapted(before, counts, v, pairs[i], chunks),
                    p,
                    input,
                    topic_sims,
                    n_adapt,
                    start,
                )
            };
        let j = choose|j: int|
            {
                &&& #[trigger] adapt::is_nearest(pairs, input, input_sims, start, j)
                &&& adapt::is_quoted_pool(
                    pairs,
                    adapt::with_adapted(before, counts, v, pairs[j], chunks),
                    q,
                    input,
                    topic_sims,
                    n_adapt,
                    start,
                )
            };
        adapt::law_nearest_is_one(pairs, input, input_sims, start, i, j);
        if n_adapt >= 2 {
            let mid = adapt::with_adapted(before, counts, v, pairs[i], chunks);
            let k = choose|k: int|
                #[trigger] adapt::is_nearest(pairs, input, topic_sims, start, k) && p
                    == adapt::with_quote(mid, pairs[k]);
            let l = choose|l: int|
                #[trigger] adapt::is_nearest(pairs, input, topic_sims, start, l) && q
                    == adapt::with_quote(mid, pairs[l]);
            adapt::law_nearest_is_one(pairs, input, topic_sims, start, k, l);
        }
    }
}

/// Memories that agree grow replies around the same chunk.
proof fn lemma_same_anchor(
    a: Memory,
    b: Memory,
    params: Params,
    chunks: Seq<u32>,
    release: bool,
    x: Option<u32>,
    y: Option<u32>,
)
    requires
        a.intern@ == b.intern@,
        a.store.statistics() == b.store.statistics(),
        a.store.stream() == b.store.stream(),
        a.rev_store.stream() == b.rev_store.stream(),
        forall|id: u32| #[trigger] a.interest.knows(id) <==> b.interest.knows(id),
        forall|id: u32| #[trigger] a.interest.utterances(id) == b.interest.utterances(id),
        propose::is_anchor(a, params, chunks, release, x),
        propose::is_anchor(b, params, chunks, release, y),
    ensures
        x == y,
{
    assert forall|i: int| #[trigger] propose::may_anchor(a, params, chunks, release, i)
        <==> propose::may_anchor(b, params, chunks, release, i) by {
        let id = chunks[i];
        assert(a.interest.knows(id) <==> b.interest.knows(id));
        assert(a.interest.utterances(id) == b.interest.utterances(id));
        assert(propose::count_of(a, id) == propose::count_of(b, id));
    }
    assert(propose::anchoring(a, params) == propose::anchoring(b, params));
    match x {
        Some(p) => {
            let i = choose|i: int| #[trigger]
                propose::anchors(a, params, chunks, release, i) && chunks[i] == p;
            assert(propose::may_anchor(a, params, chunks, release, i));
            assert(propose::may_anchor(b, params, chunks, release, i));
            match y {
                Some(q) => {
                    let j = choose|j: int| #[trigger]
                        propose::anchors(b, params, chunks, release, j) && chunks[j] == q;
                    assert(propose::may_anchor(b, params, chunks, release, j));
                    assert(propose::may_anchor(a, params, chunks, release, j));
                    assert(propose::count_of(a, chunks[i]) == propose::count_of(b, chunks[i]));
                    assert(propose::count_of(a, chunks[j]) == propose::count_of(b, chunks[j]));
                    assert(i == j);
                },
                None => {},
            }
        },
        None => {
            match y {
                Some(q) => {
                    let j = choose|j: int| #[trigger]
                        propose::anchors(b, params, chunks, release, j) && chunks[j] == q;
                    assert(propose::may_anchor(b, params, chunks, release, j));
                    assert(propose::may_anchor(a, params, chunks, release, j));
                },
                None => {},
            }
        },
    }
}

/// The free sources propose alike on both sides.
proof fn lemma_same_free(a: Engine, b: Engine, x: Turn, y: Turn, g: Given, hs: Seq<Heard>)
    requires
        same_engine(a, b),
        x.routed.wf(),
        y.routed.wf(),
        same_memory(x.routed, y.routed, a.params, a.embedder.dim as int, hs),
        x.first.pool@ == y.first.pool@,
        x.first.plan == y.first.plan,
        x.first.sources == y.first.sources,
        x.begun.input@ == y.begun.input@,
        x.begun.tok.chunks@ == y.begun.tok.chunks@,
        x.begun.release == y.begun.release,
        x.runs(a, g),
        y.runs(b, g),
    ensures
        x.free(a, g) == y.free(b, g),
        x.first.sources.n_cand > 0 ==> x.anchor == y.anchor,
{
    let (m, n) = (x.routed, y.routed);
    let chunks = x.begun.tok.chunks@;
    memory::law_same_lines_same_memory(m, n, a.params, a.embedder.dim as int, hs);
    store::law_statistics_of_stream(m.store, n.store);
    assert(x.candidates(a) == y.candidates(b));
    if x.first.sources.retrieve {
        law_picks_are_one(
            x.candidates(a).len(),
            x.first.plan.n_retrieve as int,
            g.pick_scores,
            x.picks,
            y.picks,
        );
    }
    assert(x.retrieved(a) == y.retrieved(b));
    if x.first.sources.adapt {
        law_adapted_pool_is_one(
            m.pairs@,
            x.retrieved(a),
            x.adapted,
            y.adapted,
            m.store.statistics().0,
            m.intern@,
            x.begun.input@,
            chunks,
            g.input_sims,
            g.topic_sims,
            a.params.n_adapt as int,
            retrieve::scan_from(m.pairs@.len() as int, a.params.n_retrieve_scan as int),
        );
    }
    if x.first.sources.n_cand > 0 {
        lemma_same_anchor(m, n, a.params, chunks, x.begun.release, x.anchor, y.anchor);
    }
}

proof fn lemma_same_weights(x: Weights, y: Weights, g: Given, s: Stream)
    requires
        g.weighs(x),
        g.weighs(y),
        x.fits(x.scores.len() as int),
    ensures
        x.slips(s) == y.slips(s),
        x.rank(s) == y.rank(s),
        x.end(s) == y.end(s),
        x.index(s) == y.index(s),
        x.similarity(s) == y.similarity(s),
{
    reveal(alias::sampled);
}

/// Both sides interject alike.
proof fn lemma_same_interjection(
    a: Memory,
    b: Memory,
    params: Params,
    reply: Seq<char>,
    p: u64,
    s: Stream,
    x: Option<Seq<char>>,
    y: Option<Seq<char>>,
    ex: u128,
    ey: u128,
)
    requires
        a.interjects.wf(),
        b.interjects.wf(),
        interject::held(a.interjects.items@) == interject::held(b.interjects.items@),
        turn::interjected(params, a, reply, p, s, x, ex),
        turn::interjected(params, b, reply, p, s, y, ey),
    ensures
        x == y,
        ex == ey,
{
    let bank = interject::held(a.interjects.items@);
    assert(bank.len() == a.interjects.items.len());
    assert(bank.len() == b.interjects.items.len());
    assert(a.interjects.total == b.interjects.total);
    if turn::interjects(params, a, reply, p, rng::roll_of(s)) {
        let next = rng::moved(s, rng::after(s.pos, 1));
        let d = rng::drawn(next, a.interjects.total as int).0;
        assert(turn::is_interjection(a, d, reply, y));
        turn::lemma_one_interjection(a, d, reply, x, y);
    }
}

/// Both sides answer alike.
proof fn lemma_same_answer(
    a: Memory,
    b: Memory,
    params: Params,
    seed: u64,
    x: Turn,
    y: Turn,
    g: Given,
    pool: Seq<mix::Proposed>,
    s: Stream,
)
    requires
        a.wf(),
        b.wf(),
        same_store(a.store, b.store),
        interject::held(a.interjects.items@) == interject::held(b.interjects.items@),
        x.begun.input@ == y.begun.input@,
        x.begun.tok.chunks@ == y.begun.tok.chunks@,
        g.weighs(x.weights),
        g.weighs(y.weights),
        x.weights.fits(pool.len() as int),
        respond::is_answer(
            x.answer,
            a,
            params,
            seed,
            x.begun,
            pool,
            x.weights,
            x.notes,
            g.now,
            s,
            x.end,
        ),
        respond::is_answer(
            y.answer,
            b,
            params,
            seed,
            y.begun,
            pool,
            y.weights,
            y.notes,
            g.now,
            s,
            y.end,
        ),
    ensures
        x.end == y.end,
        x.answer.tokens@ == y.answer.tokens@,
        same_record(x.answer.rec_user, y.answer.rec_user),
        same_record(x.answer.rec_bot, y.answer.rec_bot),
        respond::shown(x.answer.trace.interject) == respond::shown(y.answer.trace.interject),
        x.answer.trace.path == y.answer.trace.path,
        x.answer.trace.slipped == y.answer.trace.slipped,
        x.answer.trace.learned == y.answer.trace.learned,
        x.answer.trace.novelty_lcs == y.answer.trace.novelty_lcs,
        x.answer.trace.band_hit == y.answer.trace.band_hit,
{
    lemma_same_weights(x.weights, y.weights, g, s);
    let p = respond::said(pool, x.weights.index(s));
    let mid = x.weights.end(s);
    lemma_same_interjection(
        a,
        b,
        params,
        p.text,
        g.p_interject,
        rng::moved(mid, rng::after(mid.pos, 1)),
        respond::shown(x.answer.trace.interject),
        respond::shown(y.answer.trace.interject),
        x.end,
        y.end,
    );
    let (body, buf) = (a.store.text@, a.store.buf@);
    let (lx, ly) = (x.answer.trace.novelty_lcs as int, y.answer.trace.novelty_lcs as int);
    let i = choose|i: int| #[trigger] turn::is_corpus_run(body, buf, p.tokens, i, lx);
    let j = choose|j: int| #[trigger] turn::is_corpus_run(body, buf, p.tokens, j, ly);
    assert(turn::is_corpus_run(body, buf, p.tokens, i, lx));
    assert(turn::is_corpus_run(body, buf, p.tokens, j, ly));
}

/// Both sides take the turn in alike.
proof fn lemma_same_end(a: Engine, b: Engine, x: Turn, y: Turn, g: Given, hs: Seq<Heard>)
    requires
        a.wf(),
        b.wf(),
        same_engine(a, b),
        x.follows(a, g),
        y.follows(b, g),
        same_memory(x.routed, y.routed, a.params, a.embedder.dim as int, hs),
        x.begun.tok.chunks@ == y.begun.tok.chunks@,
        x.end == y.end,
        x.answer.tokens@ == y.answer.tokens@,
        same_record(x.answer.rec_user, y.answer.rec_user),
        same_record(x.answer.rec_bot, y.answer.rec_bot),
        x.answer.trace.path == y.answer.trace.path,
        x.answer.trace.slipped == y.answer.trace.slipped,
        x.answer.trace.novelty_lcs == y.answer.trace.novelty_lcs,
        x.answer.trace.band_hit == y.answer.trace.band_hit,
    ensures
        x.mark == y.mark,
        same_engine(x.after, y.after),
{
    let dim = a.embedder.dim as int;
    let chunks = x.begun.tok.chunks@;
    let tokens = x.answer.tokens@;
    let t = crate::engine::lines_of(x.answer.rec_user, x.answer.rec_bot, chunks, tokens);
    assert(t == crate::engine::lines_of(y.answer.rec_user, y.answer.rec_bot, chunks, tokens));
    memory::law_live_equals_replay(a.params, dim, x.routed, x.after.memory, hs, t);
    memory::law_live_equals_replay(a.params, dim, y.routed, y.after.memory, hs, t);
    let more = hs.push(t.user()).push(t.bot());
    assert(same_memory(x.after.memory, y.after.memory, a.params, dim, more));
    assert(x.after.digest@ == y.after.digest@);
    assert forall|w: Seq<u32>| #[trigger] x.after.tokenizer.model.gram_count(w)
        == y.after.tokenizer.model.gram_count(w) by {
        assert(a.tokenizer.model.gram_count(w) == b.tokenizer.model.gram_count(w));
        assert(y.after.tokenizer.model.gram_count(w) == y.after.tokenizer.model.gram_count(w));
    }
    assert forall|w: Seq<u32>, c: u32| #[trigger] x.after.tokenizer.model.next_count(w, c)
        == y.after.tokenizer.model.next_count(w, c) by {
        assert(a.tokenizer.model.next_count(w, c) == b.tokenizer.model.next_count(w, c));
        assert(y.after.tokenizer.model.next_count(w, c) == y.after.tokenizer.model.next_count(
            w,
            c,
        ));
    }
    assert(same_cuts(x.after.tokenizer, y.after.tokenizer));
    assert(a.digest.learned == a.digest@.learned && b.digest.learned == b.digest@.learned);
    assert(a.digest.last_speech_t == a.digest@.last_speech_t);
    assert(b.digest.last_speech_t == b.digest@.last_speech_t);
    assert(a.digest.aloof_left == a.digest@.aloof_left);
    assert(b.digest.aloof_left == b.digest@.aloof_left);
}

// ---- laws ----
/// A reply is a function of log, seed and input: two engines that agree, and that are given the
/// same over a turn, say, show and write the same, and agree again.
pub proof fn law_same_turn_same_reply(a: Engine, b: Engine, x: Turn, y: Turn, g: Given)
    requires
        a.wf(),
        b.wf(),
        same_engine(a, b),
        x.follows(a, g),
        y.follows(b, g),
    ensures
        x.replies_like(y),
        same_engine(x.after, y.after),
{
    let dim = a.embedder.dim as int;
    let hs = choose|hs: Seq<Heard>| #[trigger]
        same_memory(a.memory, b.memory, a.params, dim, hs);
    lemma_same_start(a, b, x, y, g, hs);
    lemma_same_route(a, b, x, y, g, hs);
    memory::law_same_lines_same_memory(x.routed, y.routed, a.params, dim, hs);
    lemma_same_free(a, b, x, y, g, hs);
    let last = x.last(a, g);
    assert(last == y.last(b, g));
    lemma_same_answer(
        x.routed,
        y.routed,
        a.params,
        a.seed,
        x,
        y,
        g,
        last.0,
        rng::moved(a.rng, last.1),
    );
    lemma_same_end(a, b, x, y, g, hs);
}

/// The engine before turn `i` of a conversation.
pub open spec fn before(e: Engine, ts: Seq<Turn>, i: int) -> Engine {
    if i <= 0 {
        e
    } else {
        ts[i - 1].after
    }
}

/// A conversation with an engine: each turn starts where the one before ended.
pub open spec fn converses(e: Engine, ts: Seq<Turn>, gs: Seq<Given>) -> bool {
    &&& ts.len() == gs.len()
    &&& forall|i: int| 0 <= i < ts.len() ==> (#[trigger] ts[i]).follows(before(e, ts, i), gs[i])
}

proof fn lemma_still_same(
    a: Engine,
    b: Engine,
    xs: Seq<Turn>,
    ys: Seq<Turn>,
    gs: Seq<Given>,
    k: int,
)
    requires
        a.wf(),
        b.wf(),
        same_engine(a, b),
        converses(a, xs, gs),
        converses(b, ys, gs),
        0 <= k <= gs.len(),
    ensures
        before(a, xs, k).wf(),
        before(b, ys, k).wf(),
        same_engine(before(a, xs, k), before(b, ys, k)),
    decreases k,
{
    if k > 0 {
        lemma_still_same(a, b, xs, ys, gs, k - 1);
        assert(xs[k - 1].follows(before(a, xs, k - 1), gs[k - 1]));
        assert(ys[k - 1].follows(before(b, ys, k - 1), gs[k - 1]));
        law_same_turn_same_reply(
            before(a, xs, k - 1),
            before(b, ys, k - 1),
            xs[k - 1],
            ys[k - 1],
            gs[k - 1],
        );
    }
}

/// Over a whole conversation engines that agree reply alike, turn by turn, and agree at the
/// end.
pub proof fn law_same_inputs_same_replies(
    a: Engine,
    b: Engine,
    xs: Seq<Turn>,
    ys: Seq<Turn>,
    gs: Seq<Given>,
)
    requires
        a.wf(),
        b.wf(),
        same_engine(a, b),
        converses(a, xs, gs),
        converses(b, ys, gs),
    ensures
        forall|i: int| 0 <= i < gs.len() ==> (#[trigger] xs[i]).replies_like(ys[i]),
        same_engine(before(a, xs, gs.len() as int), before(b, ys, gs.len() as int)),
{
    assert forall|i: int| 0 <= i < gs.len() implies (#[trigger] xs[i]).replies_like(ys[i]) by {
        lemma_still_same(a, b, xs, ys, gs, i);
        assert(ys[i].follows(before(b, ys, i), gs[i]));
        law_same_turn_same_reply(before(a, xs, i), before(b, ys, i), xs[i], ys[i], gs[i]);
    }
    lemma_still_same(a, b, xs, ys, gs, gs.len() as int);
}

/// One log trains one tokenizer.
pub proof fn law_same_log_same_cuts(
    a: Tokenizer,
    b: Tokenizer,
    params: Params,
    recs: Seq<Record>,
)
    requires
        memory::is_trained(a, params, recs),
        memory::is_trained(b, params, recs),
    ensures
        same_cuts(a, b),
{
    assert forall|g: Seq<u32>| #[trigger] a.model.gram_count(g) == b.model.gram_count(g) by {
        assert(b.model.gram_count(g) == b.model.gram_count(g));
    }
    assert forall|g: Seq<u32>, c: u32| #[trigger] a.model.next_count(g, c) == b.model.next_count(
        g,
        c,
    ) by {
        assert(b.model.next_count(g, c) == b.model.next_count(g, c));
    }
}

proof fn lemma_same_hearing(
    a: Tokenizer,
    b: Tokenizer,
    recs: Seq<Record>,
    sa: Seq<Vec<u64>>,
    sb: Seq<Vec<u64>>,
    k: int,
)
    requires
        same_cuts(a, b),
        contents(sa) == contents(sb),
        k <= sa.len(),
    ensures
        memory::hear(a, recs, sa, k) == memory::hear(b, recs, sb, k),
    decreases k,
{
    if k > 0 {
        lemma_same_hearing(a, b, recs, sa, sb, k - 1);
        assert(contents(sa)[k - 1] == sa[k - 1]@);
        assert(contents(sb).len() == sb.len());
        assert(contents(sb)[k - 1] == sb[k - 1]@);
        lemma_same_morphs(a, b, recs[k - 1].text@, sa[k - 1]@);
    }
}

/// One log opens to one engine.
pub proof fn law_same_log_same_engine(
    a: Engine,
    b: Engine,
    params: Params,
    seed: u64,
    recs: Seq<Record>,
    sa: Seq<Vec<u64>>,
    sb: Seq<Vec<u64>>,
)
    requires
        a.is_opened(params, seed, a.tokenizer, recs, sa),
        b.is_opened(params, seed, b.tokenizer, recs, sb),
        same_cuts(a.tokenizer, b.tokenizer),
        same_triggers(a.triggers, b.triggers),
        contents(sa) == contents(sb),
        sa.len() == recs.len(),
    ensures
        same_engine(a, b),
{
    lemma_same_hearing(a.tokenizer, b.tokenizer, recs, sa, sb, recs.len() as int);
    let hs = memory::hear(a.tokenizer, recs, sa, recs.len() as int).1;
    let (m, n) = (a.memory, b.memory);
    assert(m.store.text@ =~= m.store.stream());
    assert(n.store.text@ =~= n.store.stream());
    assert(m.rev_store.text@ =~= m.rev_store.stream());
    assert(n.rev_store.text@ =~= n.rev_store.stream());
    assert(m.store.buf@ =~= n.store.buf@);
    assert(m.rev_store.buf@ =~= n.rev_store.buf@);
    assert(same_memory(m, n, params, a.embedder.dim as int, hs));
}

/// The same log, replayed with the same seed and then given the same inputs, is answered the
/// same from beginning to end.
pub proof fn law_same_log_same_replies(
    a: Engine,
    b: Engine,
    params: Params,
    seed: u64,
    recs: Seq<Record>,
    sa: Seq<Vec<u64>>,
    sb: Seq<Vec<u64>>,
    xs: Seq<Turn>,
    ys: Seq<Turn>,
    gs: Seq<Given>,
)
    requires
        a.is_opened(params, seed, a.tokenizer, recs, sa),
        b.is_opened(params, seed, b.tokenizer, recs, sb),
        memory::is_trained(a.tokenizer, params, recs),
        memory::is_trained(b.tokenizer, params, recs),
        same_triggers(a.triggers, b.triggers),
        contents(sa) == contents(sb),
        sa.len() == recs.len(),
        converses(a, xs, gs),
        converses(b, ys, gs),
    ensures
        forall|i: int| 0 <= i < gs.len() ==> (#[trigger] xs[i]).replies_like(ys[i]),
{
    law_same_log_same_cuts(a.tokenizer, b.tokenizer, params, recs);
    law_same_log_same_engine(a, b, params, seed, recs, sa, sb);
    law_same_inputs_same_replies(a, b, xs, ys, gs);
}

} // verus!
