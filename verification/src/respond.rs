//! The two ends of a turn: what is settled before the free sources propose, and what comes of
//! the pool that they leave.
//!
//! Between the ends the host runs retrieve, adapt and Markov in that order, as far as they are
//! open.
use crate::alias;
use crate::alias::AliasTable;
use crate::bits;
use crate::explain::CandidateTrace;
use crate::explain::GenStep;
use crate::explain::PathKind;
use crate::explain::Trace;
use crate::explain::TriggerTrace;
use crate::ids::TokenId;
use crate::intern;
use crate::log;
use crate::log::Record;
use crate::log::Role;
use crate::memory::Memory;
use crate::mix;
use crate::mix::Pool;
use crate::params::Params;
use crate::propose;
use crate::propose::Sources;
use crate::rng;
use crate::rng::Stream;
use crate::route;
use crate::route::RoutePlan;
use crate::select;
use crate::select::RankInput;
use crate::sort;
use crate::text;
use crate::tokenizer::Tokenizer;
use crate::turn;
use crate::turn::Begun;
use vstd::prelude::*;

verus! {

// ---- before the free sources ----
/// A trigger hit has proposed, the turn is routed, and it is settled which sources run.
pub struct First {
    pub pool: Pool,
    pub trigger: Option<TriggerTrace>,
    pub plan: RoutePlan,
    pub sources: Sources,
}

/// The responses of a trigger hit.
pub open spec fn answers(hit: Option<(TriggerTrace, Vec<String>)>) -> Seq<Seq<char>> {
    match hit {
        Some(h) => text::texts(h.1@),
        None => Seq::empty(),
    }
}

/// What a trigger hit with these responses and the routing make of a turn. The sizes are what
/// the host's gates ask for.
pub open spec fn is_first(
    a: Memory,
    b: Memory,
    params: Params,
    tk: Tokenizer,
    responses: Seq<Seq<char>>,
    scores: Seq<Vec<u64>>,
    retrieve_size: int,
    cand_size: int,
    r: First,
) -> bool {
    &&& b.wf()
    &&& b == (Memory { intern: b.intern, ..a })
    &&& (b.intern@, r.pool@) == propose::triggered(
        tk,
        a.intern@,
        Seq::empty(),
        responses,
        scores,
        responses.len() as int,
    )
    &&& r.plan == route::planned(
        params,
        a.store.stream().len() as int,
        a.bots@.len() as int,
        retrieve_size,
        cand_size,
    )
    &&& r.sources == propose::opened(
        params,
        r.plan,
        r.pool@.len() > 0,
        a.pairs@.len() as int,
        a.store.stream().len() == 0,
    )
}

/// Routes a turn and lets a trigger hit propose. `scores` are the entropy scores of its
/// responses, `retrieve_size` and `cand_size` what the host's gates ask for.
pub fn propose_first(
    m: &mut Memory,
    params: &Params,
    tk: &Tokenizer,
    hit: Option<(TriggerTrace, Vec<String>)>,
    scores: &Vec<Vec<u64>>,
    retrieve_size: usize,
    cand_size: usize,
) -> (r: First)
    requires
        old(m).wf(),
        tk.wf(),
        scores.len() == answers(hit).len(),
        old(m).intern@.strings.len() + 2 * propose::chars_in(
            answers(hit),
            answers(hit).len() as int,
        ) < u32::MAX - 1,
    ensures
        is_first(
            *old(m),
            *final(m),
            *params,
            *tk,
            answers(hit),
            scores@,
            retrieve_size as int,
            cand_size as int,
            r,
        ),
        r.trigger == (match hit {
            Some(h) => Some(h.0),
            None => None,
        }),
{
    let plan = route::plan(params, m.store.len(), m.bots.len(), retrieve_size, cand_size);
    let mut pool = Pool::new();
    let trigger: Option<TriggerTrace> = match hit {
        Some((tr, responses)) => {
            propose::propose_triggers(&mut m.intern, tk, &mut pool, &responses, scores);
            Some(tr)
        },
        None => None,
    };
    let sources = propose::open_sources(params, &plan, &pool, m);
    First { pool, trigger, plan, sources }
}

// ---- behind the free sources ----
/// Pool and stream position where the sources are done: the echo where it runs, no repeats,
/// and something in any case.
pub open spec fn last_pool(
    params: Params,
    m: Memory,
    echo: bool,
    input: Seq<char>,
    chunks: Seq<u32>,
    pool: Seq<mix::Proposed>,
    s: Stream,
) -> (Seq<mix::Proposed>, u128) {
    let n_echo = params.n_echo as int;
    let e = if echo {
        propose::echoed(m.intern@, pool, input, chunks, n_echo, s)
    } else {
        (pool, s.pos)
    };
    let kept = if propose::bans_repeats(params) {
        propose::surviving(text::texts(m.recent_bot@), e.0)
    } else {
        e.0
    };
    propose::resorted(m.intern@, kept, input, chunks, n_echo, rng::moved(s, e.1))
}

/// Ends the proposals: echo, the ban on repeats, and the last resort.
pub fn propose_last(
    m: &Memory,
    params: &Params,
    rng: &mut Stream,
    echo: bool,
    input: &String,
    chunks: &Vec<TokenId>,
    pool: Pool,
) -> (r: Pool)
    requires
        old(rng).wf(),
    ensures
        final(rng).wf(),
        final(rng).seed == old(rng).seed,
        (r@, final(rng).pos) == last_pool(*params, *m, echo, input@, chunks@, pool@, *old(rng)),
{
    let ghost s = *rng;
    let mut all = pool;
    if echo {
        propose::propose_echo(&m.intern, params, &mut all, input, chunks, rng);
    }
    let ghost mid = *rng;
    let mut left = propose::drop_repeats(params, &m.recent_bot, all);
    proof {
        assert(mid == rng::moved(s, mid.pos));
    }
    propose::last_resort(&m.intern, params, &mut left, input, chunks, rng);
    left
}

/// A reply never repeats one of the newest three outright, unless a trigger or the last resort
/// says it: a pool that still holds something after the ban holds nothing that was just said.
pub proof fn law_last_pool_repeats_nothing(
    params: Params,
    m: Memory,
    echo: bool,
    input: Seq<char>,
    chunks: Seq<u32>,
    pool: Seq<mix::Proposed>,
    s: Stream,
    i: int,
)
    requires
        propose::bans_repeats(params),
        0 <= i < last_pool(params, m, echo, input, chunks, pool, s).0.len(),
        propose::surviving(
            text::texts(m.recent_bot@),
            (if echo {
                propose::echoed(m.intern@, pool, input, chunks, params.n_echo as int, s).0
            } else {
                pool
            }),
        ).len() > 0,
    ensures
        propose::survives(
            text::texts(m.recent_bot@),
            last_pool(params, m, echo, input, chunks, pool, s).0[i],
        ),
{
    let e = if echo {
        propose::echoed(m.intern@, pool, input, chunks, params.n_echo as int, s).0
    } else {
        pool
    };
    propose::law_no_exact_repeat(text::texts(m.recent_bot@), e);
}

// ---- the reply ----
/// What the host computed for the choice of a reply.
pub struct Weights {
    /// Bit patterns of the topic cosines of the pool.
    pub topic_scores: Vec<u32>,
    /// Bit patterns of the ranking scores of the pool.
    pub scores: Vec<u32>,
    /// Stands for the ranks from the second on.
    pub slip_table: AliasTable,
    /// Bit pattern of the weather-scaled slip rate.
    pub p_slip: u64,
    /// Bit pattern of the weather-scaled rate of interjections.
    pub p_interject: u64,
    /// Bit pattern of the topic cosine of the ellipsis, for a pool without a proposal.
    pub silent_score: u32,
}

/// What a trace tells of a turn beside the choice.
pub struct Notes {
    pub trigger: Option<TriggerTrace>,
    pub steps: Vec<GenStep>,
    pub route: Option<String>,
    /// Bit patterns of the path priors.
    pub path_prior: [u32; 5],
    pub weather: Option<String>,
    pub elapsed_us: u64,
}

/// A reply with its trace and its records, which are yet to be written.
pub struct Answer {
    pub tokens: Vec<TokenId>,
    pub trace: Trace,
    pub rec_user: Record,
    pub rec_bot: Record,
}

/// The proposal that is said; an ellipsis where there is none.
pub open spec fn said(pool: Seq<mix::Proposed>, i: int) -> mix::Proposed {
    if pool.len() > 0 {
        pool[i]
    } else {
        mix::Proposed {
            source: PathKind::Markov,
            text: "…"@,
            tokens: Seq::empty(),
            surprise: None,
        }
    }
}

impl Weights {
    pub open spec fn fits(&self, n: int) -> bool {
        &&& self.scores.len() == n
        &&& self.topic_scores.len() == n
        &&& self.slip_table.wf()
        &&& n >= 2 ==> self.slip_table.prob.len() == n - 1 || self.slip_table.prob.len() == 1
    }

    /// Whether the turn slips.
    pub open spec fn slips(&self, s: Stream) -> bool {
        select::slips(rng::roll_of(s), self.p_slip, self.scores.len() as int)
    }

    /// The rank that is picked.
    pub open spec fn rank(&self, s: Stream) -> int {
        select::picked(self.slip_table, s, self.slips(s)).0
    }

    /// Where picking leaves the stream.
    pub open spec fn end(&self, s: Stream) -> Stream {
        rng::moved(s, select::picked(self.slip_table, s, self.slips(s)).1)
    }

    /// The index that is picked.
    pub open spec fn index(&self, s: Stream) -> int {
        if self.scores.len() > 0 {
            select::ranking(self.scores@)[self.rank(s)] as int
        } else {
            0
        }
    }

    /// The similarity of what is said.
    pub open spec fn similarity(&self, s: Stream) -> u32 {
        if self.scores.len() > 0 {
            self.topic_scores[self.index(s)]
        } else {
            self.silent_score
        }
    }

    /// What a trace says of the candidate at a rank.
    pub open spec fn lists(
        &self,
        pool: Seq<mix::Proposed>,
        s: Stream,
        c: CandidateTrace,
        rank: int,
    ) -> bool {
        let i = select::ranking(self.scores@)[rank] as int;
        &&& c.rank == rank
        &&& c.source == pool[i].source
        &&& c.text@ == pool[i].text
        &&& c.tokens@ == pool[i].tokens
        &&& c.topic_score == self.topic_scores[i]
        &&& c.score == self.scores[i]
        &&& c.chosen == (i == self.index(s))
        &&& c.surprise == pool[i].surprise
    }
}

/// The turn is absorbed: the first draw behind the choice is below the rate.
pub open spec fn absorbs(params: Params, s: Stream) -> bool {
    bits::roll_below(rng::roll_of(s), bits::clamped(params.p_learn))
}

/// What a trace tells of a turn.
pub open spec fn is_trace(
    tr: Trace,
    m: Memory,
    params: Params,
    seed: u64,
    begun: Begun,
    pool: Seq<mix::Proposed>,
    w: Weights,
    notes: Notes,
    s: Stream,
) -> bool {
    let p = said(pool, w.index(s));
    &&& tr.seed == seed
    &&& tr.path == p.source
    &&& tr.input@ == begun.input@
    &&& text::texts(tr.morphemes@) == propose::words_of(m.intern@, begun.tok.morphemes@)
    &&& text::texts(tr.chunks@) == propose::words_of(m.intern@, begun.tok.chunks@)
    &&& tr.topic_hits == m.topic.window.len()
    &&& tr.trigger == notes.trigger
    &&& tr.candidates.len() == pool.len()
    &&& forall|k: int|
        0 <= k < tr.candidates.len() ==> w.lists(pool, s, #[trigger] tr.candidates[k], k)
    &&& tr.chosen_rank == (if pool.len() > 0 {
        w.rank(s)
    } else {
        0
    })
    &&& tr.slipped == w.slips(s)
    &&& tr.slip_roll == rng::roll_of(s)
    &&& tr.p_slip == w.p_slip
    &&& tr.learned == (absorbs(params, w.end(s)) && !(begun.tok.chunks.len() == 0
        && p.tokens.len() == 0))
    &&& tr.learn_roll == rng::roll_of(w.end(s))
    &&& tr.p_learn == params.p_learn
    &&& tr.steps == notes.steps
    &&& tr.elapsed_us == notes.elapsed_us
    &&& turn::is_longest_corpus_run(
        m.store.text@,
        m.store.buf@,
        p.tokens,
        tr.novelty_lcs as int,
    )
    &&& tr.novelty_lcs <= p.tokens.len()
    &&& tr.similarity == w.similarity(s)
    &&& tr.band_hit == select::within_band(tr.similarity, params.band_lo, params.band_hi)
    &&& tr.route == notes.route
    &&& tr.path_prior == notes.path_prior
    &&& tr.weather == notes.weather
}

/// The record of an input: absorbed where the turn is and there was something to absorb.
pub open spec fn is_user_record(rec: Record, params: Params, begun: Begun, s: Stream, t: u64) -> bool {
    &&& rec.text@ == begun.input@
    &&& rec == (Record {
        v: 1,
        t,
        role: Role::User,
        text: rec.text,
        slipped: None,
        score: None,
        learned: absorbs(params, s) && begun.tok.chunks.len() > 0,
        path: None,
        novelty_lcs: None,
        n_tok: None,
        rng_word_pos: None,
    })
}

/// The record of a reply: absorbed where the turn is and there was something to absorb. It
/// keeps where the turn left the stream.
pub open spec fn is_bot_record(
    rec: Record,
    params: Params,
    p: mix::Proposed,
    tr: Trace,
    s: Stream,
    end: u128,
    t: u64,
) -> bool {
    &&& rec.text@ == p.text
    &&& rec == (Record {
        v: 1,
        t,
        role: Role::Bot,
        text: rec.text,
        slipped: Some(tr.slipped),
        score: Some(tr.similarity),
        learned: absorbs(params, s) && p.tokens.len() > 0,
        path: Some(p.source),
        novelty_lcs: Some(tr.novelty_lcs),
        n_tok: Some(p.tokens.len() as usize),
        rng_word_pos: Some(log::split_pos(end)),
    })
}

/// What is answered from a pool and a stream, and where that leaves the stream.
pub open spec fn is_answer(
    a: Answer,
    m: Memory,
    params: Params,
    seed: u64,
    begun: Begun,
    pool: Seq<mix::Proposed>,
    w: Weights,
    notes: Notes,
    t: u64,
    s: Stream,
    end: u128,
) -> bool {
    let p = said(pool, w.index(s));
    let mid = w.end(s);
    &&& a.tokens@ == p.tokens
    &&& is_trace(a.trace, m, params, seed, begun, pool, w, notes, s)
    &&& turn::interjected(
        params,
        m,
        p.text,
        w.p_interject,
        rng::moved(mid, rng::after(mid.pos, 1)),
        shown(a.trace.interject),
        end,
    )
    &&& is_user_record(a.rec_user, params, begun, mid, t)
    &&& is_bot_record(a.rec_bot, params, p, a.trace, mid, end, t)
}

/// The text of an interjection.
pub open spec fn shown(i: Option<String>) -> Option<Seq<char>> {
    match i {
        Some(x) => Some(x@),
        None => None,
    }
}

/// Picks a reply from the pool, draws what comes of it, and writes up the turn.
pub fn answer(
    m: &Memory,
    params: &Params,
    rng: &mut Stream,
    seed: u64,
    begun: &Begun,
    pool: &Pool,
    w: &Weights,
    notes: Notes,
    t: u64,
) -> (r: Answer)
    requires
        m.wf(),
        m.interjects.total <= usize::MAX,
        old(rng).wf(),
        w.fits(pool@.len() as int),
    ensures
        final(rng).wf(),
        final(rng).seed == old(rng).seed,
        is_answer(
            r,
            *m,
            *params,
            seed,
            *begun,
            pool@,
            *w,
            notes,
            t,
            *old(rng),
            final(rng).pos,
        ),
{
    let ghost s = *rng;
    let texts = pool.texts();
    let tokens = pool.tokens();
    let sources = pool.sources();
    let surprises = pool.surprises();
    let ghost ps = pool@;
    proof {
        assert(texts.len() == text::texts(texts@).len());
        assert(forall|i: int|
            0 <= i < texts.len() ==> (#[trigger] texts[i])@ == text::texts(texts@)[i]);
    }
    let input = RankInput {
        texts: &texts,
        tokens: &tokens,
        sources: &sources,
        surprises: &surprises,
        topic_scores: &w.topic_scores,
        scores: &w.scores,
    };
    let ranked = select::rank_and_pick(&input, w.p_slip, &w.slip_table, rng);
    let ghost mid = *rng;
    let at: usize = ranked.index;
    let order = select::rank(&w.scores);
    proof {
        assert(mid == w.end(s));
        assert(at == w.index(s));
        law_slips_leave_the_top(*w, s);
        if ps.len() > 0 {
            assert(0 <= w.rank(s) < order.len());
            assert(at == order[w.rank(s)]);
        }
        assert forall|k: int| 0 <= k < ranked.traces.len() implies w.lists(
            ps,
            s,
            #[trigger] ranked.traces[k],
            k,
        ) by {
            assert(select::traced(input, ranked.traces[k], k, order[k] as int, at as int));
            assert(0 <= order[k] < ps.len());
        }
    }
    let mut chosen_rank: usize = 0;
    let mut k: usize = 0;
    while k < order.len()
        invariant
            k <= order.len(),
            k == 0 ==> chosen_rank == 0,
            select::is_ranking(w.scores@, order@),
            forall|j: int| 0 <= j < k && #[trigger] order[j] == at ==> chosen_rank == j,
        decreases order.len() - k,
    {
        if order[k] == at {
            proof {
                assert forall|j: int| 0 <= j < k implies #[trigger] order[j] != at by {
                    assert(sort::goes_before(
                        select::falling(w.scores@),
                        order[j] as int,
                        order[k as int] as int,
                    ));
                }
            }
            chosen_rank = k;
        }
        k += 1;
    }
    proof {
        if ps.len() > 0 {
            assert(order[w.rank(s)] == at);
            assert(chosen_rank == w.rank(s));
        }
    }
    let silent: bool = pool.is_empty();
    let reply: String = if silent {
        "…".to_owned()
    } else {
        texts[at].clone()
    };
    let chosen: Vec<TokenId> = if silent {
        Vec::new()
    } else {
        mix::copy_tokens(&tokens[at])
    };
    let path: PathKind = if silent {
        PathKind::Markov
    } else {
        sources[at]
    };
    let similarity: u32 = if silent {
        w.silent_score
    } else {
        w.topic_scores[at]
    };
    let ghost p = said(ps, w.index(s));
    proof {
        assert(chosen@ =~= p.tokens);
        assert(reply@ == p.text);
        assert(path == p.source);
    }
    let band_hit: bool = select::in_band(similarity, params.band_lo, params.band_hi);
    let novelty_lcs: usize = turn::longest_corpus_run(&m.store, &chosen);
    let v = turn::decide(m, params, rng, &begun.tok.chunks, &reply, &chosen, w.p_interject);
    let n_tok: usize = chosen.len();
    let rec_user = Record::user(begun.input.clone(), v.learned_user, t);
    let mut rec_bot = Record::bot(
        reply,
        v.learned_bot,
        similarity,
        ranked.slipped,
        path,
        novelty_lcs,
        n_tok,
        t,
    );
    rec_bot.set_rng_word_pos(rng.pos);
    let trace = Trace {
        seed,
        path,
        input: begun.input.clone(),
        morphemes: propose::words(&m.intern, &begun.tok.morphemes),
        chunks: propose::words(&m.intern, &begun.tok.chunks),
        topic_hits: m.topic.len(),
        trigger: notes.trigger,
        candidates: ranked.traces,
        chosen_rank,
        slipped: ranked.slipped,
        slip_roll: ranked.slip_roll,
        p_slip: w.p_slip,
        learned: v.learned && !(begun.tok.chunks.len() == 0 && n_tok == 0),
        learn_roll: v.learn_roll,
        p_learn: params.p_learn,
        steps: notes.steps,
        elapsed_us: notes.elapsed_us,
        novelty_lcs,
        similarity,
        band_hit,
        route: notes.route,
        path_prior: notes.path_prior,
        weather: notes.weather,
        interject: v.interject,
    };
    Answer { tokens: chosen, trace, rec_user, rec_bot }
}

/// A record claims absorption only where there was something to absorb.
pub proof fn law_nothing_empty_is_absorbed(
    user: Record,
    bot: Record,
    params: Params,
    begun: Begun,
    p: mix::Proposed,
    tr: Trace,
    s: Stream,
    end: u128,
    t: u64,
)
    requires
        is_user_record(user, params, begun, s, t),
        is_bot_record(bot, params, p, tr, s, end, t),
    ensures
        user.learned ==> begun.tok.chunks.len() > 0,
        bot.learned ==> p.tokens.len() > 0,
{
}

/// A slip never says what ranks first, and without one the first rank is said.
pub proof fn law_slips_leave_the_top(w: Weights, s: Stream)
    requires
        w.fits(w.scores.len() as int),
    ensures
        w.slips(s) ==> 1 <= w.rank(s) < w.scores.len(),
        !w.slips(s) ==> w.rank(s) == 0,
{
    if w.slips(s) {
        alias::law_samples_stay_inside(w.slip_table, rng::moved(s, rng::after(s.pos, 1)));
    }
}

/// One turn has one answer: what is said, drawn and written, and where the stream is left, is
/// fixed by memory, parameters, pool, weights and the stream's place.
pub proof fn law_same_turn_same_answer(
    a: Answer,
    b: Answer,
    m: Memory,
    params: Params,
    seed: u64,
    begun: Begun,
    pool: Seq<mix::Proposed>,
    w: Weights,
    notes: Notes,
    t: u64,
    s: Stream,
    end_a: u128,
    end_b: u128,
)
    requires
        m.interjects.wf(),
        is_answer(a, m, params, seed, begun, pool, w, notes, t, s, end_a),
        is_answer(b, m, params, seed, begun, pool, w, notes, t, s, end_b),
    ensures
        end_a == end_b,
        a.tokens@ == b.tokens@,
        a.rec_bot.text@ == b.rec_bot.text@,
        a.rec_bot == (Record { text: a.rec_bot.text, ..b.rec_bot }),
        a.rec_user.text@ == b.rec_user.text@,
        a.rec_user == (Record { text: a.rec_user.text, ..b.rec_user }),
        shown(a.trace.interject) == shown(b.trace.interject),
        a.trace.path == b.trace.path,
        a.trace.chosen_rank == b.trace.chosen_rank,
        a.trace.learned == b.trace.learned,
        a.trace.novelty_lcs == b.trace.novelty_lcs,
{
    let p = said(pool, w.index(s));
    let (body, buf) = (m.store.text@, m.store.buf@);
    let i = choose|i: int| #[trigger]
        turn::is_corpus_run(body, buf, p.tokens, i, a.trace.novelty_lcs as int);
    let j = choose|j: int| #[trigger]
        turn::is_corpus_run(body, buf, p.tokens, j, b.trace.novelty_lcs as int);
    assert(turn::is_corpus_run(body, buf, p.tokens, i, a.trace.novelty_lcs as int));
    assert(turn::is_corpus_run(body, buf, p.tokens, j, b.trace.novelty_lcs as int));
    let mid = w.end(s);
    let s1 = rng::moved(mid, rng::after(mid.pos, 1));
    if turn::interjects(params, m, p.text, w.p_interject, rng::roll_of(s1)) {
        let next = rng::moved(s1, rng::after(s1.pos, 1));
        let d = rng::drawn(next, m.interjects.total as int).0;
        turn::lemma_one_interjection(
            m,
            d,
            p.text,
            shown(a.trace.interject),
            shown(b.trace.interject),
        );
    }
}

/// Unless the turn slips, the reply is a candidate than which none has a higher score, and of
/// equal ones the first; what a slip says has at least one candidate ahead of it.
pub proof fn law_the_best_is_said(w: Weights, s: Stream, c: int)
    requires
        w.fits(w.scores.len() as int),
        0 <= c < w.scores.len(),
    ensures
        0 <= w.index(s) < w.scores.len(),
        !w.slips(s) ==> bits::key32(w.scores[c]) <= bits::key32(w.scores[w.index(s)]),
        !w.slips(s) && bits::key32(w.scores[c]) == bits::key32(w.scores[w.index(s)]) ==> w.index(s)
            <= c,
        w.slips(s) ==> exists|b: int|
            #![trigger w.scores[b]]
            0 <= b < w.scores.len() && b != w.index(s) && bits::key32(w.scores[b]) >= bits::key32(
                w.scores[w.index(s)],
            ),
{
    let order = select::ranking(w.scores@);
    select::lemma_there_is_a_ranking(w.scores@);
    law_slips_leave_the_top(w, s);
    select::law_nothing_beats_the_first(w.scores@, order, c);
    if w.slips(s) {
        select::law_the_best_rank_first(w.scores@, order, 0, w.rank(s));
        let b = order[0] as int;
        assert(bits::key32(w.scores[b]) >= bits::key32(w.scores[w.index(s)]));
    }
}

/// What is written is what was said: the reply's record holds the text, the source and the
/// number of tokens of the candidate that was picked, the user's record what the user said, and
/// the two are absorbed together wherever both have something to absorb.
pub proof fn law_records_tell_what_was_said(
    a: Answer,
    m: Memory,
    params: Params,
    seed: u64,
    begun: Begun,
    pool: Seq<mix::Proposed>,
    w: Weights,
    notes: Notes,
    t: u64,
    s: Stream,
    end: u128,
)
    requires
        is_answer(a, m, params, seed, begun, pool, w, notes, t, s, end),
        pool.len() > 0,
        w.fits(pool.len() as int),
    ensures
        ({
            let p = pool[w.index(s)];
            &&& a.rec_bot.role is Bot && a.rec_user.role is User
            &&& a.rec_bot.text@ == p.text && a.rec_bot.path == Some(p.source)
            &&& a.rec_bot.n_tok == Some(p.tokens.len() as usize)
            &&& a.tokens@ == p.tokens && a.trace.path == p.source
            &&& a.rec_user.text@ == begun.input@
            &&& a.rec_bot.t == t && a.rec_user.t == t
            &&& a.rec_bot.slipped == Some(a.trace.slipped)
            &&& a.rec_bot.score == Some(w.topic_scores[w.index(s)])
            &&& a.rec_bot.novelty_lcs == Some(a.trace.novelty_lcs)
            &&& p.tokens.len() > 0 && begun.tok.chunks.len() > 0 ==> a.rec_bot.learned
                == a.rec_user.learned && a.trace.learned == a.rec_user.learned
            &&& a.trace.slipped ==> a.trace.chosen_rank > 0
            &&& !a.trace.slipped ==> a.trace.chosen_rank == 0
            &&& a.trace.candidates.len() == pool.len()
        }),
{
    law_slips_leave_the_top(w, s);
}

/// A turn is absorbed always at a rate of one and never at a rate of zero.
pub proof fn law_absorption_follows_the_rate(params: Params, s: Stream)
    ensures
        params.p_learn == 0 ==> !absorbs(params, s),
        params.p_learn == bits::ONE_64 ==> absorbs(params, s),
        bits::nan64(params.p_learn) ==> !absorbs(params, s),
{
    rng::lemma_rolls(s);
    bits::law_rolls_follow_chances(rng::roll_of(s), rng::roll_of(s), 0, 0);
    bits::law_chances_are_held(params.p_learn, params.p_learn);
}

/// A trace agrees with itself: exactly one candidate is chosen, it stands at the chosen rank,
/// and source and similarity are its own. The band is hit where the similarity lies in it.
pub proof fn law_one_candidate_is_chosen(
    tr: Trace,
    m: Memory,
    params: Params,
    seed: u64,
    begun: Begun,
    pool: Seq<mix::Proposed>,
    w: Weights,
    notes: Notes,
    s: Stream,
    k: int,
)
    requires
        is_trace(tr, m, params, seed, begun, pool, w, notes, s),
        w.fits(pool.len() as int),
        0 <= k < pool.len(),
    ensures
        0 <= tr.chosen_rank < tr.candidates.len(),
        tr.candidates[k].chosen <==> k == tr.chosen_rank,
        tr.candidates[k].rank == k,
        tr.candidates[tr.chosen_rank as int].source == tr.path,
        tr.candidates[tr.chosen_rank as int].topic_score == tr.similarity,
        k > 0 ==> bits::key32(tr.candidates[k].score) <= bits::key32(tr.candidates[k - 1].score),
        !bits::nan32(tr.similarity) && !bits::nan32(params.band_lo) && !bits::nan32(params.band_hi)
            ==> (tr.band_hit <==> bits::key32(params.band_lo) <= bits::key32(tr.similarity)
            <= bits::key32(params.band_hi)),
        tr.learned ==> absorbs(params, w.end(s)),
        tr.input@ == begun.input@,
        tr.seed == seed,
        tr.trigger == notes.trigger,
        tr.steps == notes.steps,
{
    let order = select::ranking(w.scores@);
    select::lemma_there_is_a_ranking(w.scores@);
    law_slips_leave_the_top(w, s);
    let r = w.rank(s);
    assert(0 <= r < order.len());
    assert(w.lists(pool, s, tr.candidates[k], k));
    assert(w.lists(pool, s, tr.candidates[r], r));
    if k < r {
        select::law_the_best_rank_first(w.scores@, order, k, r);
    } else if r < k {
        select::law_the_best_rank_first(w.scores@, order, r, k);
    }
    if k > 0 {
        assert(w.lists(pool, s, tr.candidates[k - 1], k - 1));
        select::law_the_best_rank_first(w.scores@, order, k - 1, k);
    }
    assert(0 <= order[r] < w.scores.len());
}

/// A trigger that answers is heard first, and in exclusive mode alone.
pub proof fn law_triggers_are_heard_first(
    a: Memory,
    b: Memory,
    params: Params,
    tk: Tokenizer,
    responses: Seq<Seq<char>>,
    scores: Seq<Vec<u64>>,
    retrieve_size: int,
    cand_size: int,
    r: First,
    j: int,
)
    requires
        is_first(a, b, params, tk, responses, scores, retrieve_size, cand_size, r),
        0 <= j < responses.len(),
        text::trimmed(responses[j]).len() > 0,
    ensures
        mix::has_text(r.pool@, responses[j]),
        forall|i: int| 0 <= i < r.pool@.len() ==> (#[trigger] r.pool@[i]).source == PathKind::Trigger,
        params.mix == crate::params::MixMode::Exclusive ==> !r.sources.retrieve && !r.sources.adapt
            && r.sources.n_cand == 0 && !r.sources.echo,
        b.store == a.store,
        b.interest == a.interest,
        b.bots == a.bots,
{
    propose::law_a_trigger_says_its_responses(
        tk,
        a.intern@,
        Seq::empty(),
        responses,
        scores,
        responses.len() as int,
    );
    let i = choose|i: int|
        0 <= i < r.pool@.len() && (#[trigger] r.pool@[i]).text == responses[j];
    assert(r.pool@.len() > 0);
}

/// In the end there is something to say. Where nothing is echoed or banned, it is what the
/// sources proposed; what is banned are the newest three replies, unless a trigger says them.
pub proof fn law_the_last_pool_says_something(
    params: Params,
    m: Memory,
    echo: bool,
    input: Seq<char>,
    chunks: Seq<u32>,
    pool: Seq<mix::Proposed>,
    s: Stream,
)
    ensures
        ({
            let r = last_pool(params, m, echo, input, chunks, pool, s);
            &&& r.0.len() > 0
            &&& !echo && !propose::bans_repeats(params) && pool.len() > 0 ==> r == (pool, s.pos)
            &&& !echo && propose::bans_repeats(params) && propose::surviving(
                text::texts(m.recent_bot@),
                pool,
            ).len() > 0 ==> r == (propose::surviving(text::texts(m.recent_bot@), pool), s.pos)
            &&& echo && !propose::bans_repeats(params) && text::trimmed(input).len() > 0
                ==> mix::has_text(r.0, input)
            &&& propose::bans_repeats(params) <==> params.self_window >= 1 && !bits::nan32(
                params.self_penalty,
            ) && bits::key32(params.self_penalty) > 0
        }),
{
    let n_echo = params.n_echo as int;
    let e = if echo {
        propose::echoed(m.intern@, pool, input, chunks, n_echo, s)
    } else {
        (pool, s.pos)
    };
    let kept = if propose::bans_repeats(params) {
        propose::surviving(text::texts(m.recent_bot@), e.0)
    } else {
        e.0
    };
    propose::law_pool_is_never_empty(m.intern@, kept, input, chunks, n_echo, rng::moved(s, e.1));
    propose::law_the_input_is_echoed(m.intern@, pool, input, chunks, n_echo, s);
    if echo && !propose::bans_repeats(params) && text::trimmed(input).len() > 0 {
        assert(e.0.len() > 0);
    }
}

/// A turn is absorbed where the draw behind the choice is below the rate, the user's line if it
/// has chunks and the reply if it has tokens. The reply's record keeps where the turn left the
/// stream.
pub proof fn law_lines_are_absorbed_as_drawn(
    a: Answer,
    m: Memory,
    params: Params,
    seed: u64,
    begun: Begun,
    pool: Seq<mix::Proposed>,
    w: Weights,
    notes: Notes,
    t: u64,
    s: Stream,
    end: u128,
)
    requires
        is_answer(a, m, params, seed, begun, pool, w, notes, t, s, end),
    ensures
        ({
            let drawn = bits::roll_below(rng::roll_of(w.end(s)), bits::clamped(params.p_learn));
            &&& a.rec_user.learned <==> drawn && begun.tok.chunks.len() > 0
            &&& a.rec_bot.learned <==> drawn && a.tokens.len() > 0
            &&& a.trace.learned <==> a.rec_user.learned || a.rec_bot.learned
            &&& a.rec_bot.rng_word_pos == Some(log::split_pos(end))
            &&& a.rec_user.rng_word_pos is None
            &&& a.trace.learn_roll == rng::roll_of(w.end(s))
            &&& a.trace.slip_roll == rng::roll_of(s)
        }),
{
}

} // verus!
