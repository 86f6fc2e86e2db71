//! The candidate sources of a turn: trigger, retrieve, adapt, Markov, echo, with echo as the
//! named last resort. The order in which they propose, and so draw, is part of the
//! reproducibility contract.
use crate::bits;
use crate::explain::GenStep;
use crate::explain::PathKind;
use crate::fx;
use crate::generate;
use crate::ids::TokenId;
use crate::interest;
use crate::intern;
use crate::intern::Interner;
use crate::memory::Memory;
use crate::mix;
use crate::mix::Pool;
use crate::params::MixMode;
use crate::params::Params;
use crate::rng;
use crate::rng::Stream;
use crate::route::RoutePlan;
use crate::text;
use crate::tokenizer;
use crate::tokenizer::Tokenizer;
use rustc_hash::FxHashMap;
use vstd::prelude::*;

verus! {

/// Which sources run behind the triggers, and how many Markov candidates are asked for.
#[derive(Debug, Clone, Copy, PartialEq, Eq, Structural)]
pub struct Sources {
    pub retrieve: bool,
    pub adapt: bool,
    pub n_cand: usize,
    pub echo: bool,
}

/// In exclusive mode a trigger hit silences the rest, and adapt never runs. In pool mode
/// Markov needs a corpus.
pub open spec fn opened(
    params: Params,
    plan: RoutePlan,
    triggered: bool,
    pairs: int,
    corpus_empty: bool,
) -> Sources {
    let exclusive = params.mix == MixMode::Exclusive;
    if exclusive && triggered {
        Sources { retrieve: false, adapt: false, n_cand: 0, echo: false }
    } else {
        Sources {
            retrieve: plan.run_retrieve,
            adapt: !exclusive && params.n_adapt > 0 && pairs > 0,
            n_cand: if !plan.run_markov || (!exclusive && corpus_empty) {
                0
            } else if exclusive && plan.n_cand < 1 {
                1
            } else {
                plan.n_cand
            },
            echo: plan.run_echo,
        }
    }
}

pub fn open_sources(params: &Params, plan: &RoutePlan, pool: &Pool, m: &Memory) -> (r: Sources)
    ensures
        r == opened(
            *params,
            *plan,
            pool@.len() > 0,
            m.pairs@.len() as int,
            m.store.stream().len() == 0,
        ),
{
    let exclusive: bool = params.mix == MixMode::Exclusive;
    if exclusive && !pool.is_empty() {
        return Sources { retrieve: false, adapt: false, n_cand: 0, echo: false };
    }
    let n_cand: usize = if !plan.run_markov || (!exclusive && m.store.is_empty()) {
        0
    } else if exclusive && plan.n_cand < 1 {
        1
    } else {
        plan.n_cand
    };
    Sources {
        retrieve: plan.run_retrieve,
        adapt: !exclusive && params.n_adapt > 0 && m.pairs.len() > 0,
        n_cand,
        echo: plan.run_echo,
    }
}

/// Exclusive mode has no adapt candidates.
pub proof fn law_exclusive_has_no_adapt(
    params: Params,
    plan: RoutePlan,
    triggered: bool,
    pairs: int,
    corpus_empty: bool,
)
    requires
        params.mix == MixMode::Exclusive,
    ensures
        !opened(params, plan, triggered, pairs, corpus_empty).adapt,
{
}

// ---- trigger ----
/// Vocabulary and pool after the first `k` responses of a trigger.
pub open spec fn triggered(
    tk: Tokenizer,
    v: intern::Vocab,
    pool: Seq<mix::Proposed>,
    responses: Seq<Seq<char>>,
    scores: Seq<Vec<u64>>,
    k: int,
) -> (intern::Vocab, Seq<mix::Proposed>)
    decreases k,
{
    if k <= 0 {
        (v, pool)
    } else {
        let before = triggered(tk, v, pool, responses, scores, k - 1);
        let t = responses[k - 1];
        let ms = tk.morphs(t, scores[k - 1]@);
        let cs = tk.chunks(t, scores[k - 1]@);
        let w = intern::with_all(before.0, ms + cs);
        (
            w,
            mix::proposed(
                before.1,
                mix::Proposed {
                    source: PathKind::Trigger,
                    text: t,
                    tokens: tokenizer::ids_of(w, cs),
                    surprise: None,
                },
            ),
        )
    }
}

/// Characters of the first `k` texts.
pub open spec fn chars_in(ts: Seq<Seq<char>>, k: int) -> int
    decreases k,
{
    if k <= 0 {
        0
    } else {
        chars_in(ts, k - 1) + ts[k - 1].len()
    }
}

proof fn lemma_chars_in_mono(ts: Seq<Seq<char>>, k: int, n: int)
    requires
        0 <= k <= n,
    ensures
        0 <= chars_in(ts, k) <= chars_in(ts, n),
    decreases n,
{
    if k < n {
        lemma_chars_in_mono(ts, k, n - 1);
    } else if n > 0 {
        lemma_chars_in_mono(ts, n - 1, n - 1);
    }
}

/// Cuts the responses of a trigger hit and puts them into the pool.
pub fn propose_triggers(
    intern: &mut Interner,
    tk: &Tokenizer,
    pool: &mut Pool,
    responses: &Vec<String>,
    scores: &Vec<Vec<u64>>,
)
    requires
        old(intern).wf(),
        tk.wf(),
        scores.len() == responses.len(),
        old(intern)@.strings.len() + 2 * chars_in(
            text::texts(responses@),
            responses.len() as int,
        ) <= u32::MAX,
    ensures
        final(intern).wf(),
        intern::dense(old(intern)@) ==> intern::dense(final(intern)@),
        final(intern)@.strings.len() <= old(intern)@.strings.len() + 2 * chars_in(
            text::texts(responses@),
            responses.len() as int,
        ),
        (final(intern)@, final(pool)@) == triggered(
            *tk,
            old(intern)@,
            old(pool)@,
            text::texts(responses@),
            scores@,
            responses.len() as int,
        ),
{
    let ghost ts = text::texts(responses@);
    let ghost v = intern@;
    let mut j: usize = 0;
    while j < responses.len()
        invariant
            j <= responses.len(),
            ts == text::texts(responses@),
            v == old(intern)@,
            intern.wf(),
            intern::dense(v) ==> intern::dense(intern@),
            tk.wf(),
            scores.len() == responses.len(),
            v.strings.len() + 2 * chars_in(ts, responses.len() as int) <= u32::MAX,
            intern@.strings.len() <= v.strings.len() + 2 * chars_in(ts, j as int),
            (intern@, pool@) == triggered(*tk, v, old(pool)@, ts, scores@, j as int),
        decreases responses.len() - j,
    {
        proof {
            lemma_chars_in_mono(ts, j + 1, responses.len() as int);
            assert(ts[j as int] == responses[j as int]@);
        }
        let tok = tk.tokenize(intern, responses[j].as_str(), &scores[j]);
        pool.push(PathKind::Trigger, responses[j].clone(), tok.chunks);
        j += 1;
    }
}

// ---- Markov ----
/// The chunk at `i` may anchor a reply: content of the corpus, and no hearsay unless released.
pub open spec fn may_anchor(m: Memory, params: Params, chunks: Seq<u32>, release: bool, i: int) -> bool {
    let id = chunks[i];
    &&& interest::content(m.intern@, id)
    &&& count_of(m, id) > 0
    &&& release || (m.interest.knows(id) && m.interest.utterances(id) >= params.hearsay_min)
}

/// How often a token was counted.
pub open spec fn count_of(m: Memory, id: u32) -> int {
    if m.store.statistics().0.dom().contains(id) {
        m.store.statistics().0[id] as int
    } else {
        0
    }
}

/// The chunk at `i` anchors: the rarest that may, and of equally rare ones the last.
pub open spec fn anchors(m: Memory, params: Params, chunks: Seq<u32>, release: bool, i: int) -> bool {
    &&& 0 <= i < chunks.len()
    &&& may_anchor(m, params, chunks, release, i)
    &&& forall|j: int|
        0 <= j < chunks.len() && #[trigger] may_anchor(m, params, chunks, release, j) ==> count_of(
            m,
            chunks[i],
        ) < count_of(m, chunks[j]) || (count_of(m, chunks[i]) == count_of(m, chunks[j]) && j <= i)
}

/// Keyword-anchored generation is on and has something to grow from.
pub open spec fn anchoring(m: Memory, params: Params) -> bool {
    params.bidir && m.store.stream().len() > 0 && m.rev_store.stream().len() > 0
}

/// The chunk that a reply grows around, if any.
pub open spec fn is_anchor(
    m: Memory,
    params: Params,
    chunks: Seq<u32>,
    release: bool,
    r: Option<u32>,
) -> bool {
    match r {
        Some(id) => anchoring(m, params) && exists|i: int|
            #[trigger] anchors(m, params, chunks, release, i) && chunks[i] == id,
        None => !anchoring(m, params) || forall|i: int|
            0 <= i < chunks.len() ==> !#[trigger] may_anchor(m, params, chunks, release, i),
    }
}

/// Rarest in-corpus content chunk of the input; ties go to the later
/// position (fresher topic). None when nothing usable is in the corpus.
/// 聞きかじり (heard in fewer than `hearsay_min` utterances) does not
/// anchor (a one-off typo must not anchor a reply) except on
/// 口をつく turns, when it may slip out.
pub fn pick_anchor(m: &Memory, params: &Params, chunks: &Vec<TokenId>, release: bool) -> (r: Option<
    TokenId,
>)
    requires
        m.wf(),
    ensures
        is_anchor(*m, *params, chunks@, release, r),
{
    if !params.bidir || m.store.is_empty() || m.rev_store.is_empty() {
        return None;
    }
    let mut best: Option<usize> = None;
    let mut best_count: u32 = 0;
    let mut i: usize = 0;
    while i < chunks.len()
        invariant
            m.wf(),
            i <= chunks.len(),
            match best {
                Some(b) => {
                    &&& b < i
                    &&& best_count == count_of(*m, chunks[b as int])
                    &&& may_anchor(*m, *params, chunks@, release, b as int)
                    &&& forall|j: int|
                        0 <= j < i && #[trigger] may_anchor(*m, *params, chunks@, release, j)
                            ==> best_count < count_of(*m, chunks[j]) || (best_count == count_of(
                            *m,
                            chunks[j],
                        ) && j <= b)
                },
                None => forall|j: int|
                    0 <= j < i ==> !#[trigger] may_anchor(*m, *params, chunks@, release, j),
            },
        decreases chunks.len() - i,
    {
        let id: TokenId = chunks[i];
        let c: u32 = m.store.count_of(id);
        let usable: bool = interest::is_content(&m.intern, id) && c > 0 && (release
            || !m.interest.is_hearsay(id, params.hearsay_min));
        proof {
            assert(usable == may_anchor(*m, *params, chunks@, release, i as int));
        }
        if usable {
            let better: bool = match best {
                None => true,
                Some(_) => c <= best_count,
            };
            if better {
                best = Some(i);
                best_count = c;
            }
        }
        i += 1;
    }
    match best {
        Some(b) => {
            proof {
                assert(anchors(*m, *params, chunks@, release, b as int));
            }
            Some(chunks[b])
        },
        None => None,
    }
}

/// What the Markov source does next.
#[derive(Debug, Clone, Copy, PartialEq, Eq, Structural)]
pub enum Attempt {
    /// Generate around this chunk.
    Anchored(TokenId),
    /// Generate from left to right.
    Plain,
    /// Enough candidates, or enough attempts.
    Done,
}

/// The Markov source at work.
pub struct Markov {
    pub anchor: Option<TokenId>,
    pub n_cand: usize,
    /// Attempts made.
    pub attempts: usize,
    /// Length of the pool at the start.
    pub start: usize,
    /// What was generated already.
    pub seen: FxHashMap<Vec<u32>, usize>,
    /// Steps of the first candidate.
    pub steps: Vec<GenStep>,
    pub ctx_seed: Vec<TokenId>,
    pub parrot: Vec<TokenId>,
}

/// Attempts per asked-for candidate.
pub const TRIES: usize = 4;

/// What the Markov source does next: half the candidates grow around the anchor where there
/// is one.
pub open spec fn next_attempt(
    anchor: Option<u32>,
    n_cand: int,
    attempts: int,
    made: int,
) -> Attempt {
    if made >= n_cand || attempts >= TRIES * (if n_cand < 1 {
        1
    } else {
        n_cand
    }) {
        Attempt::Done
    } else {
        match anchor {
            Some(a) if made < n_cand / 2 => Attempt::Anchored(a),
            _ => Attempt::Plain,
        }
    }
}

/// The pool and the known runs with what an attempt generated: it must not open with
/// punctuation, must be new, and must say something.
pub open spec fn offered(
    v: intern::Vocab,
    pool: Seq<mix::Proposed>,
    known: Set<Seq<u32>>,
    tokens: Seq<u32>,
    surprise: Option<u32>,
) -> (Seq<mix::Proposed>, Set<Seq<u32>>) {
    let toks = generate::opening(v, tokens);
    if toks.len() == 0 || known.contains(toks) {
        (pool, known)
    } else {
        (
            mix::proposed(
                pool,
                mix::Proposed {
                    source: PathKind::Markov,
                    text: tokenizer::spoken(v, toks),
                    tokens: toks,
                    surprise,
                },
            ),
            known.insert(toks),
        )
    }
}

impl Markov {
    /// Runs that were generated already.
    pub open spec fn known(&self) -> Set<Seq<u32>> {
        fx::runs(self.seen).dom()
    }

    /// Starts the source.
    pub fn begin(
        m: &Memory,
        params: &Params,
        pool: &Pool,
        chunks: &Vec<TokenId>,
        release: bool,
        n_cand: usize,
    ) -> (r: Self)
        requires
            m.wf(),
        ensures
            r.n_cand == n_cand,
            r.attempts == 0,
            r.start == pool@.len(),
            r.known() == Set::<Seq<u32>>::empty(),
            r.steps.len() == 0,
            r.ctx_seed@ == m.history@ + chunks@,
            r.parrot@ == (if params.mix == MixMode::Pool && m.store.stream().len() > 0 {
                Seq::empty()
            } else {
                chunks@
            }),
            is_anchor(*m, *params, chunks@, release, r.anchor),
    {
        let anchor = pick_anchor(m, params, chunks, release);
        let mut ctx_seed = mix::copy_tokens(&m.history);
        let mut i: usize = 0;
        proof {
            assert(ctx_seed@ =~= m.history@ + chunks@.take(0));
        }
        while i < chunks.len()
            invariant
                i <= chunks.len(),
                ctx_seed@ == m.history@ + chunks@.take(i as int),
            decreases chunks.len() - i,
        {
            ctx_seed.push(chunks[i]);
            proof {
                assert(ctx_seed@ =~= m.history@ + chunks@.take(i + 1));
            }
            i += 1;
        }
        proof {
            assert(chunks@.take(i as int) =~= chunks@);
        }
        let pooled: bool = params.mix == MixMode::Pool;
        let parrot: Vec<TokenId> = if pooled && !m.store.is_empty() {
            Vec::new()
        } else {
            mix::copy_tokens(chunks)
        };
        let r = Markov {
            anchor,
            n_cand,
            attempts: 0,
            start: pool.items.len(),
            seen: fx::new_runs(),
            steps: Vec::new(),
            ctx_seed,
            parrot,
        };
        proof {
            assert(r.known() =~= Set::<Seq<u32>>::empty());
            if pooled && m.store.stream().len() > 0 {
                assert(r.parrot@ =~= Seq::<u32>::empty());
            }
        }
        r
    }

    /// What to do next.
    pub fn next(&self, pool: &Pool) -> (r: Attempt)
        requires
            self.start <= pool@.len(),
        ensures
            r == next_attempt(
                self.anchor,
                self.n_cand as int,
                self.attempts as int,
                pool@.len() - self.start,
            ),
    {
        let made: usize = pool.items.len() - self.start;
        let asked: usize = if self.n_cand < 1 {
            1
        } else {
            self.n_cand
        };
        if made >= self.n_cand || self.attempts / TRIES >= asked {
            return Attempt::Done;
        }
        match self.anchor {
            Some(a) => {
                if made < self.n_cand / 2 {
                    Attempt::Anchored(a)
                } else {
                    Attempt::Plain
                }
            },
            None => Attempt::Plain,
        }
    }

    /// Takes what an attempt generated. It must not open with punctuation, must be new, and
    /// must say something.
    pub fn offer(
        &mut self,
        pool: &mut Pool,
        intern: &Interner,
        tokens: &Vec<TokenId>,
        steps: Vec<GenStep>,
        surprise: Option<u32>,
    )
        requires
            old(self).attempts < usize::MAX,
        ensures
            final(self).attempts == old(self).attempts + 1,
            final(self).anchor == old(self).anchor,
            final(self).n_cand == old(self).n_cand,
            final(self).start == old(self).start,
            final(self).ctx_seed == old(self).ctx_seed,
            final(self).parrot == old(self).parrot,
            (final(pool)@, final(self).known()) == offered(
                intern@,
                old(pool)@,
                old(self).known(),
                tokens@,
                surprise,
            ),
            ({
                let toks = generate::opening(intern@, tokens@);
                let said = tokenizer::spoken(intern@, toks);
                final(self).steps == (if toks.len() > 0 && !old(self).known().contains(toks)
                    && text::trimmed(said).len() > 0 && old(self).steps.len() == 0 {
                    steps
                } else {
                    old(self).steps
                })
            }),
    {
        self.attempts = self.attempts + 1;
        let toks = generate::trim_leading_punct(intern, tokens);
        if toks.len() == 0 {
            return ;
        }
        if fx::get_run(&self.seen, &toks).is_some() {
            return ;
        }
        let ghost before = self.known();
        fx::set_run(&mut self.seen, mix::copy_tokens(&toks), 0);
        proof {
            assert(self.known() =~= before.insert(toks@));
        }
        let said = tokenizer::speak(intern, &toks);
        if text::is_blank(said.as_str()) {
            return ;
        }
        if self.steps.len() == 0 {
            self.steps = steps;
        }
        pool.push_scored(PathKind::Markov, said, toks, surprise);
    }
}

/// The source stops: every attempt counts, and there are four for each asked-for candidate.
pub proof fn law_markov_stops(anchor: Option<u32>, n_cand: int, attempts: int, made: int)
    requires
        attempts >= TRIES * n_cand,
        attempts >= TRIES,
    ensures
        next_attempt(anchor, n_cand, attempts, made) == Attempt::Done,
{
}

// ---- echo ----
/// The texts of tokens.
pub open spec fn words_of(v: intern::Vocab, toks: Seq<u32>) -> Seq<Seq<char>> {
    toks.map_values(|id: u32| intern::text_of(v, id))
}

/// The texts of tokens.
pub fn words(intern: &Interner, toks: &Vec<TokenId>) -> (r: Vec<String>)
    ensures
        text::texts(r@) == words_of(intern@, toks@),
{
    let mut r: Vec<String> = Vec::new();
    let mut i: usize = 0;
    while i < toks.len()
        invariant
            i <= toks.len(),
            r.len() == i,
            forall|k: int| 0 <= k < i ==> (#[trigger] r[k])@ == words_of(intern@, toks@)[k],
        decreases toks.len() - i,
    {
        r.push(intern.get(toks[i]).to_owned());
        i += 1;
    }
    proof {
        assert(text::texts(r@) =~= words_of(intern@, toks@));
    }
    r
}

/// Two neighbours change places.
pub open spec fn swapped(ws: Seq<Seq<char>>, i: int) -> Seq<Seq<char>> {
    ws.update(i, ws[i + 1]).update(i + 1, ws[i])
}

/// A mild shuffle of chunks, and where it leaves the stream: one pair of neighbours changes
/// places.
pub open spec fn variant(ws: Seq<Seq<char>>, s: Stream) -> (Seq<char>, u128) {
    if ws.len() == 0 {
        ("…"@, s.pos)
    } else if ws.len() == 1 {
        (tokenizer::display(ws), s.pos)
    } else {
        let d = rng::drawn(s, ws.len() - 1);
        (tokenizer::display(swapped(ws, d.0)), d.1)
    }
}

/// A mild shuffle of chunks.
pub fn parrot_variant(chunks: &Vec<String>, rng: &mut Stream) -> (r: String)
    requires
        old(rng).wf(),
    ensures
        final(rng).wf(),
        final(rng).seed == old(rng).seed,
        (r@, final(rng).pos) == variant(text::texts(chunks@), *old(rng)),
{
    if chunks.len() == 0 {
        return "…".to_owned();
    }
    let ghost ws = text::texts(chunks@);
    let mut v = crate::trigger::copy_strings(chunks);
    if v.len() > 1 {
        let i: usize = rng.rand_below(v.len() - 1);
        let a = v[i].clone();
        let b = v[i + 1].clone();
        v.set(i, b);
        v.set(i + 1, a);
        proof {
            assert(ws[i as int] == a@);
            assert(ws[i + 1] == b@);
            assert(text::texts(v@) =~= swapped(ws, i as int));
        }
    }
    tokenizer::detokenize(v.as_slice())
}

/// Pool and stream position after the echo source: the input as it was typed, and from two
/// proposals on a mild shuffle of it.
pub open spec fn echoed(
    v: intern::Vocab,
    pool: Seq<mix::Proposed>,
    input: Seq<char>,
    chunks: Seq<u32>,
    n_echo: int,
    s: Stream,
) -> (Seq<mix::Proposed>, u128) {
    let ws = words_of(v, chunks);
    let one = mix::proposed(
        pool,
        mix::Proposed {
            source: PathKind::Echo,
            text: input,
            tokens: chunks,
            surprise: None,
        },
    );
    if n_echo >= 2 {
        let d = variant(ws, s);
        (
            mix::proposed(
                one,
                mix::Proposed {
                    source: PathKind::Echo,
                    text: d.0,
                    tokens: chunks,
                    surprise: None,
                },
            ),
            d.1,
        )
    } else {
        (one, s.pos)
    }
}

/// Speaks the input back.
pub fn propose_echo(
    intern: &Interner,
    params: &Params,
    pool: &mut Pool,
    input: &String,
    chunks: &Vec<TokenId>,
    rng: &mut Stream,
)
    requires
        old(rng).wf(),
    ensures
        final(rng).wf(),
        final(rng).seed == old(rng).seed,
        (final(pool)@, final(rng).pos) == echoed(
            intern@,
            old(pool)@,
            input@,
            chunks@,
            params.n_echo as int,
            *old(rng),
        ),
{
    pool.push(PathKind::Echo, input.clone(), mix::copy_tokens(chunks));
    if params.n_echo >= 2 {
        let strs = words(intern, chunks);
        let shuffled = parrot_variant(&strs, rng);
        pool.push(PathKind::Echo, shuffled, mix::copy_tokens(chunks));
    }
}

/// Pool and stream position after the parrot of exclusive mode, which speaks up only where the
/// pool is empty: a mild shuffle of the input, and the input itself where that differs.
pub open spec fn parroted(
    v: intern::Vocab,
    pool: Seq<mix::Proposed>,
    chunks: Seq<u32>,
    mix_mode: MixMode,
    s: Stream,
) -> (Seq<mix::Proposed>, u128) {
    if mix_mode != MixMode::Exclusive || pool.len() > 0 {
        (pool, s.pos)
    } else {
        let ws = words_of(v, chunks);
        let d = variant(ws, s);
        let one = mix::proposed(
            pool,
            mix::Proposed {
                source: PathKind::Markov,
                text: d.0,
                tokens: chunks,
                surprise: None,
            },
        );
        (
            mix::proposed(
                one,
                mix::Proposed {
                    source: PathKind::Markov,
                    text: tokenizer::display(ws),
                    tokens: chunks,
                    surprise: None,
                },
            ),
            d.1,
        )
    }
}

/// The parrot of exclusive mode.
pub fn propose_parrot(
    intern: &Interner,
    params: &Params,
    pool: &mut Pool,
    chunks: &Vec<TokenId>,
    rng: &mut Stream,
)
    requires
        old(rng).wf(),
    ensures
        final(rng).wf(),
        final(rng).seed == old(rng).seed,
        (final(pool)@, final(rng).pos) == parroted(
            intern@,
            old(pool)@,
            chunks@,
            params.mix,
            *old(rng),
        ),
{
    let exclusive: bool = params.mix == MixMode::Exclusive;
    if !exclusive || !pool.is_empty() {
        return ;
    }
    let strs = words(intern, chunks);
    let parrot_text = tokenizer::detokenize(strs.as_slice());
    let shuffled = parrot_variant(&strs, rng);
    pool.push(PathKind::Markov, shuffled, mix::copy_tokens(chunks));
    pool.push(PathKind::Markov, parrot_text, mix::copy_tokens(chunks));
}

// ---- the end of the pool ----
/// How many of the newest replies are never repeated outright.
pub const HARD_WINDOW: usize = 3;

/// The text is one of the newest replies.
pub open spec fn just_said(recent: Seq<Seq<char>>, t: Seq<char>) -> bool {
    exists|i: int|
        0 <= i < recent.len() && i >= recent.len() - HARD_WINDOW && #[trigger] recent[i] == t
}

/// A proposal survives: triggers always, others unless just said.
pub open spec fn survives(recent: Seq<Seq<char>>, p: mix::Proposed) -> bool {
    p.source == PathKind::Trigger || !just_said(recent, p.text)
}

/// The proposals that survive, in order.
pub open spec fn surviving(recent: Seq<Seq<char>>, pool: Seq<mix::Proposed>) -> Seq<mix::Proposed>
    decreases pool.len(),
{
    if pool.len() == 0 {
        Seq::empty()
    } else if survives(recent, pool.last()) {
        surviving(recent, pool.drop_last()).push(pool.last())
    } else {
        surviving(recent, pool.drop_last())
    }
}

/// The repetition penalty is on.
pub open spec fn bans_repeats(params: Params) -> bool {
    params.self_window > 0 && bits::positive32(params.self_penalty)
}

fn was_just_said(recent: &Vec<String>, t: &String) -> (r: bool)
    ensures
        r == just_said(text::texts(recent@), t@),
{
    let ghost ts = text::texts(recent@);
    let mut i: usize = if recent.len() > HARD_WINDOW {
        recent.len() - HARD_WINDOW
    } else {
        0
    };
    while i < recent.len()
        invariant
            i <= recent.len(),
            i >= recent.len() - HARD_WINDOW,
            ts == text::texts(recent@),
            forall|k: int|
                0 <= k < i && k >= recent.len() - HARD_WINDOW ==> #[trigger] ts[k] != t@,
        decreases recent.len() - i,
    {
        if recent[i] == *t {
            proof {
                assert(ts[i as int] == t@);
            }
            return true;
        }
        i += 1;
    }
    false
}

/// Exact self-repeats of the newest three replies are dropped
/// outright: the soft penalty ranks them down, but when a whole pool
/// scores badly the least-bad repeat still wins. Only three, not the
/// full window. Triggers are exempt: dictionary responses are expected to repeat.
pub fn drop_repeats(params: &Params, recent: &Vec<String>, pool: Pool) -> (r: Pool)
    ensures
        r@ == (if bans_repeats(*params) {
            surviving(text::texts(recent@), pool@)
        } else {
            pool@
        }),
{
    if params.self_window == 0 || !bits::is_positive32(params.self_penalty) {
        return pool;
    }
    let ghost ts = text::texts(recent@);
    let mut kept = Pool::new();
    let mut i: usize = 0;
    proof {
        assert(kept@ =~= surviving(ts, pool@.take(0)));
    }
    while i < pool.items.len()
        invariant
            i <= pool.items.len(),
            ts == text::texts(recent@),
            kept@ == surviving(ts, pool@.take(i as int)),
        decreases pool.items.len() - i,
    {
        let p = &pool.items[i];
        let trigger: bool = match p.source {
            PathKind::Trigger => true,
            _ => false,
        };
        proof {
            assert(pool@.take(i + 1).drop_last() =~= pool@.take(i as int));
            assert(pool@.take(i + 1).last() == p@);
        }
        if trigger || !was_just_said(recent, &p.text) {
            let ghost before = kept@;
            kept.items.push(
                mix::Proposal {
                    source: p.source,
                    text: p.text.clone(),
                    tokens: mix::copy_tokens(&p.tokens),
                    surprise: p.surprise,
                },
            );
            proof {
                assert(kept@ =~= before.push(p@));
            }
        }
        i += 1;
    }
    proof {
        assert(pool@.take(i as int) =~= pool@);
    }
    kept
}

/// What is proposed where nothing is: the input, and at the very last an ellipsis.
pub open spec fn resorted(
    v: intern::Vocab,
    pool: Seq<mix::Proposed>,
    input: Seq<char>,
    chunks: Seq<u32>,
    n_echo: int,
    s: Stream,
) -> (Seq<mix::Proposed>, u128) {
    if pool.len() > 0 {
        (pool, s.pos)
    } else {
        let e = echoed(v, pool, input, chunks, n_echo, s);
        if e.0.len() > 0 {
            e
        } else {
            (
                mix::proposed(
                    e.0,
                    mix::Proposed {
                        source: PathKind::Echo,
                        text: "…"@,
                        tokens: Seq::empty(),
                        surprise: None,
                    },
                ),
                e.1,
            )
        }
    }
}

/// Refills an emptied pool.
pub fn last_resort(
    intern: &Interner,
    params: &Params,
    pool: &mut Pool,
    input: &String,
    chunks: &Vec<TokenId>,
    rng: &mut Stream,
)
    requires
        old(rng).wf(),
    ensures
        final(rng).wf(),
        final(rng).seed == old(rng).seed,
        (final(pool)@, final(rng).pos) == resorted(
            intern@,
            old(pool)@,
            input@,
            chunks@,
            params.n_echo as int,
            *old(rng),
        ),
{
    if !pool.is_empty() {
        return ;
    }
    propose_echo(intern, params, pool, input, chunks, rng);
    if pool.is_empty() {
        let nothing: Vec<TokenId> = Vec::new();
        proof {
            assert(nothing@ =~= Seq::<u32>::empty());
        }
        pool.push(PathKind::Echo, "…".to_owned(), nothing);
    }
}

/// Nothing that was just said is said again, unless a trigger says so.
pub proof fn law_no_exact_repeat(recent: Seq<Seq<char>>, pool: Seq<mix::Proposed>)
    ensures
        forall|i: int|
            0 <= i < surviving(recent, pool).len() ==> survives(
                recent,
                #[trigger] surviving(recent, pool)[i],
            ),
    decreases pool.len(),
{
    if pool.len() > 0 {
        law_no_exact_repeat(recent, pool.drop_last());
        let front = surviving(recent, pool.drop_last());
        let now = surviving(recent, pool);
        assert forall|i: int| 0 <= i < now.len() implies survives(recent, #[trigger] now[i]) by {
            if i < front.len() {
                assert(now[i] == front[i]);
            }
        }
    }
}

/// There is always something to say.
pub proof fn law_pool_is_never_empty(
    v: intern::Vocab,
    pool: Seq<mix::Proposed>,
    input: Seq<char>,
    chunks: Seq<u32>,
    n_echo: int,
    s: Stream,
)
    ensures
        resorted(v, pool, input, chunks, n_echo, s).0.len() > 0,
{
    reveal_strlit("…");
    let t = "…"@;
    assert(t.len() == 1 && t[0] == '…');
    reveal_with_fuel(text::trimmed_start, 2);
    reveal_with_fuel(text::trimmed_end, 2);
    assert(text::trimmed(t) == t);
}

/// A trigger hit silences everything else in exclusive mode, and nothing in pool mode. What
/// opens otherwise is what the plan says; adapting takes pool mode, a number to adapt and
/// something to adapt; generating takes a corpus in pool mode, and makes one candidate at least
/// in exclusive mode.
pub proof fn law_sources_open_as_planned(
    params: Params,
    plan: RoutePlan,
    triggered: bool,
    pairs: int,
    corpus_empty: bool,
)
    ensures
        ({
            let s = opened(params, plan, triggered, pairs, corpus_empty);
            match params.mix {
                MixMode::Exclusive => {
                    &&& triggered ==> !s.retrieve && !s.adapt && s.n_cand == 0 && !s.echo
                    &&& !triggered ==> {
                        &&& s.retrieve == plan.run_retrieve
                        &&& s.echo == plan.run_echo
                        &&& plan.run_markov ==> s.n_cand >= 1 && s.n_cand >= plan.n_cand && s.n_cand
                            <= plan.n_cand + 1
                        &&& plan.run_markov && plan.n_cand >= 1 ==> s.n_cand == plan.n_cand
                        &&& !plan.run_markov ==> s.n_cand == 0
                    }
                },
                MixMode::Pool => {
                    &&& s.retrieve == plan.run_retrieve
                    &&& s.echo == plan.run_echo
                    &&& s.adapt <==> params.n_adapt >= 1 && pairs >= 1
                    &&& plan.run_markov && !corpus_empty ==> s.n_cand == plan.n_cand
                    &&& !plan.run_markov || corpus_empty ==> s.n_cand == 0
                },
            }
        }),
{
}

/// What a trigger adds to the pool are responses of its own, in their order; none that says
/// something is left out.
pub proof fn law_a_trigger_says_its_responses(
    tk: Tokenizer,
    v: intern::Vocab,
    pool: Seq<mix::Proposed>,
    responses: Seq<Seq<char>>,
    scores: Seq<Vec<u64>>,
    k: int,
)
    requires
        0 <= k <= responses.len(),
    ensures
        ({
            let now = triggered(tk, v, pool, responses, scores, k).1;
            &&& pool.len() <= now.len()
            &&& forall|i: int| 0 <= i < pool.len() ==> #[trigger] now[i] == pool[i]
            &&& forall|i: int|
                pool.len() <= i < now.len() ==> (#[trigger] now[i]).source == PathKind::Trigger
                    && responses.take(k).contains(now[i].text)
            &&& forall|j: int|
                0 <= j < k && text::trimmed(#[trigger] responses[j]).len() > 0 ==> mix::has_text(
                    now,
                    responses[j],
                )
        }),
    decreases k,
{
    if k > 0 {
        law_a_trigger_says_its_responses(tk, v, pool, responses, scores, k - 1);
        let before = triggered(tk, v, pool, responses, scores, k - 1).1;
        let now = triggered(tk, v, pool, responses, scores, k).1;
        assert forall|i: int| 0 <= i < before.len() implies #[trigger] now[i] == before[i] by {}
        assert forall|t: Seq<char>| responses.take(k - 1).contains(t) implies responses.take(
            k,
        ).contains(t) by {
            let front = responses.take(k - 1);
            let j = choose|j: int| 0 <= j < front.len() && front[j] == t;
            assert(responses.take(k)[j] == t);
        }
        assert(responses.take(k)[k - 1] == responses[k - 1]);
        assert forall|i: int| pool.len() <= i < now.len() implies (#[trigger] now[i]).source
            == PathKind::Trigger && responses.take(k).contains(now[i].text) by {
            if i < before.len() {
                assert(now[i] == before[i]);
                assert(responses.take(k - 1).contains(before[i].text));
            }
        }
        assert forall|j: int|
            0 <= j < k && text::trimmed(#[trigger] responses[j]).len() > 0 implies mix::has_text(
            now,
            responses[j],
        ) by {
            if mix::has_text(before, responses[j]) {
                let i = choose|i: int|
                    0 <= i < before.len() && (#[trigger] before[i]).text == responses[j];
                assert(now[i].text == responses[j]);
            } else {
                assert(j == k - 1);
                assert(now[before.len() as int].text == responses[j]);
            }
        }
    }
}

/// The anchor is a chunk of the input that is content of the corpus and, unless hearsay is
/// released, was heard often enough; none of the others that qualify is rarer, and of equally
/// rare ones it is the last.
pub proof fn law_the_rarest_known_chunk_anchors(
    m: Memory,
    params: Params,
    chunks: Seq<u32>,
    release: bool,
    r: Option<u32>,
    j: int,
)
    requires
        is_anchor(m, params, chunks, release, r),
        0 <= j < chunks.len(),
        interest::content(m.intern@, chunks[j]),
        count_of(m, chunks[j]) >= 1,
        release || (m.interest.knows(chunks[j]) && m.interest.utterances(chunks[j])
            >= params.hearsay_min),
    ensures
        params.bidir && m.store.stream().len() > 0 && m.rev_store.stream().len() > 0 <==> r is Some,
        r matches Some(id) ==> {
            &&& interest::content(m.intern@, id)
            &&& 1 <= count_of(m, id) <= count_of(m, chunks[j])
            &&& release || (m.interest.knows(id) && m.interest.utterances(id) >= params.hearsay_min)
            &&& exists|i: int|
                0 <= i < chunks.len() && #[trigger] chunks[i] == id && (count_of(m, id) == count_of(
                    m,
                    chunks[j],
                ) ==> j <= i)
        },
{
    assert(may_anchor(m, params, chunks, release, j));
    if let Some(id) = r {
        let i = choose|i: int|
            #[trigger] anchors(m, params, chunks, release, i) && chunks[i] == id;
        assert(chunks[i] == id);
        assert(may_anchor(m, params, chunks, release, i));
    }
}

/// Without an input chunk that qualifies, or without anything to grow from, there is no anchor.
pub proof fn law_no_anchor_without_a_known_chunk(
    m: Memory,
    params: Params,
    chunks: Seq<u32>,
    release: bool,
    r: Option<u32>,
)
    requires
        is_anchor(m, params, chunks, release, r),
        !params.bidir || m.store.stream().len() == 0 || m.rev_store.stream().len() == 0 || forall|
            j: int,
        |
            0 <= j < chunks.len() ==> !interest::content(m.intern@, #[trigger] chunks[j]) || count_of(
                m,
                chunks[j],
            ) <= 0 || (!release && m.interest.utterances(chunks[j]) < params.hearsay_min),
    ensures
        r is None,
{
    if let Some(id) = r {
        let i = choose|i: int|
            #[trigger] anchors(m, params, chunks, release, i) && chunks[i] == id;
        assert(may_anchor(m, params, chunks, release, i));
        assert(chunks[i] == id);
    }
}

/// The source goes on until it has made what was asked for or has tried four times for each;
/// where there is an anchor, the first half of the candidates grows around it, and the rest,
/// or all of them without one, does not.
pub proof fn law_half_the_candidates_grow_around_the_anchor(
    anchor: Option<u32>,
    n_cand: int,
    attempts: int,
    made: int,
)
    requires
        0 <= made,
        0 <= attempts,
        0 <= n_cand,
    ensures
        next_attempt(anchor, n_cand, attempts, made) == Attempt::Done <==> made >= n_cand || attempts
            >= 4 * n_cand,
        made < n_cand && attempts < 4 * n_cand ==> match anchor {
            Some(a) => next_attempt(anchor, n_cand, attempts, made) == (if 2 * made + 2 <= n_cand {
                Attempt::Anchored(a)
            } else {
                Attempt::Plain
            }),
            None => next_attempt(anchor, n_cand, attempts, made) == Attempt::Plain,
        },
{
}

/// What was generated once is not offered again, and nothing is offered where only punctuation
/// came out. What is new is remembered, and joins as a Markov candidate with its own words
/// unless the pool says them already.
pub proof fn law_nothing_is_generated_twice(
    v: intern::Vocab,
    pool: Seq<mix::Proposed>,
    known: Set<Seq<u32>>,
    tokens: Seq<u32>,
    surprise: Option<u32>,
    later: Option<u32>,
)
    ensures
        ({
            let one = offered(v, pool, known, tokens, surprise);
            let toks = generate::opening(v, tokens);
            &&& offered(v, one.0, one.1, tokens, later) == one
            &&& toks.len() == 0 ==> one == (pool, known)
            &&& toks.len() > 0 ==> one.1 == known.insert(toks)
            &&& toks.len() > 0 && !known.contains(toks) && !mix::has_text(
                pool,
                tokenizer::spoken(v, toks),
            ) && text::trimmed(tokenizer::spoken(v, toks)).len() > 0 ==> {
                &&& one.0.len() == pool.len() + 1
                &&& one.0.last().source == PathKind::Markov
                &&& one.0.last().tokens == toks
                &&& one.0.last().text == tokenizer::spoken(v, toks)
                &&& one.0.last().surprise == surprise
            }
        }),
{
    let toks = generate::opening(v, tokens);
    if known.contains(toks) {
        assert(known.insert(toks) =~= known);
    }
}

/// A mild shuffle exchanges two neighbours: the same chunks are said, and all but those two
/// where they stood.
pub proof fn law_neighbours_change_places(ws: Seq<Seq<char>>, i: int)
    requires
        0 <= i,
        i + 1 < ws.len(),
    ensures
        swapped(ws, i).len() == ws.len(),
        swapped(ws, i)[i] == ws[i + 1],
        swapped(ws, i)[i + 1] == ws[i],
        forall|k: int|
            0 <= k < ws.len() && k != i && k != i + 1 ==> #[trigger] swapped(ws, i)[k] == ws[k],
        swapped(ws, i).to_multiset() == ws.to_multiset(),
{
    broadcast use vstd::seq_lib::group_to_multiset_ensures;

    let one = ws.update(i, ws[i + 1]);
    assert(one.to_multiset() =~= ws.to_multiset().insert(ws[i + 1]).remove(ws[i]));
    assert(swapped(ws, i).to_multiset() =~= one.to_multiset().insert(ws[i]).remove(ws[i + 1]));
    assert(swapped(ws, i).to_multiset() =~= ws.to_multiset());
}

/// A shuffled reply shows the chunks with one pair of neighbours exchanged. A single chunk is
/// shown as it stands, and an ellipsis where there is none; neither takes a draw.
pub proof fn law_a_shuffle_is_mild(ws: Seq<Seq<char>>, s: Stream)
    ensures
        ws.len() == 0 ==> variant(ws, s) == ("…"@, s.pos),
        ws.len() == 1 ==> variant(ws, s) == (tokenizer::display(ws), s.pos),
        ws.len() >= 2 ==> variant(ws, s).1 == rng::drawn(s, ws.len() - 1).1 && exists|i: int|
            0 <= i < ws.len() - 1 && variant(ws, s).0 == tokenizer::display(
                #[trigger] ws.update(i, ws[i + 1]).update(i + 1, ws[i]),
            ),
{
    if ws.len() >= 2 {
        let d = rng::drawn(s, ws.len() - 1);
        rng::law_draws_stay_below(s, ws.len() - 1);
        assert(variant(ws, s).0 == tokenizer::display(
            ws.update(d.0, ws[d.0 + 1]).update(d.0 + 1, ws[d.0]),
        ));
    }
}

/// An echo says what was typed, letter for letter, unless that is blank. Asked for one echo it
/// draws nothing and adds nothing else.
pub proof fn law_the_input_is_echoed(
    v: intern::Vocab,
    pool: Seq<mix::Proposed>,
    input: Seq<char>,
    chunks: Seq<u32>,
    n_echo: int,
    s: Stream,
)
    ensures
        ({
            let r = echoed(v, pool, input, chunks, n_echo, s);
            &&& text::trimmed(input).len() > 0 ==> mix::has_text(r.0, input)
            &&& n_echo <= 1 ==> r.1 == s.pos && r.0.len() <= pool.len() + 1
            &&& n_echo >= 2 ==> r.1 == variant(words_of(v, chunks), s).1
            &&& forall|i: int| 0 <= i < pool.len() ==> #[trigger] r.0[i] == pool[i]
            &&& forall|i: int|
                pool.len() <= i < r.0.len() ==> (#[trigger] r.0[i]).source == PathKind::Echo
                    && r.0[i].tokens == chunks && (r.0[i].text == input || (n_echo >= 2 && r.0[i].text
                    == variant(words_of(v, chunks), s).0))
            &&& !mix::has_text(pool, input) && text::trimmed(input).len() > 0 ==> r.0[pool.len() as int].text
                == input
        }),
{
    let r = echoed(v, pool, input, chunks, n_echo, s);
    if text::trimmed(input).len() > 0 {
        if mix::has_text(pool, input) {
            let i = choose|i: int| 0 <= i < pool.len() && (#[trigger] pool[i]).text == input;
            assert(r.0[i].text == input);
        } else {
            assert(r.0[pool.len() as int].text == input);
        }
    }
}

/// The parrot speaks only in exclusive mode and only into an empty pool; else it neither adds
/// nor draws. What it says is the chunks of the input, shuffled first.
pub proof fn law_the_parrot_speaks_when_nobody_does(
    v: intern::Vocab,
    pool: Seq<mix::Proposed>,
    chunks: Seq<u32>,
    mix_mode: MixMode,
    s: Stream,
)
    ensures
        ({
            let r = parroted(v, pool, chunks, mix_mode, s);
            let shuffled = variant(words_of(v, chunks), s).0;
            &&& mix_mode == MixMode::Pool || pool.len() > 0 ==> r == (pool, s.pos)
            &&& mix_mode == MixMode::Exclusive && pool.len() == 0 ==> {
                &&& text::trimmed(shuffled).len() > 0 ==> r.0.len() > 0 && r.0[0].text == shuffled
                &&& text::trimmed(tokenizer::display(words_of(v, chunks))).len() > 0 ==> mix::has_text(
                    r.0,
                    tokenizer::display(words_of(v, chunks)),
                )
                &&& forall|i: int|
                    0 <= i < r.0.len() ==> (#[trigger] r.0[i]).source == PathKind::Markov
                        && r.0[i].tokens == chunks
                &&& r.1 == variant(words_of(v, chunks), s).1
            }
        }),
{
    let r = parroted(v, pool, chunks, mix_mode, s);
    let ws = words_of(v, chunks);
    let shown = tokenizer::display(ws);
    let d = variant(ws, s);
    if mix_mode == MixMode::Exclusive && pool.len() == 0 && text::trimmed(shown).len() > 0 {
        let one = mix::proposed(
            pool,
            mix::Proposed {
                source: PathKind::Markov,
                text: d.0,
                tokens: chunks,
                surprise: None,
            },
        );
        if mix::has_text(one, shown) {
            let i = choose|i: int| 0 <= i < one.len() && (#[trigger] one[i]).text == shown;
            assert(r.0[i].text == shown);
        } else {
            assert(r.0[one.len() as int].text == shown);
        }
    }
}

/// What survives is what a trigger says, and what is none of the newest three replies, in the
/// order of the pool.
pub proof fn law_the_newest_three_are_not_repeated(recent: Seq<Seq<char>>, pool: Seq<mix::Proposed>)
    ensures
        surviving(recent, pool) == pool.filter(
            |p: mix::Proposed|
                p.source == PathKind::Trigger || !recent.skip(
                    if recent.len() > 3 {
                        recent.len() - 3
                    } else {
                        0
                    },
                ).contains(p.text),
        ),
    decreases pool.len(),
{
    reveal(Seq::filter);
    let newest = recent.skip(
        if recent.len() > 3 {
            recent.len() - 3
        } else {
            0
        },
    );
    let kept = |p: mix::Proposed| p.source == PathKind::Trigger || !newest.contains(p.text);
    if pool.len() > 0 {
        law_the_newest_three_are_not_repeated(recent, pool.drop_last());
        let t = pool.last().text;
        assert(just_said(recent, t) == newest.contains(t)) by {
            if just_said(recent, t) {
                let i = choose|i: int|
                    0 <= i < recent.len() && i >= recent.len() - HARD_WINDOW && #[trigger] recent[i]
                        == t;
                assert(newest[i - (recent.len() - newest.len())] == t);
            }
            if newest.contains(t) {
                let i = choose|i: int| 0 <= i < newest.len() && newest[i] == t;
                assert(recent[i + (recent.len() - newest.len())] == t);
            }
        }
    }
    assert(surviving(recent, pool) =~= pool.filter(kept));
}

/// A pool that holds something is left alone. An empty one gets the input, and an ellipsis
/// where that is blank.
pub proof fn law_the_last_resort_is_the_input(
    v: intern::Vocab,
    pool: Seq<mix::Proposed>,
    input: Seq<char>,
    chunks: Seq<u32>,
    s: Stream,
    n_echo: int,
)
    ensures
        pool.len() > 0 ==> resorted(v, pool, input, chunks, n_echo, s) == (pool, s.pos),
        pool.len() == 0 && text::trimmed(input).len() > 0 ==> resorted(
            v,
            pool,
            input,
            chunks,
            n_echo,
            s,
        ).0[0].text == input,
        pool.len() == 0 && text::trimmed(input).len() == 0 && n_echo <= 1 ==> {
            let r = resorted(v, pool, input, chunks, n_echo, s);
            r.0.len() == 1 && r.0[0].text == "…"@ && r.0[0].source == PathKind::Echo && r.1 == s.pos
        },
{
    law_pool_is_never_empty(v, pool, input, chunks, n_echo, s);
    law_the_input_is_echoed(v, pool, input, chunks, n_echo, s);
}

} // verus!
