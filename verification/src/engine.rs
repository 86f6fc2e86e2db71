//! The engine: what a log opens to, what a finished turn leaves behind, and what can be read
//! off it.
use crate::embed::HashEmbedder;
use crate::eval;
use crate::eval::EvalAccum;
use crate::explain::PathKind;
use crate::explain::Trace;
use crate::generate;
use crate::ids::TokenId;
use crate::interest::Touch;
use crate::intern;
use crate::log;
use crate::log::Record;
use crate::log::Role;
use crate::memory;
use crate::memory::Memory;
use crate::milestone;
use crate::observe;
use crate::observe::LogDigest;
use crate::params::Params;
use crate::rng;
use crate::rng::Stream;
use crate::text;
use crate::tokenizer::Tokenizer;
use crate::trigger::TriggerDict;
use crate::turn;
use vstd::prelude::*;

verus! {

pub struct Engine {
    pub memory: Memory,
    pub tokenizer: Tokenizer,
    pub embedder: HashEmbedder,
    pub triggers: TriggerDict,
    pub params: Params,
    pub rng: Stream,
    pub seed: u64,
    pub eval: EvalAccum,
    /// Last bot path, restored from the log so `/good` works after reopen.
    pub last_path: Option<PathKind>,
    /// Incremental log digest: counts, paths and days for stats and gauges,
    /// updated per append instead of rescanning the whole log per turn.
    pub digest: LogDigest,
}

/// What opening a log hands to the host for its floating-point state.
pub struct Opened {
    /// Touched chunks of every absorbed line.
    pub touches: Vec<Vec<Touch>>,
    /// Preference events: the source, and whether it was good.
    pub prefs: Vec<(PathKind, bool)>,
    /// Bit patterns of the similarities of all bot lines.
    pub sims: Vec<u32>,
}

/// Preference events of the first `k` records, and the source of the last bot line. An event
/// without a source of its own is about that line.
pub open spec fn preferences(recs: Seq<Record>, k: int) -> (
    Seq<(PathKind, bool)>,
    Option<PathKind>,
)
    decreases k,
{
    if k <= 0 {
        (Seq::empty(), None)
    } else {
        let before = preferences(recs, k - 1);
        let r = recs[k - 1];
        match r.role {
            Role::Meta => {
                let p = if r.path is Some {
                    r.path
                } else {
                    before.1
                };
                match p {
                    Some(p) => (before.0.push((p, r.text@ == "good"@)), before.1),
                    None => before,
                }
            },
            Role::Bot => (before.0, r.path),
            Role::User => before,
        }
    }
}

/// Preference events of a log, and the source of its last bot line.
pub fn pref_events(recs: &Vec<Record>) -> (r: (Vec<(PathKind, bool)>, Option<PathKind>))
    ensures
        (r.0@, r.1) == preferences(recs@, recs.len() as int),
{
    let good = "good".to_owned();
    let mut events: Vec<(PathKind, bool)> = Vec::new();
    let mut last: Option<PathKind> = None;
    let mut i: usize = 0;
    proof {
        assert(events@ =~= Seq::<(PathKind, bool)>::empty());
    }
    while i < recs.len()
        invariant
            i <= recs.len(),
            good@ == "good"@,
            (events@, last) == preferences(recs@, i as int),
        decreases recs.len() - i,
    {
        let r = &recs[i];
        match r.role {
            Role::Meta => {
                let p: Option<PathKind> = match r.path {
                    Some(p) => Some(p),
                    None => last,
                };
                match p {
                    Some(p) => {
                        let liked: bool = r.text == good;
                        events.push((p, liked));
                    },
                    None => {},
                }
            },
            Role::Bot => {
                last = r.path;
            },
            Role::User => {},
        }
        i += 1;
    }
    (events, last)
}

/// Where the stream goes on after a log.
pub open spec fn resumed(recs: Seq<Record>, seed: u64) -> Stream {
    match log::resume_pos(recs, recs.len() as int) {
        Some(p) => Stream { seed, pos: (p as int % rng::PERIOD as int) as u128 },
        None => Stream { seed, pos: 0 },
    }
}

impl Engine {
    pub open spec fn wf(&self) -> bool {
        &&& self.memory.wf()
        &&& self.tokenizer.wf()
        &&& self.embedder.wf()
        &&& self.rng.wf()
        &&& self.rng.seed == self.seed
        &&& self.eval.wf()
    }

    /// What a log opens to.
    pub open spec fn is_opened(
        &self,
        params: Params,
        seed: u64,
        tokenizer: Tokenizer,
        recs: Seq<Record>,
        scores: Seq<Vec<u64>>,
    ) -> bool {
        let n = recs.len() as int;
        let heard = memory::hear(tokenizer, recs, scores, n);
        &&& self.wf()
        &&& self.params == params
        &&& self.seed == seed
        &&& self.tokenizer == tokenizer
        &&& self.embedder.dim == (if params.embed_dim < 8 {
            8
        } else {
            params.embed_dim
        })
        &&& self.memory.intern@ == heard.0
        &&& self.memory.recalls(params, self.embedder.dim as int, heard.1)
        &&& self.memory.follows_topic(
            params,
            self.embedder.dim as int,
            memory::texts_of(heard.1, Role::User),
        )
        &&& self.memory.is_merged(params, self.embedder.dim as int, heard.1)
        &&& self.rng == resumed(recs, seed)
        &&& self.eval == eval::evaluated(recs, params, n)
        &&& self.digest@ == observe::digest_of(recs, n)
        &&& self.last_path == preferences(recs, n).1
    }

    /// What taking in a finished turn makes of an engine.
    pub open spec fn is_concluded(
        &self,
        after: Engine,
        rec_user: Record,
        rec_bot: Record,
        trace: Trace,
        chunks: Seq<u32>,
        tokens: Seq<u32>,
        mark: Option<Seq<char>>,
    ) -> bool {
        let lines = lines_of(rec_user, rec_bot, chunks, tokens);
        let marks = milestone::all_lines(
            self.digest.learned as int,
            self.digest.last_speech_t,
            self.digest.aloof_left,
            after.digest@,
        );
        &&& after.wf()
        &&& after.params == self.params
        &&& after.seed == self.seed
        &&& after.rng == self.rng
        &&& after.embedder == self.embedder
        &&& after.triggers == self.triggers
        &&& after.digest@ == observe::ingested(observe::ingested(self.digest@, rec_user), rec_bot)
        &&& after.eval == eval::ticked(
            self.eval,
            eval::Tick {
                band_hit: trace.band_hit,
                slipped: trace.slipped,
                lcs: trace.novelty_lcs as int,
                len: tokens.len() as int,
            },
        )
        &&& after.last_path == Some(trace.path)
        &&& memory::grows(
            self.params,
            self.embedder.dim as int,
            self.memory,
            after.memory,
            lines,
        )
        &&& memory::trains_on(self.tokenizer, after.tokenizer, lines)
        &&& mark == (if marks.len() > 0 {
            Some(marks[0])
        } else {
            None
        })
    }

    /// An engine without a log.
    pub fn ephemeral(params: Params, seed: u64) -> (r: Self)
        ensures
            r.wf(),
            r.params == params,
            r.seed == seed,
            r.triggers.entries.len() == 0,
            r.tokenizer.model.total_chars == 0,
            r.memory.recalls(params, r.embedder.dim as int, Seq::empty()),
            r.memory.topic.window.len() == 0,
            r.memory.within(0),
            r.rng == (Stream { seed, pos: 0 }),
            r.eval == (EvalAccum { n: 0, band_hits: 0, slip_n: 0, lcs_sum: 0, lcs_len_sum: 0 }),
            r.digest@ == observe::digest_of(Seq::empty(), 0),
            r.last_path is None,
    {
        let recs: Vec<Record> = Vec::new();
        let scores: Vec<Vec<u64>> = Vec::new();
        let tokenizer = memory::train(&params, &recs);
        proof {
            assert(recs@ =~= Seq::<Record>::empty());
        }
        let (r, _) = Engine::open(params, seed, TriggerDict::new(), tokenizer, &recs, &scores);
        proof {
            let window = r.memory.topic.window@;
            assert(window.len() == crate::embed::held_bins(window).len());
        }
        r
    }

    pub fn params(&self) -> (r: &Params)
        ensures
            *r == self.params,
    {
        &self.params
    }

    pub fn seed(&self) -> (r: u64)
        ensures
            r == self.seed,
    {
        self.seed
    }

    /// Opens a log. The tokenizer is trained on it, and `scores` are its entropy scores for
    /// each record.
    pub fn open(
        params: Params,
        seed: u64,
        triggers: TriggerDict,
        tokenizer: Tokenizer,
        recs: &Vec<Record>,
        scores: &Vec<Vec<u64>>,
    ) -> (r: (Self, Opened))
        requires
            tokenizer.wf(),
            scores.len() == recs.len(),
            memory::volume(recs@, recs.len() as int) < memory::ROOM,
            recs.len() < u32::MAX,
            eval::sizes(recs@, params, recs.len() as int).0 <= usize::MAX,
            eval::sizes(recs@, params, recs.len() as int).1 <= usize::MAX,
        ensures
            r.0.is_opened(params, seed, tokenizer, recs@, scores@),
            r.0.triggers == triggers,
            r.0.memory.within(memory::volume(recs@, recs.len() as int)),
            r.0.digest.counts_up_to(recs.len() as int),
            r.1.prefs@ == preferences(recs@, recs.len() as int).0,
            r.1.sims@ == eval::scores_of(recs@, recs.len() as int),
            memory::are_touch_lists(
                r.0.memory.intern@,
                memory::lessons(memory::hear(tokenizer, recs@, scores@, recs.len() as int).1),
                r.1.touches@,
            ),
    {
        let embedder = HashEmbedder::from_params(&params);
        let (prefs, last_path) = pref_events(recs);
        let (memory, touches) = memory::replay(&params, &embedder, &tokenizer, recs, scores);
        let (eval, sims) = eval::replay(recs, &params);
        let digest = LogDigest::scan(recs);
        let rng: Stream = match log::saved_position(recs) {
            Some(pos) => Stream::at(seed, pos),
            None => Stream::new(seed),
        };
        proof {
            assert(rng == resumed(recs@, seed));
        }
        (
            Engine {
                memory,
                tokenizer,
                embedder,
                triggers,
                params,
                rng,
                seed,
                eval,
                last_path,
                digest,
            },
            Opened { touches, prefs, sims },
        )
    }

    /// Rebuilds what a log makes of the engine, with a tokenizer that was trained anew.
    pub fn retokenize(&mut self, tokenizer: Tokenizer, recs: &Vec<Record>, scores: &Vec<Vec<u64>>) -> (r:
        Vec<Vec<Touch>>)
        requires
            old(self).wf(),
            tokenizer.wf(),
            scores.len() == recs.len(),
            memory::volume(recs@, recs.len() as int) < memory::ROOM,
        ensures
            final(self).wf(),
            *final(self) == (Engine {
                memory: final(self).memory,
                tokenizer: final(self).tokenizer,
                ..*old(self)
            }),
            final(self).tokenizer == tokenizer,
            final(self).memory.intern@ == memory::hear(
                tokenizer,
                recs@,
                scores@,
                recs.len() as int,
            ).0,
            final(self).memory.recalls(
                old(self).params,
                old(self).embedder.dim as int,
                memory::hear(tokenizer, recs@, scores@, recs.len() as int).1,
            ),
            final(self).memory.follows_topic(
                old(self).params,
                old(self).embedder.dim as int,
                memory::texts_of(
                    memory::hear(tokenizer, recs@, scores@, recs.len() as int).1,
                    Role::User,
                ),
            ),
            memory::are_touch_lists(
                final(self).memory.intern@,
                memory::lessons(memory::hear(tokenizer, recs@, scores@, recs.len() as int).1),
                r@,
            ),
    {
        let (memory, touches) = memory::replay(
            &self.params,
            &self.embedder,
            &tokenizer,
            recs,
            scores,
        );
        self.memory = memory;
        self.tokenizer = tokenizer;
        touches
    }

    /// Merges the buffers into the indexed corpus.
    pub fn rebuild(&mut self)
        requires
            old(self).wf(),
        ensures
            final(self).wf(),
            *final(self) == (Engine {
                memory: Memory {
                    store: final(self).memory.store,
                    rev_store: final(self).memory.rev_store,
                    ..old(self).memory
                },
                ..*old(self)
            }),
            final(self).memory.store.stream() == old(self).memory.store.stream(),
            final(self).memory.store.buf.len() == 0,
            final(self).memory.rev_store.stream() == old(self).memory.rev_store.stream(),
            old(self).params.bidir ==> final(self).memory.rev_store.buf.len() == 0,
            !old(self).params.bidir ==> final(self).memory.rev_store
                == old(self).memory.rev_store,
    {
        self.memory.store.merge();
        if self.params.bidir {
            self.memory.rev_store.merge();
        }
    }

    /// Takes in a turn whose records are written: digest, counters, memory and last source.
    /// The results are the growth mark that the turn crossed, if any, and what was touched.
    pub fn conclude(
        &mut self,
        rec_user: &Record,
        rec_bot: &Record,
        trace: &Trace,
        chunks: &Vec<TokenId>,
        tokens: &Vec<TokenId>,
    ) -> (r: (Option<String>, Vec<Vec<Touch>>))
        requires
            old(self).wf(),
            rec_user.role == Role::User,
            rec_bot.role == Role::Bot,
            rec_user.learned ==> chunks.len() > 0,
            rec_bot.learned ==> tokens.len() > 0,
            memory::all_known(old(self).memory.intern@, chunks@),
            memory::all_known(old(self).memory.intern@, tokens@),
            old(self).tokenizer.model.total_chars + rec_user.text@.len() + rec_bot.text@.len()
                < u32::MAX,
            old(self).memory.has_room(chunks.len() + tokens.len() + 4),
            old(self).digest.counts_up_to(usize::MAX - 2),
            old(self).eval.room(trace.novelty_lcs as int, tokens.len() as int),
        ensures
            old(self).is_concluded(
                *final(self),
                *rec_user,
                *rec_bot,
                *trace,
                chunks@,
                tokens@,
                turn::worded(r.0),
            ),
            forall|ls: Seq<Seq<u32>>| #[trigger]
                memory::ledger_of(old(self).memory.interest, old(self).memory.intern@, ls)
                    ==> memory::are_turn_touches(
                    old(self).memory.intern@,
                    ls,
                    lines_of(*rec_user, *rec_bot, chunks@, tokens@),
                    r.1@,
                ),
    {
        let pre_learned: usize = self.digest.learned;
        let pre_last_t: Option<u64> = self.digest.last_speech_t;
        let pre_aloof: u32 = self.digest.aloof_left;
        proof {
            assert(self.digest.counts_up_to(usize::MAX - 1));
        }
        self.digest.ingest(rec_user);
        proof {
            assert(self.digest.counts_up_to(usize::MAX - 2 + 1));
        }
        self.digest.ingest(rec_bot);
        let marks = milestone::lines(pre_learned, pre_last_t, pre_aloof, &self.digest);
        let mark: Option<String> = if marks.len() > 0 {
            Some(marks[0].clone())
        } else {
            None
        };
        proof {
            let all = milestone::all_lines(
                pre_learned as int,
                pre_last_t,
                pre_aloof,
                self.digest@,
            );
            assert(text::texts(marks@).len() == marks.len());
            if marks.len() > 0 {
                assert(text::texts(marks@)[0] == marks[0]@);
            }
        }
        self.eval.observe(trace, tokens.len());
        let touches = self.memory.settle(
            &self.params,
            &self.embedder,
            &mut self.tokenizer,
            &rec_user.text,
            chunks,
            rec_user.learned,
            &rec_bot.text,
            tokens,
            rec_bot.learned,
        );
        self.last_path = Some(trace.path);
        (mark, touches)
    }

    /// Where a lone draw starts: the history, and its last four tokens to parrot. The
    /// conversation's stream does not move for it.
    pub fn draw_context(&self) -> (r: (Vec<TokenId>, Vec<TokenId>))
        ensures
            r.0@ == self.memory.history@,
            r.1@ == memory::last_n(self.memory.history@, 4),
    {
        let ctx = crate::mix::copy_tokens(&self.memory.history);
        let n: usize = if ctx.len() > 4 {
            4
        } else {
            ctx.len()
        };
        let parrot = generate::tail(&ctx, n);
        proof {
            assert(parrot@ =~= memory::last_n(self.memory.history@, 4));
        }
        (ctx, parrot)
    }
}

/// The lines of a turn as its records say them.
pub open spec fn lines_of(
    rec_user: Record,
    rec_bot: Record,
    chunks: Seq<u32>,
    tokens: Seq<u32>,
) -> memory::TurnLines {
    memory::TurnLines {
        input: rec_user.text@,
        chunks,
        learned_user: rec_user.learned,
        reply: rec_bot.text@,
        tokens,
        learned_bot: rec_bot.learned,
    }
}

/// A reopened log goes on where the live stream stood after its last reply.
pub proof fn law_reopen_resumes(recs: Seq<Record>, seed: u64, user: Record, bot: Record, pos: u128)
    requires
        bot.role == Role::Bot,
        bot.rng_word_pos == Some(log::split_pos(pos)),
        pos < rng::PERIOD,
    ensures
        resumed(recs.push(user).push(bot), seed) == (Stream { seed, pos }),
{
    log::law_position_round_trip(pos);
}

/// A newest bot line without a position starts the stream anew; no older position is reused.
pub proof fn law_no_stale_position(recs: Seq<Record>, seed: u64, bot: Record)
    requires
        bot.role == Role::Bot,
        bot.rng_word_pos is None,
    ensures
        resumed(recs.push(bot), seed) == (Stream { seed, pos: 0 }),
{
}

proof fn lemma_more_records(
    tk: Tokenizer,
    recs: Seq<Record>,
    scores: Seq<Vec<u64>>,
    rec: Record,
    extra: Vec<u64>,
    k: int,
)
    requires
        0 <= k <= recs.len(),
        scores.len() == recs.len(),
    ensures
        memory::hear(tk, recs.push(rec), scores.push(extra), k) == memory::hear(
            tk,
            recs,
            scores,
            k,
        ),
    decreases k,
{
    if k > 0 {
        lemma_more_records(tk, recs, scores, rec, extra, k - 1);
        assert(recs.push(rec)[k - 1] == recs[k - 1]);
        assert(scores.push(extra)[k - 1] == scores[k - 1]);
    }
}

proof fn lemma_more_training(recs: Seq<Record>, rec: Record, k: int, g: Seq<u32>, n: int, c: u32)
    requires
        0 <= k <= recs.len(),
    ensures
        memory::trained_chars(recs.push(rec), k) == memory::trained_chars(recs, k),
        memory::trained_grams(recs.push(rec), k, g, n) == memory::trained_grams(recs, k, g, n),
        memory::trained_nexts(recs.push(rec), k, g, n, c) == memory::trained_nexts(
            recs,
            k,
            g,
            n,
            c,
        ),
    decreases k,
{
    if k > 0 {
        lemma_more_training(recs, rec, k - 1, g, n, c);
        assert(recs.push(rec)[k - 1] == recs[k - 1]);
    }
}

proof fn lemma_more_counters(recs: Seq<Record>, rec: Record, params: Params, k: int)
    requires
        0 <= k <= recs.len(),
    ensures
        eval::evaluated(recs.push(rec), params, k) == eval::evaluated(recs, params, k),
        observe::digest_of(recs.push(rec), k) == observe::digest_of(recs, k),
        log::resume_pos(recs.push(rec), k) == log::resume_pos(recs, k),
    decreases k,
{
    if k > 0 {
        lemma_more_counters(recs, rec, params, k - 1);
        assert(recs.push(rec)[k - 1] == recs[k - 1]);
    }
}

/// A preference is no dialogue: it changes neither what is heard nor what trains, neither the
/// evaluation nor where the stream resumes. The digest counts it, and nothing else.
pub proof fn law_preferences_are_not_corpus(
    tk: Tokenizer,
    params: Params,
    seed: u64,
    recs: Seq<Record>,
    scores: Seq<Vec<u64>>,
    rec: Record,
    extra: Vec<u64>,
)
    requires
        rec.role == Role::Meta,
        scores.len() == recs.len(),
    ensures
        memory::hear(tk, recs.push(rec), scores.push(extra), recs.len() as int + 1) == memory::hear(
            tk,
            recs,
            scores,
            recs.len() as int,
        ),
        memory::trained_chars(recs.push(rec), recs.len() as int + 1) == memory::trained_chars(
            recs,
            recs.len() as int,
        ),
        forall|g: Seq<u32>, n: int| #[trigger]
            memory::trained_grams(recs.push(rec), recs.len() as int + 1, g, n) == memory::trained_grams(
                recs,
                recs.len() as int,
                g,
                n,
            ),
        forall|g: Seq<u32>, n: int, c: u32| #[trigger]
            memory::trained_nexts(recs.push(rec), recs.len() as int + 1, g, n, c)
                == memory::trained_nexts(recs, recs.len() as int, g, n, c),
        eval::evaluated(recs.push(rec), params, recs.len() as int + 1) == eval::evaluated(
            recs,
            params,
            recs.len() as int,
        ),
        resumed(recs.push(rec), seed) == resumed(recs, seed),
        observe::digest_of(recs.push(rec), recs.len() as int + 1) == (observe::Digest {
            meta: observe::digest_of(recs, recs.len() as int).meta + 1,
            ..observe::digest_of(recs, recs.len() as int)
        }),
{
    let n = recs.len() as int;
    lemma_more_records(tk, recs, scores, rec, extra, n);
    lemma_more_counters(recs, rec, params, n);
    lemma_more_training(recs, rec, n, Seq::empty(), 0, 0);
    assert(recs.push(rec)[n] == rec);
    assert forall|g: Seq<u32>, m: int| #[trigger]
        memory::trained_grams(recs.push(rec), n + 1, g, m) == memory::trained_grams(
            recs,
            n,
            g,
            m,
        ) by {
        lemma_more_training(recs, rec, n, g, m, 0);
    }
    assert forall|g: Seq<u32>, m: int, c: u32| #[trigger]
        memory::trained_nexts(recs.push(rec), n + 1, g, m, c) == memory::trained_nexts(
            recs,
            n,
            g,
            m,
            c,
        ) by {
        lemma_more_training(recs, rec, n, g, m, c);
    }
}

/// A reopened stream goes on at the position that the newest line of the bot saved, and at its
/// start where it saved none or there is no such line.
pub proof fn law_the_stream_goes_on_at_the_newest_reply(recs: Seq<Record>, seed: u64, j: int)
    requires
        -1 <= j < recs.len(),
        j >= 0 ==> recs[j].role == Role::Bot,
        forall|i: int| j < i < recs.len() ==> (#[trigger] recs[i]).role != Role::Bot,
    ensures
        resumed(recs, seed).seed == seed,
        j < 0 || recs[j].rng_word_pos is None ==> resumed(recs, seed).pos == 0,
        j >= 0 ==> (recs[j].rng_word_pos matches Some(w) ==> resumed(recs, seed).pos == (w@[0] as int
            + w@[1] as int * 0x1_0000_0000_0000_0000) % rng::PERIOD as int),
{
    if j < 0 {
        log::law_no_reply_no_position(recs, recs.len() as int);
    } else {
        log::law_the_newest_reply_saves_the_position(recs, recs.len() as int, j);
    }
}

proof fn lemma_more_preferences(recs: Seq<Record>, rec: Record, k: int)
    requires
        0 <= k <= recs.len(),
    ensures
        preferences(recs.push(rec), k) == preferences(recs, k),
    decreases k,
{
    if k > 0 {
        lemma_more_preferences(recs, rec, k - 1);
        assert(recs.push(rec)[k - 1] == recs[k - 1]);
    }
}

/// The source of the last bot line is that of the newest line of the bot.
pub proof fn law_the_newest_reply_has_the_last_source(recs: Seq<Record>, k: int, j: int)
    requires
        -1 <= j < k <= recs.len(),
        j >= 0 ==> recs[j].role == Role::Bot,
        forall|i: int| j < i < k ==> (#[trigger] recs[i]).role != Role::Bot,
    ensures
        preferences(recs, k).1 == (if j < 0 {
            None
        } else {
            recs[j].path
        }),
    decreases k,
{
    if k > 0 && j < k - 1 {
        law_the_newest_reply_has_the_last_source(recs, k - 1, j);
        assert(recs[k - 1].role != Role::Bot);
    }
}

/// One more preference is one more event: it is good where it says so, and about the source it
/// names, or about the last bot line where it names none. Where neither is known it is no
/// event. A line of dialogue is none either.
pub proof fn law_a_preference_is_about_its_source(recs: Seq<Record>, rec: Record)
    ensures
        ({
            let n = recs.len() as int;
            let before = preferences(recs, n);
            let now = preferences(recs.push(rec), n + 1);
            match rec.role {
                Role::User => now == before,
                Role::Bot => now.0 == before.0 && now.1 == rec.path,
                Role::Meta => now.1 == before.1 && match (rec.path, before.1) {
                    (Some(p), _) => now.0 == before.0.push((p, rec.text@ == "good"@)),
                    (None, Some(p)) => now.0 == before.0.push((p, rec.text@ == "good"@)),
                    (None, None) => now.0 == before.0,
                },
            }
        }),
{
    lemma_more_preferences(recs, rec, recs.len() as int);
}

/// After a week or more away, the turn's mark is the reunion, with the days that went by,
/// whatever else the turn reached.
pub proof fn law_a_reunion_is_the_mark(
    before: Engine,
    after: Engine,
    rec_user: Record,
    rec_bot: Record,
    trace: Trace,
    chunks: Seq<u32>,
    tokens: Seq<u32>,
    mark: Option<Seq<char>>,
)
    requires
        before.is_concluded(after, rec_user, rec_bot, trace, chunks, tokens, mark),
        before.digest.aloof_left == 0,
        after.digest.aloof_left > 0,
        after.digest.last_gap_days >= 7,
    ensures
        mark == Some(text::digits(after.digest.last_gap_days as nat) + "日ぶり"@),
{
    milestone::law_a_reunion_is_told_once(
        before.digest.learned as int,
        before.digest.last_speech_t,
        before.digest.aloof_left,
        after.digest@,
    );
}

/// A finished turn leaves seed, stream, parameters and dictionary alone, keeps the source of the
/// reply, and is counted as its trace says: as one more turn, as a band hit where it hit the
/// band, as a slip where it slipped, and with the run that it repeats and its length.
pub proof fn law_a_turn_is_counted_as_traced(
    before: Engine,
    after: Engine,
    rec_user: Record,
    rec_bot: Record,
    trace: Trace,
    chunks: Seq<u32>,
    tokens: Seq<u32>,
    mark: Option<Seq<char>>,
)
    requires
        before.is_concluded(after, rec_user, rec_bot, trace, chunks, tokens, mark),
        before.eval.room(trace.novelty_lcs as int, tokens.len() as int),
    ensures
        after.eval.n == before.eval.n + 1,
        after.eval.band_hits == before.eval.band_hits + (if trace.band_hit {
            1int
        } else {
            0
        }),
        after.eval.slip_n == before.eval.slip_n + (if trace.slipped {
            1int
        } else {
            0
        }),
        after.eval.lcs_sum == before.eval.lcs_sum + trace.novelty_lcs,
        after.eval.lcs_len_sum == before.eval.lcs_len_sum + tokens.len(),
        after.seed == before.seed,
        after.rng == before.rng,
        after.last_path == Some(trace.path),
        after.params == before.params,
        after.triggers == before.triggers,
{
}

/// An opened engine has the parameters and the seed it was opened with, embeds in eight
/// dimensions at least, goes on where the stream stood, and has evaluated and digested the
/// whole log.
pub proof fn law_an_opened_engine_has_read_its_log(
    e: Engine,
    params: Params,
    seed: u64,
    tokenizer: Tokenizer,
    recs: Seq<Record>,
    scores: Seq<Vec<u64>>,
)
    requires
        e.is_opened(params, seed, tokenizer, recs, scores),
    ensures
        e.params == params,
        e.seed == seed,
        e.rng.seed == seed,
        e.embedder.dim >= 8,
        params.embed_dim >= 8 ==> e.embedder.dim == params.embed_dim,
        e.rng == resumed(recs, seed),
        e.eval == eval::evaluated(recs, params, recs.len() as int),
        e.digest@ == observe::digest_of(recs, recs.len() as int),
        e.memory.store.stream() == memory::corpus(
            memory::hear(tokenizer, recs, scores, recs.len() as int).1,
        ),
        !params.bidir ==> e.memory.rev_store.stream().len() == 0,
{
}

} // verus!
