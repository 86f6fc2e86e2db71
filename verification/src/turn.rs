//! One turn, step by step: the sky over it, the candidate sources in their fixed order, and
//! what comes of the chosen reply.
//!
//! The host supplies what floating-point arithmetic decides (probabilities, similarities,
//! distributions). The order in which the stream is drawn from is part of the
//! reproducibility contract.
use crate::bits;
use crate::charclass;
use crate::embed;
use crate::embed::HashEmbedder;
use crate::entropy;
use crate::ids;
use crate::ids::TokenId;
use crate::interest;
use crate::interest::InterestLedger;
use crate::intern;
use crate::memory;
use crate::memory::Memory;
use crate::nexts;
use crate::observe::Digest;
use crate::observe::LogDigest;
use crate::params::Params;
use crate::rng;
use crate::rng::Stream;
use crate::sais;
use crate::store::Store;
use crate::text;
use crate::tokenizer;
use crate::tokenizer::Tokenized;
use crate::tokenizer::Tokenizer;
use crate::weather;
use crate::weather::Gains;
use crate::weather::Weather;
use vstd::prelude::*;

verus! {

/// The day's condition over a turn. The day is the UTC day of the previous log record, never
/// the wall clock, so a reply stays a pure function of log, seed and input.
#[derive(Debug, Clone, Copy)]
pub struct Sky {
    pub day: Option<u64>,
    pub weather: Weather,
    pub aloof: bool,
    pub gains: Gains,
}

/// The weather over a turn: calm without a day, or where the weather is switched off.
pub open spec fn weather_over(params: Params, last_speech_t: Option<u64>, seed: u64) -> Weather {
    match last_speech_t {
        Some(t) if params.weather => weather::weather_of(seed, t / 86_400_000),
        _ => Weather::Calm,
    }
}

/// The sky over a turn behind a log.
pub open spec fn sky_over(params: Params, d: Digest, seed: u64) -> Sky {
    let weather = weather_over(params, d.last_speech_t, seed);
    let aloof = d.aloof_left > 0;
    Sky {
        day: match d.last_speech_t {
            Some(t) => Some((t / 86_400_000) as u64),
            None => None,
        },
        weather,
        aloof,
        gains: weather::damped(weather, aloof),
    }
}

pub fn sky(params: &Params, digest: &LogDigest, seed: u64) -> (r: Sky)
    ensures
        r == sky_over(*params, digest@, seed),
{
    let day: Option<u64> = match digest.last_speech_t {
        Some(t) => Some(weather::day_of_ms(t)),
        None => None,
    };
    let weather: Weather = if params.weather {
        match day {
            Some(d) => weather::day_weather(seed, d),
            None => Weather::Calm,
        }
    } else {
        Weather::Calm
    };
    let aloof: bool = digest.aloof_left > 0;
    let gains: Gains = weather::effective(weather, aloof);
    Sky { day, weather, aloof, gains }
}

/// The chunk is established: heard in enough distinct utterances.
pub open spec fn established(l: InterestLedger, id: u32, hearsay_min: u32) -> bool {
    l.knows(id) && l.utterances(id) >= hearsay_min
}

/// A word that may be on the bot's mind.
pub open spec fn on_mind(
    l: InterestLedger,
    v: intern::Vocab,
    hearsay_min: u32,
    w: Seq<char>,
) -> bool {
    &&& w.len() >= 2
    &&& !charclass::punct_only(w)
    &&& exists|id: u32|
        #[trigger] established(l, id, hearsay_min) && intern::text_of(v, id) == w
}

/// The words that may be on the bot's mind, in dictionary order.
pub open spec fn is_mind(
    l: InterestLedger,
    v: intern::Vocab,
    hearsay_min: u32,
    ws: Seq<Seq<char>>,
) -> bool {
    &&& text::ascending(ws)
    &&& forall|w: Seq<char>| #[trigger] ws.contains(w) <==> on_mind(l, v, hearsay_min, w)
}

/// The word on the bot's mind on a day: the one that seed and day pick from the list, or none
/// where the list is empty or the weather or the bonus is switched off.
pub open spec fn is_care(
    params: Params,
    l: InterestLedger,
    v: intern::Vocab,
    seed: u64,
    day: u64,
    r: Option<Seq<char>>,
) -> bool {
    if !params.weather || bits::key32(params.care_bonus) == 0 {
        r is None
    } else {
        exists|ws: Seq<Seq<char>>|
            {
                &&& #[trigger] is_mind(l, v, params.hearsay_min, ws)
                &&& match r {
                    Some(w) => ws.len() > 0 && w == ws[weather::mixed(
                        seed ^ weather::mixed(day ^ 0xCA9E_0000),
                    ) as int % ws.len() as int],
                    None => ws.len() == 0,
                }
            }
    }
}

/// きょうの気になる語: a deterministic pick among established (non-hearsay)
/// chunks, keyed by seed and day. Sorted by surface string so the pick
/// survives reopen (token ids drift, text does not).
pub fn care_word(params: &Params, m: &Memory, seed: u64, day: u64) -> (r: Option<String>)
    requires
        m.interest.wf(),
    ensures
        is_care(
            *params,
            m.interest,
            m.intern@,
            seed,
            day,
            match r {
                Some(w) => Some(w@),
                None => None,
            },
        ),
{
    if !params.weather || bits::order32(params.care_bonus) == 0 {
        return None;
    }
    let ids = m.interest.established(params.hearsay_min);
    let mut words: Vec<String> = Vec::new();
    let mut i: usize = 0;
    proof {
        assert(text::texts(words@) =~= Seq::<Seq<char>>::empty());
    }
    while i < ids.len()
        invariant
            i <= ids.len(),
            forall|w: Seq<char>| #[trigger]
                text::texts(words@).contains(w) <==> exists|k: int|
                    0 <= k < i && w == intern::text_of(m.intern@, #[trigger] ids[k]) && w.len() >= 2
                        && !charclass::punct_only(w),
        decreases ids.len() - i,
    {
        let s = m.intern.get(ids[i]);
        let long: bool = text::chars_of(s).len() >= 2;
        let ghost before = text::texts(words@);
        if long && !charclass::is_punct_str(s) {
            words.push(s.to_owned());
            proof {
                assert(text::texts(words@) =~= before.push(s@));
                crate::tally::lemma_push_contains(before, s@);
            }
        }
        proof {
            assert(intern::text_of(m.intern@, ids[i as int]) == s@);
        }
        i += 1;
    }
    let sorted = text::sort_words(&words);
    let ghost ws = text::views(sorted@);
    proof {
        assert forall|w: Seq<char>| #[trigger] ws.contains(w) <==> on_mind(
            m.interest,
            m.intern@,
            params.hearsay_min,
            w,
        ) by {
            assert(ws.contains(w) <==> text::texts(words@).contains(w));
            if text::texts(words@).contains(w) {
                let k = choose|k: int|
                    0 <= k < i && w == intern::text_of(m.intern@, #[trigger] ids[k]) && w.len() >= 2
                        && !charclass::punct_only(w);
                assert(ids@.contains(ids[k]));
                assert(established(m.interest, ids[k], params.hearsay_min));
            }
            if on_mind(m.interest, m.intern@, params.hearsay_min, w) {
                let id = choose|id: u32|
                    #[trigger] established(m.interest, id, params.hearsay_min) && intern::text_of(
                        m.intern@,
                        id,
                    ) == w;
                assert(ids@.contains(id));
                let k = choose|k: int| 0 <= k < ids.len() && ids[k] == id;
                assert(w == intern::text_of(m.intern@, ids[k]));
            }
        }
        assert(is_mind(m.interest, m.intern@, params.hearsay_min, ws));
    }
    if sorted.len() == 0 {
        return None;
    }
    let at: usize = weather::care_index(seed, day, sorted.len());
    Some(text::string_of(&sorted[at]))
}

/// There is one such list.
pub proof fn law_mind_is_one(
    l: InterestLedger,
    v: intern::Vocab,
    hearsay_min: u32,
    a: Seq<Seq<char>>,
    b: Seq<Seq<char>>,
)
    requires
        is_mind(l, v, hearsay_min, a),
        is_mind(l, v, hearsay_min, b),
    ensures
        a == b,
{
    text::lemma_ascending_unique(a, b);
}

/// The start of a turn.
#[derive(Debug)]
pub struct Begun {
    pub input: String,
    pub tok: Tokenized,
    /// 口をつく: hearsay chunks may anchor this turn.
    pub release: bool,
    /// きょうの気になる語.
    pub care: Option<String>,
}

/// The text of a word, where there is one.
pub open spec fn worded(w: Option<String>) -> Option<Seq<char>> {
    match w {
        Some(w) => Some(w@),
        None => None,
    }
}

/// How a turn starts: the input is cut and the topic moves, one draw decides on the release of
/// hearsay, and the day decides on the word on the bot's mind.
pub open spec fn is_begun(
    a: Memory,
    b: Memory,
    params: Params,
    dim: int,
    tk: Tokenizer,
    s: Stream,
    seed: u64,
    sky: Sky,
    input: Seq<char>,
    scores: Seq<u64>,
    p_release: u64,
    r: Begun,
) -> bool {
    let line = text::trimmed(input);
    let ms = tk.morphs(line, scores);
    let cs = tk.chunks(line, scores);
    &&& b.wf()
    &&& b == (Memory { intern: b.intern, topic: b.topic, ..a })
    &&& r.input@ == line
    &&& b.intern@ == intern::with_all(a.intern@, ms + cs)
    &&& r.tok.morphemes@ == tokenizer::ids_of(b.intern@, ms)
    &&& r.tok.chunks@ == tokenizer::ids_of(b.intern@, cs)
    &&& memory::all_known(b.intern@, r.tok.chunks@)
    &&& r.tok.chunks.len() <= line.len()
    &&& r.release == bits::roll_below(rng::roll_of(s), bits::clamped(p_release))
    &&& match sky.day {
        Some(d) => is_care(params, b.interest, b.intern@, seed, d, worded(r.care)),
        None => r.care is None,
    }
    &&& b.topic.k == a.topic.k
    &&& b.topic.dim == a.topic.dim
    &&& embed::held_bins(b.topic.window@) == memory::last_n(
        embed::held_bins(a.topic.window@).push(
            embed::fitted(embed::bins_of(line, dim), a.topic.dim as int),
        ),
        a.topic.k as int,
    )
}

/// Starts a turn: cuts the trimmed input, draws once for the release of hearsay, finds the
/// word on the bot's mind, and moves the topic. `p_release` is the bit pattern of the
/// weather-scaled rate.
pub fn begin(
    m: &mut Memory,
    params: &Params,
    embedder: &HashEmbedder,
    tk: &Tokenizer,
    rng: &mut Stream,
    seed: u64,
    sky: &Sky,
    input: &str,
    scores: &Vec<u64>,
    p_release: u64,
) -> (r: Begun)
    requires
        old(m).wf(),
        tk.wf(),
        embedder.wf(),
        old(rng).wf(),
        input@.len() < 0x1000_0000_0000_0000,
        old(m).intern@.strings.len() + 2 * text::trimmed(input@).len() < u32::MAX - 1,
    ensures
        final(rng).wf(),
        final(rng).seed == old(rng).seed,
        final(rng).pos == rng::after(old(rng).pos, 1),
        is_begun(
            *old(m),
            *final(m),
            *params,
            embedder.dim as int,
            *tk,
            *old(rng),
            seed,
            *sky,
            input@,
            scores@,
            p_release,
            r,
        ),
{
    let trimmed = text::trim(input);
    proof {
        text::lemma_trimmed_len(input@);
    }
    let tok = tk.tokenize(&mut m.intern, trimmed.as_str(), scores);
    let roll: u64 = rng.rand_53();
    let p: u64 = bits::clamp_unit(p_release);
    let release: bool = bits::roll_is_below(roll, p);
    let care: Option<String> = match sky.day {
        Some(d) => care_word(params, m, seed, d),
        None => None,
    };
    let bins = embedder.embed(trimmed.as_str());
    let ghost window = embed::held_bins(m.topic.window@);
    m.topic.push(&bins);
    proof {
        assert(embed::held_bins(m.topic.window@) =~= memory::last_n(
            window.push(embed::fitted(bins@, old(m).topic.dim as int)),
            old(m).topic.k as int,
        ));
    }
    Begun { input: trimmed, tok, release, care }
}

/// The topic window of a live session is that of a replay: it holds the newest user inputs.
pub proof fn law_topic_matches_replay(
    params: Params,
    dim: int,
    a: Memory,
    b: Memory,
    users: Seq<Seq<char>>,
    input: Seq<char>,
)
    requires
        a.follows_topic(params, dim, users),
        b.topic.k == a.topic.k,
        b.topic.dim == a.topic.dim,
        embed::held_bins(b.topic.window@) == memory::last_n(
            embed::held_bins(a.topic.window@).push(
                embed::fitted(embed::bins_of(input, dim), a.topic.dim as int),
            ),
            a.topic.k as int,
        ),
    ensures
        b.follows_topic(params, dim, users.push(input)),
{
    let k = memory::topic_span(params);
    let width = params.embed_dim as int;
    let one = seq![input];
    memory::law_trim_again(users, one, k);
    let kept = memory::last_n(users, k);
    assert(kept + one =~= kept.push(input));
    assert(users + one =~= users.push(input));
    assert(memory::last_n(
        memory::topic_bins(kept, dim, width).push(
            embed::fitted(embed::bins_of(input, dim), width),
        ),
        k,
    ) =~= memory::topic_bins(memory::last_n(kept.push(input), k), dim, width));
}

// ---- what comes of a reply ----
/// The `l` tokens from `i` on hold no special one, and stand in the corpus.
pub open spec fn is_corpus_run(
    body: Seq<u32>,
    buf: Seq<u32>,
    toks: Seq<u32>,
    i: int,
    l: int,
) -> bool {
    &&& 0 <= i
    &&& 0 <= l
    &&& i + l <= toks.len()
    &&& forall|k: int| i <= k < i + l ==> !ids::special(#[trigger] toks[k])
    &&& l > 0 ==> stands(body, buf, toks.subrange(i, i + l))
}

/// A run stands in the corpus.
pub open spec fn stands(body: Seq<u32>, buf: Seq<u32>, run: Seq<u32>) -> bool {
    nexts::occurs_in(body, run) || nexts::occurs_in(buf, run)
}

/// `r` is the length of the longest run of the tokens that stands in the corpus.
pub open spec fn is_longest_corpus_run(
    body: Seq<u32>,
    buf: Seq<u32>,
    toks: Seq<u32>,
    r: int,
) -> bool {
    &&& exists|i: int| #[trigger] is_corpus_run(body, buf, toks, i, r)
    &&& forall|i: int, l: int| #[trigger] is_corpus_run(body, buf, toks, i, l) ==> l <= r
}

proof fn lemma_prefix_occurs(body: Seq<u32>, run: Seq<u32>, k: int)
    requires
        nexts::occurs_in(body, run),
        0 <= k <= run.len(),
    ensures
        nexts::occurs_in(body, run.subrange(0, k)),
{
    let i = choose|i: int| 0 <= i && #[trigger] sais::starts_with(body, i, run);
    let p = run.subrange(0, k);
    assert(body.subrange(i, i + k) =~= body.subrange(i, i + run.len()).subrange(0, k));
    assert(sais::starts_with(body, i, p));
}

proof fn lemma_shorter_run(body: Seq<u32>, buf: Seq<u32>, toks: Seq<u32>, i: int, l: int, k: int)
    requires
        is_corpus_run(body, buf, toks, i, l),
        0 <= k <= l,
    ensures
        is_corpus_run(body, buf, toks, i, k),
{
    if k > 0 {
        let run = toks.subrange(i, i + l);
        assert(toks.subrange(i, i + k) =~= run.subrange(0, k));
        if nexts::occurs_in(body, run) {
            lemma_prefix_occurs(body, run, k);
        } else {
            lemma_prefix_occurs(buf, run, k);
        }
    }
}

/// Longest run of the tokens occurring anywhere in the corpus. Utterances are
/// wrapped in marks and chunk runs never contain specials, so an
/// occurrence cannot cross an utterance boundary.
pub fn longest_corpus_run(store: &Store, toks: &Vec<TokenId>) -> (r: usize)
    requires
        store.wf(),
    ensures
        is_longest_corpus_run(store.text@, store.buf@, toks@, r as int),
        r <= toks.len(),
{
    let ghost body = store.text@;
    let ghost buf = store.buf@;
    let mut best: usize = 0;
    let mut i: usize = 0;
    proof {
        assert(is_corpus_run(body, buf, toks@, 0, 0));
    }
    while i < toks.len()
        invariant
            store.wf(),
            body == store.text@,
            buf == store.buf@,
            i <= toks.len(),
            best <= toks.len(),
            exists|p: int| #[trigger] is_corpus_run(body, buf, toks@, p, best as int),
            forall|p: int, l: int|
                p < i && #[trigger] is_corpus_run(body, buf, toks@, p, l) ==> l <= best,
        decreases toks.len() - i,
    {
        let mut l: usize = 0;
        let mut going: bool = true;
        proof {
            assert(is_corpus_run(body, buf, toks@, i as int, 0));
        }
        while going && l < toks.len() - i
            invariant
                store.wf(),
                    body == store.text@,
                buf == store.buf@,
                i < toks.len(),
                l <= toks.len() - i,
                is_corpus_run(body, buf, toks@, i as int, l as int),
                !going ==> !is_corpus_run(body, buf, toks@, i as int, l + 1),
            decreases
                toks.len() - i - l,
                (if going {
                    1nat
                } else {
                    0nat
                }),
        {
            let clean: bool = !ids::is_special(toks[i + l]);
            let run = entropy::run_of(toks, i, i + l + 1);
            if clean && store.contains_seq(run.as_slice()) {
                proof {
                    assert(is_corpus_run(body, buf, toks@, i as int, l + 1));
                }
                l += 1;
            } else {
                proof {
                    if is_corpus_run(body, buf, toks@, i as int, l + 1) {
                        assert(!ids::special(toks@[i + l]));
                    }
                }
                going = false;
            }
        }
        let ghost was = best;
        proof {
            assert forall|p: int, k: int|
                p < i + 1 && #[trigger] is_corpus_run(body, buf, toks@, p, k) implies k <= was || k
                <= l by {
                if p == i && k > l {
                    lemma_shorter_run(body, buf, toks@, p, k, l + 1);
                }
            }
        }
        if l > best {
            best = l;
        }
        i += 1;
    }
    proof {
        assert forall|p: int, l: int| #[trigger] is_corpus_run(body, buf, toks@, p, l) implies l
            <= best by {
            if p >= toks.len() {
                assert(l <= 0);
            }
        }
    }
    best
}

/// What is drawn for a reply.
#[derive(Debug)]
pub struct Verdict {
    /// In units of 2^-53.
    pub learn_roll: u64,
    pub learned: bool,
    /// An empty chunk list absorbs nothing, so its record must not claim absorption either.
    pub learned_user: bool,
    pub learned_bot: bool,
    /// 合いの手: a short learned line printed before the reply. Display only.
    pub interject: Option<String>,
}

/// An interjection may come: the rate is not zero and the bank is live.
pub open spec fn may_interject(params: Params, m: Memory) -> bool {
    bits::positive64(params.interject_rate) && m.interjects.items.len()
        >= crate::interject::MIN_DISTINCT
}

/// Replies of up to this many characters take no interjection.
pub const SHORT_REPLY: usize = 4;

/// An interjection comes: it may, the roll is below the rate, and the reply is not itself as
/// short as one.
pub open spec fn interjects(params: Params, m: Memory, reply: Seq<char>, p: u64, roll: int) -> bool {
    may_interject(params, m) && bits::roll_below(roll, bits::clamped(p)) && reply.len() > SHORT_REPLY
}

/// The interjection that a draw falls on, unless it is the reply itself.
pub open spec fn is_interjection(m: Memory, d: int, reply: Seq<char>, r: Option<Seq<char>>) -> bool {
    let bank = crate::interject::held(m.interjects.items@);
    exists|i: int|
        {
            &&& #[trigger] crate::interject::falls_on(bank, d, i)
            &&& match r {
                Some(s) => s == bank[i].0 && s != reply,
                None => bank[i].0 == reply,
            }
        }
}

/// A draw falls on one interjection.
pub proof fn lemma_one_interjection(
    m: Memory,
    d: int,
    reply: Seq<char>,
    a: Option<Seq<char>>,
    b: Option<Seq<char>>,
)
    requires
        m.interjects.wf(),
        is_interjection(m, d, reply, a),
        is_interjection(m, d, reply, b),
    ensures
        a == b,
{
    let bank = crate::interject::held(m.interjects.items@);
    let i = choose|i: int|
        {
            &&& #[trigger] crate::interject::falls_on(bank, d, i)
            &&& match a {
                Some(s) => s == bank[i].0 && s != reply,
                None => bank[i].0 == reply,
            }
        };
    let j = choose|j: int|
        {
            &&& #[trigger] crate::interject::falls_on(bank, d, j)
            &&& match b {
                Some(s) => s == bank[j].0 && s != reply,
                None => bank[j].0 == reply,
            }
        };
    crate::interject::law_draw_falls_once(bank, d, i, j);
}

/// What is interjected before a reply from a stream, and where that leaves it: one roll when
/// the bank is live, one pick when the roll fires.
pub open spec fn interjected(
    params: Params,
    m: Memory,
    reply: Seq<char>,
    p: u64,
    s: Stream,
    r: Option<Seq<char>>,
    end: u128,
) -> bool {
    let next = rng::moved(s, rng::after(s.pos, 1));
    if !may_interject(params, m) {
        end == s.pos && r is None
    } else if !interjects(params, m, reply, p, rng::roll_of(s)) {
        end == next.pos && r is None
    } else {
        let d = rng::drawn(next, m.interjects.total as int);
        end == d.1 && is_interjection(m, d.0, reply, r)
    }
}

/// Draws for a reply: whether the turn is absorbed, then whether something is interjected and
/// what. Consumption is fixed: one roll when the bank is live, one pick when the roll fires.
/// `p_interject` is the bit pattern of the weather-scaled rate.
pub fn decide(
    m: &Memory,
    params: &Params,
    rng: &mut Stream,
    chunks: &Vec<TokenId>,
    reply: &String,
    tokens: &Vec<TokenId>,
    p_interject: u64,
) -> (r: Verdict)
    requires
        m.wf(),
        m.interjects.total <= usize::MAX,
        old(rng).wf(),
    ensures
        final(rng).wf(),
        final(rng).seed == old(rng).seed,
        r.learn_roll == rng::roll_of(*old(rng)),
        r.learned == bits::roll_below(r.learn_roll as int, bits::clamped(params.p_learn)),
        r.learned_user == (r.learned && chunks.len() > 0),
        r.learned_bot == (r.learned && tokens.len() > 0),
        interjected(
            *params,
            *m,
            reply@,
            p_interject,
            rng::moved(*old(rng), rng::after(old(rng).pos, 1)),
            match r.interject {
                Some(s) => Some(s@),
                None => None,
            },
            final(rng).pos,
        ),
{
    let ghost s0 = *rng;
    let learn_roll: u64 = rng.rand_53();
    let p_learn: u64 = bits::clamp_unit(params.p_learn);
    let learned: bool = bits::roll_is_below(learn_roll, p_learn);
    let ghost s1 = *rng;
    let mut interject: Option<String> = None;
    if bits::is_positive64(params.interject_rate) && m.interjects.distinct()
        >= crate::interject::MIN_DISTINCT {
        let roll: u64 = rng.rand_53();
        let p: u64 = bits::clamp_unit(p_interject);
        let ghost s2 = *rng;
        proof {
            assert(s1 == rng::moved(s0, rng::after(s0.pos, 1)));
            assert(s2 == rng::moved(s1, rng::after(s1.pos, 1)));
        }
        let long: bool = text::chars_of(reply.as_str()).len() > SHORT_REPLY;
        if bits::roll_is_below(roll, p) && long {
            interject = m.interjects.pick(rng, reply.as_str());
        }
    }
    Verdict {
        learn_roll,
        learned,
        learned_user: learned && chunks.len() > 0,
        learned_bot: learned && tokens.len() > 0,
        interject,
    }
}

/// The day is that of the last line, and the weather that of the day. Without a line, or with
/// the weather switched off, it is calm. A distant bot has its dials damped.
pub proof fn law_the_last_line_sets_the_sky(params: Params, d: Digest, seed: u64)
    ensures
        d.last_speech_t is None ==> sky_over(params, d, seed).day is None && sky_over(
            params,
            d,
            seed,
        ).weather == Weather::Calm,
        d.last_speech_t matches Some(t) ==> {
            let sky = sky_over(params, d, seed);
            match sky.day {
                Some(day) => {
                    &&& day * 86_400_000 <= t < (day + 1) * 86_400_000
                    &&& params.weather ==> sky.weather == weather::weather_of(seed, day)
                },
                None => false,
            }
        },
        !params.weather ==> sky_over(params, d, seed).weather == Weather::Calm,
        sky_over(params, d, seed).aloof <==> d.aloof_left != 0,
        d.aloof_left == 0 ==> sky_over(params, d, seed).gains == weather::dials(
            sky_over(params, d, seed).weather,
        ),
        d.aloof_left > 0 ==> sky_over(params, d, seed).gains == weather::damped(
            sky_over(params, d, seed).weather,
            true,
        ),
{
}

/// The word on the bot's mind is the one that seed and day pick from those it may be, in
/// dictionary order. It has two characters or more, not only punctuation, and was heard
/// in as many utterances as it takes to be no hearsay. There is one wherever such a word is
/// known, unless the weather or the bonus is switched off; then there is none.
pub proof fn law_the_word_on_the_mind_is_established(
    params: Params,
    l: InterestLedger,
    v: intern::Vocab,
    seed: u64,
    day: u64,
    r: Option<Seq<char>>,
    id: u32,
    ws: Seq<Seq<char>>,
)
    requires
        is_care(params, l, v, seed, day, r),
        is_mind(l, v, params.hearsay_min, ws),
    ensures
        r matches Some(w) ==> w == ws[weather::mixed(seed ^ weather::mixed(day ^ 0xCA9E_0000)) as int
            % ws.len() as int],
        !params.weather ==> r is None,
        bits::key32(params.care_bonus) == 0 ==> r is None,
        r matches Some(w) ==> {
            &&& w.len() >= 2
            &&& exists|c: int|
                0 <= c < w.len() && charclass::class_of(#[trigger] w[c]) != charclass::Class::Punct
            &&& exists|j: u32|
                l.knows(j) && #[trigger] l.utterances(j) >= params.hearsay_min && intern::text_of(
                    v,
                    j,
                ) == w
        },
        params.weather && bits::key32(params.care_bonus) != 0 && l.knows(id) && l.utterances(id)
            >= params.hearsay_min && intern::text_of(v, id).len() >= 2 && !charclass::punct_only(
            intern::text_of(v, id),
        ) ==> r is Some,
{
    if params.weather && bits::key32(params.care_bonus) != 0 {
        let xs = choose|xs: Seq<Seq<char>>|
            {
                &&& #[trigger] is_mind(l, v, params.hearsay_min, xs)
                &&& match r {
                    Some(w) => xs.len() > 0 && w == xs[weather::mixed(
                        seed ^ weather::mixed(day ^ 0xCA9E_0000),
                    ) as int % xs.len() as int],
                    None => xs.len() == 0,
                }
            };
        law_mind_is_one(l, v, params.hearsay_min, ws, xs);
        if let Some(w) = r {
            assert(ws.contains(w));
            assert(on_mind(l, v, params.hearsay_min, w));
            let j = choose|j: u32|
                #[trigger] established(l, j, params.hearsay_min) && intern::text_of(v, j) == w;
            assert(l.utterances(j) >= params.hearsay_min);
        }
        if established(l, id, params.hearsay_min) && intern::text_of(v, id).len() >= 2
            && !charclass::punct_only(intern::text_of(v, id)) {
            assert(on_mind(l, v, params.hearsay_min, intern::text_of(v, id)));
            assert(ws.contains(intern::text_of(v, id)));
        }
    }
}

/// What is interjected stands in the bank, is not the reply itself, and comes before replies
/// of more than four characters only; it takes a rate above zero, three different lines in the
/// bank and a roll below the rate.
pub proof fn law_interjections_are_learned_lines(
    params: Params,
    m: Memory,
    reply: Seq<char>,
    p: u64,
    s: Stream,
    r: Option<Seq<char>>,
    end: u128,
)
    requires
        interjected(params, m, reply, p, s, r, end),
    ensures
        r matches Some(line) ==> {
            &&& line != reply
            &&& reply.len() >= 5
            &&& m.interjects.items.len() >= 3
            &&& !bits::nan64(params.interject_rate)
            &&& bits::key64(params.interject_rate) > 0
            &&& bits::roll_below(rng::roll_of(s), bits::clamped(p))
            &&& exists|i: int|
                0 <= i < m.interjects.items.len() && (#[trigger] m.interjects.items[i]).0@ == line
        },
        m.interjects.items.len() < 3 || bits::key64(params.interject_rate) <= 0 ==> end == s.pos,
        m.interjects.items.len() >= 3 && bits::positive64(params.interject_rate) && (reply.len() <= 4
            || !bits::roll_below(rng::roll_of(s), bits::clamped(p))) ==> end == rng::after(s.pos, 1),
{
    if let Some(line) = r {
        let next = rng::moved(s, rng::after(s.pos, 1));
        let d = rng::drawn(next, m.interjects.total as int);
        let bank = crate::interject::held(m.interjects.items@);
        let i = choose|i: int|
            {
                &&& #[trigger] crate::interject::falls_on(bank, d.0, i)
                &&& match r {
                    Some(s) => s == bank[i].0 && s != reply,
                    None => bank[i].0 == reply,
                }
            };
        assert(m.interjects.items[i].0@ == line);
    }
}

/// Where the roll fires before a long enough reply, the line that the draw falls on is
/// interjected, unless it is the reply.
pub proof fn law_a_roll_below_the_rate_interjects(
    params: Params,
    m: Memory,
    reply: Seq<char>,
    p: u64,
    s: Stream,
    r: Option<Seq<char>>,
    end: u128,
)
    requires
        interjected(params, m, reply, p, s, r, end),
        m.interjects.items.len() >= 3,
        bits::positive64(params.interject_rate),
        bits::roll_below(rng::roll_of(s), bits::clamped(p)),
        reply.len() > 4,
        forall|i: int|
            0 <= i < m.interjects.items.len() ==> (#[trigger] m.interjects.items[i]).0@ != reply,
    ensures
        r is Some,
{
    if r is None {
        let next = rng::moved(s, rng::after(s.pos, 1));
        let d = rng::drawn(next, m.interjects.total as int);
        let bank = crate::interject::held(m.interjects.items@);
        let i = choose|i: int|
            {
                &&& #[trigger] crate::interject::falls_on(bank, d.0, i)
                &&& match r {
                    Some(s) => s == bank[i].0 && s != reply,
                    None => bank[i].0 == reply,
                }
            };
        assert(m.interjects.items[i].0@ != reply);
    }
}

/// A run of plain tokens that stands somewhere in the corpus is no longer than the longest, and
/// the longest is no longer than the reply. A reply copied whole is its own longest run.
pub proof fn law_copies_are_found(
    body: Seq<u32>,
    buf: Seq<u32>,
    toks: Seq<u32>,
    r: int,
    i: int,
    l: int,
    at: int,
)
    requires
        is_longest_corpus_run(body, buf, toks, r),
        0 <= i,
        0 < l,
        i + l <= toks.len(),
        forall|k: int| i <= k < i + l ==> #[trigger] toks[k] >= 16,
        0 <= at,
        (at + l <= body.len() && body.subrange(at, at + l) == toks.subrange(i, i + l)) || (at + l
            <= buf.len() && buf.subrange(at, at + l) == toks.subrange(i, i + l)),
    ensures
        l <= r <= toks.len(),
{
    let run = toks.subrange(i, i + l);
    if at + l <= body.len() && body.subrange(at, at + l) == run {
        assert(sais::starts_with(body, at, run));
    } else {
        assert(sais::starts_with(buf, at, run));
    }
    assert(is_corpus_run(body, buf, toks, i, l));
    let j = choose|j: int| #[trigger] is_corpus_run(body, buf, toks, j, r);
    assert(is_corpus_run(body, buf, toks, j, r));
}

/// What is not in the corpus is no copy: where the longest run has tokens, they stand there in
/// this order, and none of them is special.
pub proof fn law_found_copies_stand_in_the_corpus(
    body: Seq<u32>,
    buf: Seq<u32>,
    toks: Seq<u32>,
    r: int,
)
    requires
        is_longest_corpus_run(body, buf, toks, r),
        r > 0,
    ensures
        exists|i: int, at: int|
            {
                &&& 0 <= i
                &&& i + r <= toks.len()
                &&& 0 <= at
                &&& (at + r <= body.len() && #[trigger] body.subrange(at, at + r)
                    == #[trigger] toks.subrange(i, i + r)) || (at + r <= buf.len() && buf.subrange(
                    at,
                    at + r,
                ) == toks.subrange(i, i + r))
                &&& forall|k: int| i <= k < i + r ==> #[trigger] toks[k] >= 16
            },
{
    let i = choose|i: int| #[trigger] is_corpus_run(body, buf, toks, i, r);
    let run = toks.subrange(i, i + r);
    if nexts::occurs_in(body, run) {
        let at = choose|at: int| 0 <= at && #[trigger] sais::starts_with(body, at, run);
        assert(body.subrange(at, at + r) =~= run);
    } else {
        let at = choose|at: int| 0 <= at && #[trigger] sais::starts_with(buf, at, run);
        assert(buf.subrange(at, at + r) =~= run);
        assert(body.subrange(at, at + r) == body.subrange(at, at + r));
    }
}

/// A turn starts with the trimmed input: its chunks read back as what the tokenizer cut, the
/// topic has it as its newest text, and nothing else of the memory moves. Hearsay is released
/// where the draw is below the rate.
pub proof fn law_a_turn_starts_with_its_input(
    a: Memory,
    b: Memory,
    params: Params,
    dim: int,
    tk: Tokenizer,
    s: Stream,
    seed: u64,
    sky: Sky,
    input: Seq<char>,
    scores: Seq<u64>,
    p_release: u64,
    r: Begun,
    i: int,
)
    requires
        is_begun(a, b, params, dim, tk, s, seed, sky, input, scores, p_release, r),
        a.wf(),
        a.topic.wf(),
        a.intern@.strings.len() + tk.morphs(text::trimmed(input), scores).len() + tk.chunks(
            text::trimmed(input),
            scores,
        ).len() <= u32::MAX,
        0 <= i < r.tok.chunks.len(),
    ensures
        r.input@ == text::trimmed(input),
        r.tok.chunks.len() == tk.chunks(text::trimmed(input), scores).len(),
        intern::text_of(b.intern@, r.tok.chunks[i]) == tk.chunks(text::trimmed(input), scores)[i],
        b.store == a.store,
        b.rev_store == a.rev_store,
        b.bots == a.bots,
        b.pairs == a.pairs,
        b.interest == a.interest,
        b.interjects == a.interjects,
        b.history == a.history,
        b.topic.window.len() >= 1,
        b.topic.window@.last()@ == embed::fitted(
            embed::bins_of(text::trimmed(input), dim),
            a.topic.dim as int,
        ),
        r.release <==> bits::roll_below(rng::roll_of(s), bits::clamped(p_release)),
        sky.day is None ==> r.care is None,
{
    let line = text::trimmed(input);
    let ms = tk.morphs(line, scores);
    let cs = tk.chunks(line, scores);
    let all = ms + cs;
    tokenizer::law_ids_read_back(a.intern@, all, ms.len() + i);
    assert(all[ms.len() + i] == cs[i]);
    assert(tokenizer::ids_of(b.intern@, cs)[i] == tokenizer::ids_of(b.intern@, all)[ms.len() + i]);
    let held = embed::held_bins(a.topic.window@).push(
        embed::fitted(embed::bins_of(line, dim), a.topic.dim as int),
    );
    assert(memory::last_n(held, a.topic.k as int).last() == held.last());
    assert(embed::held_bins(b.topic.window@).last() == held.last());
    assert(embed::held_bins(b.topic.window@).len() == b.topic.window.len());
}

} // verus!
