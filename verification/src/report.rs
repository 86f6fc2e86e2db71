//! What can be read off an engine: stats, the record of the individual, notes and feedback.
use crate::bits;
use crate::charclass;
use crate::engine::Engine;
use crate::explain;
use crate::explain::PathKind;
use crate::explain::Trace;
use crate::explain::TraceNumbers;
use crate::ids::FIRST_USER;
use crate::ids::TokenId;
use crate::intern;
use crate::intern::Interner;
use crate::log::Record;
use crate::milestone;
use crate::observe;
use crate::observe::LogDigest;
use crate::params::Params;
use crate::tally;
use crate::text;
use crate::turn;
use crate::turn::Sky;
use crate::weather;
use crate::weather::Weather;
use vstd::prelude::*;

verus! {

#[derive(Debug, Clone, Copy)]
pub struct Stats {
    pub utterances: usize,
    pub learned: usize,
    pub tokens: usize,
    pub vocab: usize,
    pub buf: usize,
    pub topic_window: usize,
    pub episodic: usize,
    pub meta: usize,
    pub hist: usize,
}

pub fn stats(e: &Engine) -> (r: Stats)
    requires
        e.wf(),
    ensures
        r.utterances == e.digest.speech,
        r.learned == e.digest.learned,
        r.tokens == e.memory.store.stream().len(),
        r.vocab == e.memory.intern@.strings.len() - FIRST_USER,
        r.buf == e.memory.store.buf.len(),
        r.topic_window == e.memory.topic.window.len(),
        r.episodic == e.digest.speech,
        r.meta == e.digest.meta,
        r.hist == e.memory.history.len(),
{
    Stats {
        utterances: e.digest.speech,
        learned: e.digest.learned,
        tokens: e.memory.store.len(),
        vocab: e.memory.intern.vocab_user(),
        buf: e.memory.store.buf.len(),
        topic_window: e.memory.topic.len(),
        episodic: e.digest.speech,
        meta: e.digest.meta,
        hist: e.memory.history.len(),
    }
}

// ---- interests ----
/// The word at `i` comes before that at `j`: by falling score, then in dictionary order.
pub open spec fn ahead(
    v: intern::Vocab,
    ids: Seq<u32>,
    scores: Seq<u32>,
    i: int,
    j: int,
) -> bool {
    bits::key32(scores[i]) > bits::key32(scores[j]) || (bits::key32(scores[i]) == bits::key32(
        scores[j],
    ) && text::word_lt(intern::text_of(v, ids[i]), intern::text_of(v, ids[j])))
}

/// An order with one more word put in, behind the last that it is not ahead of.
pub open spec fn slotted(
    v: intern::Vocab,
    ids: Seq<u32>,
    scores: Seq<u32>,
    order: Seq<usize>,
    x: usize,
) -> Seq<usize>
    decreases order.len(),
{
    if order.len() == 0 || !ahead(v, ids, scores, x as int, order.last() as int) {
        order.push(x)
    } else {
        slotted(v, ids, scores, order.drop_last(), x).push(order.last())
    }
}

/// The order of the first `k` words, without those that are only punctuation.
pub open spec fn word_order(v: intern::Vocab, ids: Seq<u32>, scores: Seq<u32>, k: int) -> Seq<usize>
    decreases k,
{
    if k <= 0 {
        Seq::empty()
    } else if charclass::punct_only(intern::text_of(v, ids[k - 1])) {
        word_order(v, ids, scores, k - 1)
    } else {
        slotted(v, ids, scores, word_order(v, ids, scores, k - 1), (k - 1) as usize)
    }
}

/// The word at `i` stands in front of that at `j`: it is ahead, or neither is and it comes
/// first.
pub open spec fn in_front(
    v: intern::Vocab,
    ids: Seq<u32>,
    scores: Seq<u32>,
    i: int,
    j: int,
) -> bool {
    ahead(v, ids, scores, i, j) || (!ahead(v, ids, scores, j, i) && i < j)
}

/// Whatever stands between two words is behind the first or in front of the second.
proof fn lemma_ahead_splits(
    v: intern::Vocab,
    ids: Seq<u32>,
    scores: Seq<u32>,
    i: int,
    j: int,
    k: int,
)
    requires
        ahead(v, ids, scores, i, j),
    ensures
        ahead(v, ids, scores, i, k) || ahead(v, ids, scores, k, j),
{
    let a = intern::text_of(v, ids[i]);
    let b = intern::text_of(v, ids[j]);
    let c = intern::text_of(v, ids[k]);
    if text::word_lt(a, b) && !text::word_lt(a, c) && !text::word_lt(c, b) {
        if a == c {
        } else {
            text::lemma_word_total(a, c);
            text::lemma_word_trans(c, a, b);
        }
    }
}

proof fn lemma_ahead_one_way(v: intern::Vocab, ids: Seq<u32>, scores: Seq<u32>, i: int, j: int)
    requires
        ahead(v, ids, scores, i, j),
    ensures
        !ahead(v, ids, scores, j, i),
{
    let a = intern::text_of(v, ids[i]);
    let b = intern::text_of(v, ids[j]);
    if a == b {
        text::lemma_word_irreflexive(a);
    } else {
        text::lemma_word_total(a, b);
    }
}

/// Putting a word in keeps the order.
proof fn lemma_slotted(
    v: intern::Vocab,
    ids: Seq<u32>,
    scores: Seq<u32>,
    order: Seq<usize>,
    x: usize,
)
    requires
        forall|i: int, j: int|
            0 <= i < j < order.len() ==> in_front(
                v,
                ids,
                scores,
                #[trigger] order[i] as int,
                #[trigger] order[j] as int,
            ),
        forall|i: int| 0 <= i < order.len() ==> #[trigger] order[i] < x,
    ensures
        ({
            let r = slotted(v, ids, scores, order, x);
            &&& forall|i: int, j: int|
                0 <= i < j < r.len() ==> in_front(
                    v,
                    ids,
                    scores,
                    #[trigger] r[i] as int,
                    #[trigger] r[j] as int,
                )
            &&& forall|y: usize| #[trigger] r.contains(y) <==> order.contains(y) || y == x
        }),
    decreases order.len(),
{
    let r = slotted(v, ids, scores, order, x);
    if order.len() == 0 || !ahead(v, ids, scores, x as int, order.last() as int) {
        tally::lemma_push_contains(order, x);
        assert forall|i: int, j: int| 0 <= i < j < r.len() implies in_front(
            v,
            ids,
            scores,
            #[trigger] r[i] as int,
            #[trigger] r[j] as int,
        ) by {
            if j == order.len() {
                let (y, l) = (order[i] as int, order.last() as int);
                if ahead(v, ids, scores, x as int, y) {
                    lemma_ahead_splits(v, ids, scores, x as int, y, l);
                    assert(i < order.len() - 1);
                    assert(in_front(v, ids, scores, y, order[order.len() - 1] as int));
                    if ahead(v, ids, scores, y, l) {
                        lemma_ahead_one_way(v, ids, scores, y, l);
                    }
                }
            }
        }
    } else {
        let front = order.drop_last();
        let l = order.last();
        assert forall|i: int, j: int| 0 <= i < j < front.len() implies in_front(
            v,
            ids,
            scores,
            #[trigger] front[i] as int,
            #[trigger] front[j] as int,
        ) by {
            assert(in_front(v, ids, scores, order[i] as int, order[j] as int));
        }
        lemma_slotted(v, ids, scores, front, x);
        let s = slotted(v, ids, scores, front, x);
        tally::lemma_push_contains(s, l);
        tally::lemma_push_contains(front, l);
        assert(order =~= front.push(l));
        assert forall|i: int, j: int| 0 <= i < j < r.len() implies in_front(
            v,
            ids,
            scores,
            #[trigger] r[i] as int,
            #[trigger] r[j] as int,
        ) by {
            if j == s.len() {
                assert(s.contains(s[i]));
                if s[i] != x {
                    assert(front.contains(s[i]));
                    let p = choose|p: int| 0 <= p < front.len() && front[p] == s[i];
                    assert(in_front(
                        v,
                        ids,
                        scores,
                        order[p] as int,
                        order[order.len() - 1] as int,
                    ));
                }
            } else {
                assert(in_front(v, ids, scores, s[i] as int, s[j] as int));
            }
        }
    }
}

/// The interests stand in order, by falling score and then as in a dictionary, and each word
/// that is not only punctuation is listed once.
pub proof fn law_word_order_is_sorted(v: intern::Vocab, ids: Seq<u32>, scores: Seq<u32>, k: int)
    requires
        0 <= k <= ids.len() <= usize::MAX,
    ensures
        ({
            let order = word_order(v, ids, scores, k);
            &&& forall|i: int, j: int|
                0 <= i < j < order.len() ==> in_front(
                    v,
                    ids,
                    scores,
                    #[trigger] order[i] as int,
                    #[trigger] order[j] as int,
                )
            &&& forall|i: int, j: int|
                0 <= i < j < order.len() ==> #[trigger] order[i] != #[trigger] order[j]
            &&& forall|y: usize| #[trigger]
                order.contains(y) <==> y < k && !charclass::punct_only(
                    intern::text_of(v, ids[y as int]),
                )
        }),
    decreases k,
{
    let order = word_order(v, ids, scores, k);
    if k > 0 {
        let before = word_order(v, ids, scores, k - 1);
        law_word_order_is_sorted(v, ids, scores, k - 1);
        if !charclass::punct_only(intern::text_of(v, ids[k - 1])) {
            assert forall|i: int| 0 <= i < before.len() implies #[trigger] before[i] < k - 1 by {
                assert(before.contains(before[i]));
            }
            lemma_slotted(v, ids, scores, before, (k - 1) as usize);
        }
    }
    assert forall|i: int, j: int| 0 <= i < j < order.len() implies #[trigger] order[i]
        != #[trigger] order[j] by {
        assert(in_front(v, ids, scores, order[i] as int, order[j] as int));
        if order[i] == order[j] {
            if ahead(v, ids, scores, order[i] as int, order[j] as int) {
                lemma_ahead_one_way(v, ids, scores, order[i] as int, order[j] as int);
            }
        }
    }
}

/// How many interests are shown.
pub const TOP: usize = 5;

/// The leading words of an order.
pub open spec fn leading(order: Seq<usize>) -> Seq<usize> {
    if order.len() > TOP {
        order.take(TOP as int)
    } else {
        order
    }
}

fn is_ahead(intern: &Interner, ids: &Vec<TokenId>, scores: &Vec<u32>, i: usize, j: usize) -> (r: bool)
    requires
        i < ids.len(),
        j < ids.len(),
        scores.len() == ids.len(),
    ensures
        r == ahead(intern@, ids@, scores@, i as int, j as int),
{
    let a: i64 = bits::order32(scores[i]);
    let b: i64 = bits::order32(scores[j]);
    if a > b {
        return true;
    }
    a == b && text::word_before(
        &text::chars_of(intern.get(ids[i])),
        &text::chars_of(intern.get(ids[j])),
    )
}

fn slot(intern: &Interner, ids: &Vec<TokenId>, scores: &Vec<u32>, order: &mut Vec<usize>, x: usize)
    requires
        x < ids.len(),
        scores.len() == ids.len(),
        forall|k: int| 0 <= k < old(order).len() ==> #[trigger] old(order)[k] < ids.len(),
    ensures
        final(order)@ == slotted(intern@, ids@, scores@, old(order)@, x),
        forall|k: int| 0 <= k < final(order).len() ==> #[trigger] final(order)[k] < ids.len(),
{
    let ghost v = intern@;
    let ghost whole = order@;
    let mut p: usize = order.len();
    proof {
        assert(whole.take(p as int) =~= whole);
        assert(slotted(v, ids@, scores@, whole.take(p as int), x) + whole.skip(p as int)
            =~= slotted(v, ids@, scores@, whole, x));
    }
    while p > 0 && is_ahead(intern, ids, scores, x, order[p - 1])
        invariant
            v == intern@,
            x < ids.len(),
            scores.len() == ids.len(),
            order@ == whole,
            p <= whole.len(),
            forall|k: int| 0 <= k < whole.len() ==> #[trigger] whole[k] < ids.len(),
            slotted(v, ids@, scores@, whole, x) == slotted(
                v,
                ids@,
                scores@,
                whole.take(p as int),
                x,
            ) + whole.skip(p as int),
        decreases p,
    {
        proof {
            let t = whole.take(p as int);
            assert(t.drop_last() =~= whole.take(p - 1));
            assert(slotted(v, ids@, scores@, t.drop_last(), x).push(t.last()) + whole.skip(p as int)
                =~= slotted(v, ids@, scores@, whole.take(p - 1), x) + whole.skip(p - 1));
        }
        p -= 1;
    }
    proof {
        let t = whole.take(p as int);
        assert(p > 0 ==> t.last() == whole[p - 1]);
        assert(slotted(v, ids@, scores@, t, x) == t.push(x));
        assert(whole.insert(p as int, x) =~= t.push(x) + whole.skip(p as int));
    }
    order.insert(p, x);
}

/// The strongest interests among scored chunks, strongest first.
pub fn top_words(intern: &Interner, ids: &Vec<TokenId>, scores: &Vec<u32>) -> (r: Vec<usize>)
    requires
        scores.len() == ids.len(),
    ensures
        r@ == leading(word_order(intern@, ids@, scores@, ids.len() as int)),
        forall|k: int| 0 <= k < r.len() ==> #[trigger] r[k] < ids.len(),
{
    let mut order: Vec<usize> = Vec::new();
    let mut i: usize = 0;
    proof {
        assert(order@ =~= word_order(intern@, ids@, scores@, 0));
    }
    while i < ids.len()
        invariant
            i <= ids.len(),
            scores.len() == ids.len(),
            order@ == word_order(intern@, ids@, scores@, i as int),
            forall|k: int| 0 <= k < order.len() ==> #[trigger] order[k] < ids.len(),
        decreases ids.len() - i,
    {
        if !charclass::is_punct_str(intern.get(ids[i])) {
            slot(intern, ids, scores, &mut order, i);
        }
        i += 1;
    }
    if order.len() > TOP {
        order.truncate(TOP);
        proof {
            assert(order@ =~= leading(word_order(intern@, ids@, scores@, ids.len() as int)));
        }
    }
    order
}

/// An interest as it is shown.
pub struct TopWord {
    pub word: String,
    pub score: String,
}

/// The interests as they are shown.
pub open spec fn shown(tops: Seq<TopWord>) -> Seq<Seq<char>> {
    tops.map_values(|t: TopWord| t.word@ + "("@ + t.score@ + ")"@)
}

// ---- the record of the individual ----
/// Reached marks as they are shown.
pub open spec fn mark_texts(learned: int, age: int) -> Seq<Seq<char>> {
    milestone::reached(milestone::learned_marks(), learned).map_values(
        |m: int| "吸収"@ + text::digits(m as nat),
    ) + milestone::reached(milestone::day_marks(), age).map_values(
        |m: int| text::digits(m as nat) + "日"@,
    )
}

/// The lines of an individual that has spoken.
pub open spec fn life_text(
    d: observe::Digest,
    params: Params,
    seed: u64,
    date: (int, int, int),
    care: Option<Seq<char>>,
) -> Seq<char> {
    let age = observe::days_between(d.first_speech_t->0, d.last_speech_t->0) as int;
    let marks = mark_texts(d.learned, age);
    "うまれた日  "@ + text::padded(text::digits(date.0 as nat), 4, '0') + "-"@ + text::padded(
        text::digits(date.1 as nat),
        2,
        '0',
    ) + "-"@ + text::padded(text::digits(date.2 as nat), 2, '0') + "（"@ + text::digits(
        (age + 1) as nat,
    ) + "日目）\n"@ + (match d.first_learned_user {
        Some(w) => "初語        「"@ + w + "」\n"@,
        None => Seq::empty(),
    }) + (if marks.len() > 0 {
        "節目        "@ + text::joined(marks, " "@) + "\n"@
    } else {
        Seq::empty()
    }) + (if params.weather {
        "日和        "@ + weather::weather_name(
            weather::weather_of(seed, d.last_speech_t->0 / 86_400_000),
        ) + (match care {
            Some(c) => "  気になる語「"@ + c + "」"@,
            None => Seq::empty(),
        }) + (if d.aloof_left > 0 {
            "（よそよそしい）"@
        } else {
            Seq::empty()
        }) + "\n"@
    } else {
        Seq::empty()
    })
}

/// Counts, sources and interests.
pub open spec fn counts_text(d: observe::Digest, tokens: int, vocab: int, tops: Seq<TopWord>) -> Seq<
    char,
> {
    "発話 "@ + text::digits(d.speech as nat) + "  吸収 "@ + text::digits(d.learned as nat)
        + "  tokens "@ + text::digits(tokens as nat) + "  vocab "@ + text::digits(vocab as nat)
        + "\n"@ + (if d.path_known > 0 {
        "経路        trig="@ + text::digits(d.paths[0] as nat) + " mark="@ + text::digits(
            d.paths[1] as nat,
        ) + " retr="@ + text::digits(d.paths[2] as nat) + " echo="@ + text::digits(
            d.paths[3] as nat,
        ) + " adpt="@ + text::digits(d.paths[4] as nat) + "\n"@
    } else {
        Seq::empty()
    }) + (if tops.len() > 0 {
        "関心        "@ + text::joined(shown(tops), " "@) + "\n"@
    } else {
        Seq::empty()
    })
}

fn number(out: &mut Vec<char>, n: u64)
    ensures
        final(out)@ == old(out)@ + text::digits(n as nat),
{
    text::put(out, &text::decimal(n));
}

fn mark_list(learned: usize, age: u64) -> (r: Vec<String>)
    ensures
        text::texts(r@) == mark_texts(learned as int, age as int),
{
    let (lm, dm) = milestone::achieved(learned, age);
    let ghost ls = milestone::reached(milestone::learned_marks(), learned as int);
    let ghost ds = milestone::reached(milestone::day_marks(), age as int);
    let mut r: Vec<String> = Vec::new();
    let mut i: usize = 0;
    proof {
        assert(lm@.map_values(|m: u64| m as int) == ls);
        assert(dm@.map_values(|m: u64| m as int) == ds);
    }
    while i < lm.len()
        invariant
            i <= lm.len(),
            lm@.map_values(|m: u64| m as int) == ls,
            r.len() == i,
            forall|k: int|
                0 <= k < i ==> (#[trigger] r[k])@ == "吸収"@ + text::digits(ls[k] as nat),
        decreases lm.len() - i,
    {
        let mut one = text::chars_of("吸収");
        number(&mut one, lm[i]);
        proof {
            assert(ls[i as int] == lm[i as int]);
        }
        r.push(text::string_of(&one));
        i += 1;
    }
    let mut j: usize = 0;
    while j < dm.len()
        invariant
            j <= dm.len(),
            lm.len() == ls.len(),
            dm@.map_values(|m: u64| m as int) == ds,
            r.len() == lm.len() + j,
            forall|k: int|
                0 <= k < lm.len() ==> (#[trigger] r[k])@ == "吸収"@ + text::digits(ls[k] as nat),
            forall|k: int|
                lm.len() <= k < r.len() ==> (#[trigger] r[k])@ == text::digits(
                    ds[k - lm.len()] as nat,
                ) + "日"@,
        decreases dm.len() - j,
    {
        let mut one = text::decimal(dm[j]);
        text::put_str(&mut one, "日");
        proof {
            assert(ds[j as int] == dm[j as int]);
        }
        r.push(text::string_of(&one));
        j += 1;
    }
    proof {
        assert(text::texts(r@) =~= mark_texts(learned as int, age as int));
    }
    r
}

fn shown_list(tops: &Vec<TopWord>) -> (r: Vec<String>)
    ensures
        text::texts(r@) == shown(tops@),
{
    let mut r: Vec<String> = Vec::new();
    let mut i: usize = 0;
    while i < tops.len()
        invariant
            i <= tops.len(),
            r.len() == i,
            forall|k: int| 0 <= k < i ==> (#[trigger] r[k])@ == shown(tops@)[k],
        decreases tops.len() - i,
    {
        let mut one = text::chars_of(tops[i].word.as_str());
        text::put_str(&mut one, "(");
        text::put_str(&mut one, tops[i].score.as_str());
        text::put_str(&mut one, ")");
        r.push(text::string_of(&one));
        i += 1;
    }
    proof {
        assert(text::texts(r@) =~= shown(tops@));
    }
    r
}

fn birth_line(date: (i64, u32, u32), age: u64) -> (out: Vec<char>)
    requires
        date.0 >= 0,
        age < u64::MAX,
    ensures
        out@ == "うまれた日  "@ + text::padded(text::digits(date.0 as nat), 4, '0') + "-"@
            + text::padded(text::digits(date.1 as nat), 2, '0') + "-"@ + text::padded(
            text::digits(date.2 as nat),
            2,
            '0',
        ) + "（"@ + text::digits((age + 1) as nat) + "日目）\n"@,
{
    let mut out = text::chars_of("うまれた日  ");
    text::put(&mut out, &text::zero_padded(date.0 as u64, 4));
    text::put_str(&mut out, "-");
    text::put(&mut out, &text::zero_padded(date.1 as u64, 2));
    text::put_str(&mut out, "-");
    text::put(&mut out, &text::zero_padded(date.2 as u64, 2));
    text::put_str(&mut out, "（");
    number(&mut out, age + 1);
    text::put_str(&mut out, "日目）\n");
    out
}

fn first_word_line(w: &Option<String>) -> (out: Vec<char>)
    ensures
        out@ == (match *w {
            Some(s) => "初語        「"@ + s@ + "」\n"@,
            None => Seq::empty(),
        }),
{
    match w {
        Some(s) => {
            let mut out = text::chars_of("初語        「");
            text::put_str(&mut out, s.as_str());
            text::put_str(&mut out, "」\n");
            out
        },
        None => {
            let out: Vec<char> = Vec::new();
            proof {
                assert(out@ =~= Seq::<char>::empty());
            }
            out
        },
    }
}

fn list_line(head: &str, parts: &Vec<String>) -> (out: Vec<char>)
    ensures
        out@ == (if parts.len() > 0 {
            head@ + text::joined(text::texts(parts@), " "@) + "\n"@
        } else {
            Seq::empty()
        }),
{
    if parts.len() > 0 {
        let mut out = text::chars_of(head);
        text::put_joined(&mut out, parts, " ");
        text::put_str(&mut out, "\n");
        out
    } else {
        let out: Vec<char> = Vec::new();
        proof {
            assert(out@ =~= Seq::<char>::empty());
        }
        out
    }
}

fn weather_line(w: Weather, care: &Option<String>, aloof: bool) -> (out: Vec<char>)
    ensures
        out@ == "日和        "@ + weather::weather_name(w) + (match *care {
            Some(c) => "  気になる語「"@ + c@ + "」"@,
            None => Seq::empty(),
        }) + (if aloof {
            "（よそよそしい）"@
        } else {
            Seq::empty()
        }) + "\n"@,
{
    let mut out = text::chars_of("日和        ");
    text::put_str(&mut out, w.name());
    let mut tail: Vec<char> = Vec::new();
    match care {
        Some(c) => {
            tail = text::chars_of("  気になる語「");
            text::put_str(&mut tail, c.as_str());
            text::put_str(&mut tail, "」");
        },
        None => {
            proof {
                assert(tail@ =~= Seq::<char>::empty());
            }
        },
    }
    text::put(&mut out, &tail);
    let mut far: Vec<char> = Vec::new();
    if aloof {
        far = text::chars_of("（よそよそしい）");
    } else {
        proof {
            assert(far@ =~= Seq::<char>::empty());
        }
    }
    text::put(&mut out, &far);
    text::put_str(&mut out, "\n");
    out
}

fn path_line(d: &LogDigest) -> (out: Vec<char>)
    ensures
        out@ == (if d@.path_known > 0 {
            "経路        trig="@ + text::digits(d@.paths[0] as nat) + " mark="@ + text::digits(
                d@.paths[1] as nat,
            ) + " retr="@ + text::digits(d@.paths[2] as nat) + " echo="@ + text::digits(
                d@.paths[3] as nat,
            ) + " adpt="@ + text::digits(d@.paths[4] as nat) + "\n"@
        } else {
            Seq::empty()
        }),
{
    if d.path_known == 0 {
        let out: Vec<char> = Vec::new();
        proof {
            assert(out@ =~= Seq::<char>::empty());
        }
        return out;
    }
    let mut out = text::chars_of("経路        trig=");
    number(&mut out, d.paths[0] as u64);
    text::put_str(&mut out, " mark=");
    number(&mut out, d.paths[1] as u64);
    text::put_str(&mut out, " retr=");
    number(&mut out, d.paths[2] as u64);
    text::put_str(&mut out, " echo=");
    number(&mut out, d.paths[3] as u64);
    text::put_str(&mut out, " adpt=");
    number(&mut out, d.paths[4] as u64);
    text::put_str(&mut out, "\n");
    out
}

/// Counts, sources and interests.
fn counts_part(d: &LogDigest, tokens: usize, vocab: usize, tops: &Vec<TopWord>) -> (out: Vec<char>)
    ensures
        out@ == counts_text(d@, tokens as int, vocab as int, tops@),
{
    let mut out = text::chars_of("発話 ");
    number(&mut out, d.speech as u64);
    text::put_str(&mut out, "  吸収 ");
    number(&mut out, d.learned as u64);
    text::put_str(&mut out, "  tokens ");
    number(&mut out, tokens as u64);
    text::put_str(&mut out, "  vocab ");
    number(&mut out, vocab as u64);
    text::put_str(&mut out, "\n");
    text::put(&mut out, &path_line(d));
    let list = shown_list(tops);
    text::put(&mut out, &list_line("関心        ", &list));
    proof {
        assert(text::texts(list@).len() == list.len());
    }
    out
}

/// あゆみ: the one-page record of this individual: birth day, 初語,
/// counts, marks, today's 日和, and the current 関心 top words. Every
/// number is derived from the log; nothing here is a mood model.
pub fn ayumi_text(e: &Engine, tops: &Vec<TopWord>) -> (r: String)
    requires
        e.wf(),
    ensures
        ({
            let d = e.digest@;
            let head = "あゆみ — 人工無脳君\n"@;
            let tail = counts_text(
                d,
                e.memory.store.stream().len() as int,
                e.memory.intern@.strings.len() - FIRST_USER,
                tops@,
            );
            if d.first_speech_t is Some && d.last_speech_t is Some {
                exists|date: (int, int, int), care: Option<Seq<char>>|
                    {
                        &&& #[trigger] weather::is_date_of(
                            date.0,
                            date.1,
                            date.2,
                            (d.first_speech_t->0 / 86_400_000) as int,
                        )
                        &&& #[trigger] is_life_care(*e, care)
                        &&& r@ == head + life_text(d, e.params, e.seed, date, care) + tail
                    }
            } else {
                r@ == head + "うまれた日  （まだ記録なし）\n"@ + tail
            }
        }),
{
    let d = &e.digest;
    let mut out = text::chars_of("あゆみ — 人工無脳君\n");
    let s = stats(e);
    let counts = counts_part(d, s.tokens, s.vocab, tops);
    match (d.first_speech_t, d.last_speech_t) {
        (Some(f), Some(l)) => {
            let fd: u64 = weather::day_of_ms(f);
            let ld: u64 = weather::day_of_ms(l);
            let date: (i64, u32, u32) = weather::civil_from_day(fd);
            let age: u64 = if ld > fd {
                ld - fd
            } else {
                0
            };
            proof {
                assert(age == observe::days_between(f, l));
            }
            let mut life = birth_line(date, age);
            text::put(&mut life, &first_word_line(&d.first_learned_user));
            let marks = mark_list(d.learned, age);
            proof {
                assert(text::texts(marks@).len() == marks.len());
            }
            text::put(&mut life, &list_line("節目        ", &marks));
            let mut care: Option<String> = None;
            let mut sky: Vec<char> = Vec::new();
            if e.params.weather {
                care = turn::care_word(&e.params, &e.memory, e.seed, ld);
                sky = weather_line(weather::day_weather(e.seed, ld), &care, d.aloof_left > 0);
            } else {
                proof {
                    assert(sky@ =~= Seq::<char>::empty());
                }
            }
            text::put(&mut life, &sky);
            text::put(&mut out, &life);
            proof {
                let c = match care {
                    Some(w) => Some(w@),
                    None => None,
                };
                let dd = (date.0 as int, date.1 as int, date.2 as int);
                assert(is_life_care(*e, c));
                assert(weather::is_date_of(dd.0, dd.1, dd.2, (f / 86_400_000) as int));
                assert(life@ == life_text(d@, e.params, e.seed, dd, c));
            }
        },
        _ => {
            text::put_str(&mut out, "うまれた日  （まだ記録なし）\n");
        },
    }
    text::put(&mut out, &counts);
    text::string_of(&out)
}

/// The word on the bot's mind on the day of the last dialogue record.
pub open spec fn is_life_care(e: Engine, care: Option<Seq<char>>) -> bool {
    if e.params.weather {
        turn::is_care(
            e.params,
            e.memory.interest,
            e.memory.intern@,
            e.seed,
            (e.digest.last_speech_t->0 / 86_400_000) as u64,
            care,
        )
    } else {
        care is None
    }
}

// ---- notes ----
/// How the dials of a turn are written.
pub struct DialNumbers {
    pub slip: String,
    pub interject: String,
    pub release: String,
}

/// The weather's line in a trace, where there is weather.
pub fn weather_note(params: &Params, sky: &Sky, care: &Option<String>, n: &DialNumbers) -> (r: Option<
    String,
>)
    ensures
        match r {
            Some(s) => {
                &&& params.weather && sky.day is Some
                &&& s@ == weather::weather_name(sky.weather) + " slip×"@ + n.slip@ + " 合いの手×"@
                    + n.interject@ + " 口をつく×"@ + n.release@ + (match *care {
                    Some(c) => " 気になる語「"@ + c@ + "」"@,
                    None => Seq::empty(),
                }) + (if sky.aloof {
                    "（よそよそしい）"@
                } else {
                    Seq::empty()
                })
            },
            None => !params.weather || sky.day is None,
        },
{
    if !params.weather || sky.day.is_none() {
        return None;
    }
    let mut out = text::chars_of(sky.weather.name());
    text::put_str(&mut out, " slip×");
    text::put_str(&mut out, n.slip.as_str());
    text::put_str(&mut out, " 合いの手×");
    text::put_str(&mut out, n.interject.as_str());
    text::put_str(&mut out, " 口をつく×");
    text::put_str(&mut out, n.release.as_str());
    let mut tail: Vec<char> = Vec::new();
    match care {
        Some(c) => {
            tail = text::chars_of(" 気になる語「");
            text::put_str(&mut tail, c.as_str());
            text::put_str(&mut tail, "」");
        },
        None => {
            proof {
                assert(tail@ =~= Seq::<char>::empty());
            }
        },
    }
    text::put(&mut out, &tail);
    let mut far: Vec<char> = Vec::new();
    if sky.aloof {
        far = text::chars_of("（よそよそしい）");
    } else {
        proof {
            assert(far@ =~= Seq::<char>::empty());
        }
    }
    text::put(&mut out, &far);
    Some(text::string_of(&out))
}

/// The source that feedback is about: that of the last trace, else that of the last logged
/// reply.
pub open spec fn feedback_on(traced: Option<PathKind>, logged: Option<PathKind>) -> Option<PathKind> {
    match traced {
        Some(p) => Some(p),
        None => logged,
    }
}

/// The record of a preference, or nothing before the first turn. Closed analog of a
/// preference label; it does not call a reward model.
pub fn feedback_record(
    traced: Option<PathKind>,
    logged: Option<PathKind>,
    good: bool,
    t: u64,
) -> (r: Option<Record>)
    ensures
        match r {
            Some(rec) => {
                &&& feedback_on(traced, logged) is Some
                &&& rec.path == feedback_on(traced, logged)
                &&& rec.role == crate::log::Role::Meta
                &&& !rec.learned
                &&& rec.t == t
                &&& rec.text@ == (if good {
                    "good"@
                } else {
                    "bad"@
                })
                &&& rec.score is None
                &&& rec.slipped is None
                &&& rec.novelty_lcs is None
                &&& rec.n_tok is None
                &&& rec.rng_word_pos is None
                &&& rec.v == 1
            },
            None => feedback_on(traced, logged) is None,
        },
{
    let path: Option<PathKind> = match traced {
        Some(p) => Some(p),
        None => logged,
    };
    match path {
        Some(p) => {
            let label: String = if good {
                "good".to_owned()
            } else {
                "bad".to_owned()
            };
            Some(Record::meta(label, Some(p), t))
        },
        None => None,
    }
}

/// What feedback answers: the source's new prior, or that there was no turn yet.
pub fn feedback_text(path: Option<PathKind>, good: bool, prior: &str) -> (r: String)
    ensures
        r@ == (match path {
            Some(p) => "pref "@ + (if good {
                "good"@
            } else {
                "bad"@
            }) + " "@ + explain::name_of(p) + "  prior="@ + prior@,
            None => "no turn yet"@,
        }),
{
    match path {
        Some(p) => {
            let mut out = text::chars_of("pref ");
            if good {
                text::put_str(&mut out, "good");
            } else {
                text::put_str(&mut out, "bad");
            }
            text::put_str(&mut out, " ");
            text::put_str(&mut out, p.name());
            text::put_str(&mut out, "  prior=");
            text::put_str(&mut out, prior);
            text::string_of(&out)
        },
        None => "no turn yet".to_owned(),
    }
}

/// `/why` surface. After reopen the gen chain is gone; the last bot line can still be shown.
pub fn why_text(last: Option<(&Trace, &TraceNumbers)>, last_why: Option<&str>) -> (r: String)
    requires
        last matches Some(p) ==> p.0.fits(*p.1),
    ensures
        r@ == (match last {
            Some(p) => explain::why_text(*p.0, *p.1),
            None => match last_why {
                Some(w) => w@
                    + "\n(reopened; gen chain lives only in the process that spoke)\n"@,
                None => "(no trace yet)\n"@,
            },
        }),
{
    match last {
        Some((tr, n)) => tr.explain_text(n),
        None => match last_why {
            Some(w) => {
                let mut out = text::chars_of(w);
                text::put_str(
                    &mut out,
                    "\n(reopened; gen chain lives only in the process that spoke)\n",
                );
                text::string_of(&out)
            },
            None => "(no trace yet)\n".to_owned(),
        },
    }
}

/// The best-scored interests come first, and those of one score as in a dictionary; the first
/// five are shown.
pub proof fn law_the_strongest_interests_lead(
    v: intern::Vocab,
    ids: Seq<u32>,
    scores: Seq<u32>,
    k: int,
    i: int,
    j: int,
)
    requires
        0 <= k <= ids.len() <= usize::MAX,
        0 <= i < j < word_order(v, ids, scores, k).len(),
    ensures
        ({
            let order = word_order(v, ids, scores, k);
            let a = order[i] as int;
            let b = order[j] as int;
            &&& bits::key32(scores[a]) >= bits::key32(scores[b])
            &&& bits::key32(scores[a]) == bits::key32(scores[b]) ==> !text::word_lt(
                intern::text_of(v, ids[b]),
                intern::text_of(v, ids[a]),
            )
            &&& leading(order).len() <= 5
            &&& order.len() <= 5 ==> leading(order) == order
            &&& order.len() > 5 ==> leading(order) == order.take(5)
        }),
{
    law_word_order_is_sorted(v, ids, scores, k);
    let order = word_order(v, ids, scores, k);
    assert(in_front(v, ids, scores, order[i] as int, order[j] as int));
    if text::word_lt(
        intern::text_of(v, ids[order[i] as int]),
        intern::text_of(v, ids[order[j] as int]),
    ) && text::word_lt(
        intern::text_of(v, ids[order[j] as int]),
        intern::text_of(v, ids[order[i] as int]),
    ) {
        let a = intern::text_of(v, ids[order[i] as int]);
        let b = intern::text_of(v, ids[order[j] as int]);
        text::lemma_word_trans(a, b, a);
        text::lemma_word_irreflexive(a);
    }
}

/// Feedback is about the last reply of this process; after a reopen, about the last logged one.
pub proof fn law_feedback_is_on_the_last_reply(traced: Option<PathKind>, logged: Option<PathKind>)
    ensures
        traced is Some ==> feedback_on(traced, logged) == traced,
        traced is None ==> feedback_on(traced, logged) == logged,
{
}

/// Counts are shown each behind its name: what was said and what of it was absorbed, and for
/// each source how many replies came from it, where any is known.
pub proof fn law_counts_stand_behind_their_names(
    d: observe::Digest,
    tokens: int,
    vocab: int,
    tops: Seq<TopWord>,
)
    ensures
        ({
            let s = counts_text(d, tokens, vocab, tops);
            &&& text::holds(s, "発話 "@ + text::digits(d.speech as nat))
            &&& text::holds(s, "  吸収 "@ + text::digits(d.learned as nat))
            &&& d.path_known > 0 ==> {
                &&& text::holds(s, "経路        trig="@ + text::digits(d.paths[0] as nat))
                &&& text::holds(s, " mark="@ + text::digits(d.paths[1] as nat))
                &&& text::holds(s, " retr="@ + text::digits(d.paths[2] as nat))
                &&& text::holds(s, " echo="@ + text::digits(d.paths[3] as nat))
                &&& text::holds(s, " adpt="@ + text::digits(d.paths[4] as nat))
            }
        }),
{
    let said = "発話 "@ + text::digits(d.speech as nat);
    let taken = "  吸収 "@ + text::digits(d.learned as nat);
    let a = said + "  吸収 "@ + text::digits(d.learned as nat);
    let b = a + "  tokens "@ + text::digits(tokens as nat) + "  vocab "@;
    let c = b + text::digits(vocab as nat) + "\n"@;
    let p = if d.path_known > 0 {
        paths_line(d.paths)
    } else {
        Seq::empty()
    };
    let f = if tops.len() > 0 {
        "関心        "@ + text::joined(shown(tops), " "@) + "\n"@
    } else {
        Seq::empty()
    };
    assert(counts_text(d, tokens, vocab, tops) == c + p + f);
    text::lemma_holds_end(Seq::empty(), said);
    text::lemma_holds_more(said, "  吸収 "@, said);
    text::lemma_holds_more(said + "  吸収 "@, text::digits(d.learned as nat), said);
    text::lemma_holds_two(said, "  吸収 "@, text::digits(d.learned as nat));
    text::lemma_holds_more3(a, "  tokens "@, text::digits(tokens as nat), "  vocab "@, said);
    text::lemma_holds_more3(a, "  tokens "@, text::digits(tokens as nat), "  vocab "@, taken);
    text::lemma_holds_more3(b, text::digits(vocab as nat), "\n"@, p, said);
    text::lemma_holds_more3(b, text::digits(vocab as nat), "\n"@, p, taken);
    text::lemma_holds_more(c + p, f, said);
    text::lemma_holds_more(c + p, f, taken);
    if d.path_known > 0 {
        lemma_paths_line(d.paths);
        lemma_in_the_middle(c, p, f, "経路        trig="@ + text::digits(d.paths[0] as nat));
        lemma_in_the_middle(c, p, f, " mark="@ + text::digits(d.paths[1] as nat));
        lemma_in_the_middle(c, p, f, " retr="@ + text::digits(d.paths[2] as nat));
        lemma_in_the_middle(c, p, f, " echo="@ + text::digits(d.paths[3] as nat));
        lemma_in_the_middle(c, p, f, " adpt="@ + text::digits(d.paths[4] as nat));
    }
}

/// The line of the sources.
spec fn paths_line(n: Seq<int>) -> Seq<char> {
    "経路        trig="@ + text::digits(n[0] as nat) + " mark="@ + text::digits(n[1] as nat)
        + " retr="@ + text::digits(n[2] as nat) + " echo="@ + text::digits(n[3] as nat) + " adpt="@
        + text::digits(n[4] as nat) + "\n"@
}

proof fn lemma_paths_line(n: Seq<int>)
    ensures
        text::holds(paths_line(n), "経路        trig="@ + text::digits(n[0] as nat)),
        text::holds(paths_line(n), " mark="@ + text::digits(n[1] as nat)),
        text::holds(paths_line(n), " retr="@ + text::digits(n[2] as nat)),
        text::holds(paths_line(n), " echo="@ + text::digits(n[3] as nat)),
        text::holds(paths_line(n), " adpt="@ + text::digits(n[4] as nat)),
{
    let (d0, d1, d2, d3, d4) = (
        text::digits(n[0] as nat),
        text::digits(n[1] as nat),
        text::digits(n[2] as nat),
        text::digits(n[3] as nat),
        text::digits(n[4] as nat),
    );
    let a = "経路        trig="@ + d0;
    let b = a + " mark="@ + d1;
    let c = b + " retr="@ + d2;
    let e = c + " echo="@ + d3;
    let f = e + " adpt="@ + d4;
    assert(paths_line(n) == f + "\n"@);
    text::lemma_holds_end(Seq::empty(), a);
    text::lemma_holds_two(a, " mark="@, d1);
    text::lemma_holds_two(b, " retr="@, d2);
    text::lemma_holds_two(c, " echo="@, d3);
    text::lemma_holds_two(e, " adpt="@, d4);
    text::lemma_holds_more3(a, " mark="@, d1, " retr="@, a);
    text::lemma_holds_more3(b + " retr="@, d2, " echo="@, d3, a);
    text::lemma_holds_more3(e, " adpt="@, d4, "\n"@, a);
    text::lemma_holds_more3(b, " retr="@, d2, " echo="@, " mark="@ + d1);
    text::lemma_holds_more(c + " echo="@, d3, " mark="@ + d1);
    text::lemma_holds_more3(e, " adpt="@, d4, "\n"@, " mark="@ + d1);
    text::lemma_holds_more(c, " echo="@, " retr="@ + d2);
    text::lemma_holds_more(c + " echo="@, d3, " retr="@ + d2);
    text::lemma_holds_more3(e, " adpt="@, d4, "\n"@, " retr="@ + d2);
    text::lemma_holds_more3(e, " adpt="@, d4, "\n"@, " echo="@ + d3);
    text::lemma_holds_more(f, "\n"@, " adpt="@ + d4);
}

proof fn lemma_in_the_middle(head: Seq<char>, p: Seq<char>, tail: Seq<char>, pat: Seq<char>)
    requires
        text::holds(p, pat),
    ensures
        text::holds(head + p + tail, pat),
{
    text::lemma_holds_behind(head, p, pat);
    text::lemma_holds_more(head + p, tail, pat);
}

/// An individual's lines count its days from the first one on, quote its first word where it
/// has one, and name the weather of its last day where there is weather, with a note while it
/// is distant.
pub proof fn law_a_life_is_told(
    d: observe::Digest,
    params: Params,
    seed: u64,
    date: (int, int, int),
    care: Option<Seq<char>>,
    first: u64,
    last: u64,
)
    requires
        d.first_speech_t == Some(first),
        d.last_speech_t == Some(last),
        first <= last,
    ensures
        ({
            let s = life_text(d, params, seed, date, care);
            &&& text::holds(
                s,
                "（"@ + text::digits(
                    (last as int / 86_400_000 - first as int / 86_400_000 + 1) as nat,
                ),
            )
            &&& d.first_learned_user matches Some(w) ==> text::holds(s, "初語        「"@ + w + "」\n"@)
            &&& params.weather ==> text::holds(
                s,
                "日和        "@ + weather::weather_name(
                    weather::weather_of(seed, (last as int / 86_400_000) as u64),
                ),
            )
            &&& params.weather && d.aloof_left > 0 ==> text::holds(s, "（よそよそしい）"@)
        }),
{
    let age = observe::days_between(first, last) as int;
    let marks = mark_texts(d.learned, age);
    let days = text::digits((age + 1) as nat);
    let born = "うまれた日  "@ + text::padded(text::digits(date.0 as nat), 4, '0') + "-"@
        + text::padded(text::digits(date.1 as nat), 2, '0') + "-"@ + text::padded(
        text::digits(date.2 as nat),
        2,
        '0',
    );
    let a = born + "（"@ + days + "日目）\n"@;
    let word = match d.first_learned_user {
        Some(w) => "初語        「"@ + w + "」\n"@,
        None => Seq::empty(),
    };
    let reached = if marks.len() > 0 {
        "節目        "@ + text::joined(marks, " "@) + "\n"@
    } else {
        Seq::empty()
    };
    let name = weather::weather_name(weather::weather_of(seed, last / 86_400_000));
    let mind = match care {
        Some(c) => "  気になる語「"@ + c + "」"@,
        None => Seq::empty(),
    };
    let far = if d.aloof_left > 0 {
        "（よそよそしい）"@
    } else {
        Seq::empty()
    };
    let sky = if params.weather {
        "日和        "@ + name + mind + far + "\n"@
    } else {
        Seq::empty()
    };
    assert(life_text(d, params, seed, date, care) == a + word + reached + sky);
    let counted = "（"@ + days;
    text::lemma_holds_two(born, "（"@, days);
    text::lemma_holds_more(born + "（"@ + days, "日目）\n"@, counted);
    text::lemma_holds_more3(a, word, reached, sky, counted);
    text::lemma_holds_end(a, word);
    text::lemma_holds_more(a + word, reached, word);
    text::lemma_holds_more(a + word + reached, sky, word);
    if params.weather {
        let named = "日和        "@ + name;
        text::lemma_holds_end(Seq::empty(), named);
        text::lemma_holds_more3(named, mind, far, "\n"@, named);
        text::lemma_holds_behind(a + word + reached, sky, named);
        text::lemma_holds_end(named + mind, far);
        text::lemma_holds_more(named + mind + far, "\n"@, far);
        text::lemma_holds_behind(a + word + reached, sky, far);
    }
}

} // verus!
