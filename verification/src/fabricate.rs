//! Closed conversation expander: life-log themes, combined deterministically. This is not an
//! external corpus.
use crate::bits;
use crate::charclass;
use crate::log::Record;
use crate::log::Role;
use crate::rng;
use crate::rng::Stream;
use crate::text;
use vstd::prelude::*;

verus! {

/// Number of user/bot pairs in the seed register.
pub const N_PAIRS: usize = 27;

/// Number of morae for coined words.
pub const N_MORAE: usize = 38;

/// Time of the first record.
pub const FIRST_T: u64 = 1_700_000_000_000;

/// User/bot pairs in the seed log's register: walk, coffee, cat, work, game.
pub open spec fn pair_of(i: int) -> (Seq<char>, Seq<char>) {
    if i == 0 {
        ("今日はいい天気だね"@, "うん、散歩しよう"@)
    } else if i == 1 {
        ("散歩しない？"@, "いいね、散歩しよう"@)
    } else if i == 2 {
        ("外歩きたい"@, "じゃあ散歩しよう"@)
    } else if i == 3 {
        ("公園いこ"@, "散歩しよう、公園"@)
    } else if i == 4 {
        ("また天気いいね"@, "散歩しよう"@)
    } else if i == 5 {
        ("コーヒー飲む？"@, "飲む、コーヒーがいい"@)
    } else if i == 6 {
        ("カフェいこ"@, "コーヒー飲もう"@)
    } else if i == 7 {
        ("眠いからコーヒー"@, "コーヒー飲む？"@)
    } else if i == 8 {
        ("朝はコーヒー"@, "私もコーヒー飲む"@)
    } else if i == 9 {
        ("もう一杯"@, "コーヒー飲もう"@)
    } else if i == 10 {
        ("猫かわいい"@, "うちの猫もかわいい"@)
    } else if i == 11 {
        ("猫なでたい"@, "猫かわいいね"@)
    } else if i == 12 {
        ("猫の動画みた"@, "猫かわいい"@)
    } else if i == 13 {
        ("猫飼ってる？"@, "うちの猫かわいい"@)
    } else if i == 14 {
        ("また猫"@, "猫かわいいね"@)
    } else if i == 15 {
        ("眠いね"@, "仕事つらい"@)
    } else if i == 16 {
        ("今日も仕事"@, "眠いね、仕事"@)
    } else if i == 17 {
        ("残業だ"@, "仕事つらいね"@)
    } else if i == 18 {
        ("休みたい"@, "仕事つらい、眠い"@)
    } else if i == 19 {
        ("まだ仕事？"@, "仕事つらい"@)
    } else if i == 20 {
        ("ゲームしよう"@, "今日はゲームしない"@)
    } else if i == 21 {
        ("何する？"@, "ゲームしようか"@)
    } else if i == 22 {
        ("暇だね"@, "ゲームしない？"@)
    } else if i == 23 {
        ("今夜空いてる？"@, "ゲームしよう"@)
    } else if i == 24 {
        ("またゲーム"@, "ゲームしようか"@)
    } else if i == 25 {
        ("おはよう"@, "おはよう"@)
    } else {
        ("ありがとう"@, "いえいえ"@)
    }
}

/// User/bot pairs in the seed log's register.
fn pair(i: usize) -> (r: (&'static str, &'static str))
    ensures
        r.0@ == pair_of(i as int).0,
        r.1@ == pair_of(i as int).1,
{
    if i == 0 {
        ("今日はいい天気だね", "うん、散歩しよう")
    } else if i == 1 {
        ("散歩しない？", "いいね、散歩しよう")
    } else if i == 2 {
        ("外歩きたい", "じゃあ散歩しよう")
    } else if i == 3 {
        ("公園いこ", "散歩しよう、公園")
    } else if i == 4 {
        ("また天気いいね", "散歩しよう")
    } else if i == 5 {
        ("コーヒー飲む？", "飲む、コーヒーがいい")
    } else if i == 6 {
        ("カフェいこ", "コーヒー飲もう")
    } else if i == 7 {
        ("眠いからコーヒー", "コーヒー飲む？")
    } else if i == 8 {
        ("朝はコーヒー", "私もコーヒー飲む")
    } else if i == 9 {
        ("もう一杯", "コーヒー飲もう")
    } else if i == 10 {
        ("猫かわいい", "うちの猫もかわいい")
    } else if i == 11 {
        ("猫なでたい", "猫かわいいね")
    } else if i == 12 {
        ("猫の動画みた", "猫かわいい")
    } else if i == 13 {
        ("猫飼ってる？", "うちの猫かわいい")
    } else if i == 14 {
        ("また猫", "猫かわいいね")
    } else if i == 15 {
        ("眠いね", "仕事つらい")
    } else if i == 16 {
        ("今日も仕事", "眠いね、仕事")
    } else if i == 17 {
        ("残業だ", "仕事つらいね")
    } else if i == 18 {
        ("休みたい", "仕事つらい、眠い")
    } else if i == 19 {
        ("まだ仕事？", "仕事つらい")
    } else if i == 20 {
        ("ゲームしよう", "今日はゲームしない")
    } else if i == 21 {
        ("何する？", "ゲームしようか")
    } else if i == 22 {
        ("暇だね", "ゲームしない？")
    } else if i == 23 {
        ("今夜空いてる？", "ゲームしよう")
    } else if i == 24 {
        ("またゲーム", "ゲームしようか")
    } else if i == 25 {
        ("おはよう", "おはよう")
    } else {
        ("ありがとう", "いえいえ")
    }
}

/// Syllabary for coined words. Closed and synthetic; kana rather than digit
/// suffixes because fabricated surface leaks into replies.
pub open spec fn mora_of(i: int) -> char {
    if i == 0 {
        'か'
    } else if i == 1 {
        'き'
    } else if i == 2 {
        'く'
    } else if i == 3 {
        'け'
    } else if i == 4 {
        'こ'
    } else if i == 5 {
        'さ'
    } else if i == 6 {
        'し'
    } else if i == 7 {
        'す'
    } else if i == 8 {
        'そ'
    } else if i == 9 {
        'た'
    } else if i == 10 {
        'ち'
    } else if i == 11 {
        'つ'
    } else if i == 12 {
        'て'
    } else if i == 13 {
        'と'
    } else if i == 14 {
        'な'
    } else if i == 15 {
        'に'
    } else if i == 16 {
        'ぬ'
    } else if i == 17 {
        'ね'
    } else if i == 18 {
        'の'
    } else if i == 19 {
        'は'
    } else if i == 20 {
        'ひ'
    } else if i == 21 {
        'ふ'
    } else if i == 22 {
        'へ'
    } else if i == 23 {
        'ほ'
    } else if i == 24 {
        'ま'
    } else if i == 25 {
        'み'
    } else if i == 26 {
        'む'
    } else if i == 27 {
        'め'
    } else if i == 28 {
        'も'
    } else if i == 29 {
        'や'
    } else if i == 30 {
        'ゆ'
    } else if i == 31 {
        'よ'
    } else if i == 32 {
        'ら'
    } else if i == 33 {
        'り'
    } else if i == 34 {
        'る'
    } else if i == 35 {
        'れ'
    } else if i == 36 {
        'ろ'
    } else {
        'わ'
    }
}

/// Syllabary for coined words.
fn mora(i: usize) -> (r: char)
    ensures
        r == mora_of(i as int),
{
    if i == 0 {
        'か'
    } else if i == 1 {
        'き'
    } else if i == 2 {
        'く'
    } else if i == 3 {
        'け'
    } else if i == 4 {
        'こ'
    } else if i == 5 {
        'さ'
    } else if i == 6 {
        'し'
    } else if i == 7 {
        'す'
    } else if i == 8 {
        'そ'
    } else if i == 9 {
        'た'
    } else if i == 10 {
        'ち'
    } else if i == 11 {
        'つ'
    } else if i == 12 {
        'て'
    } else if i == 13 {
        'と'
    } else if i == 14 {
        'な'
    } else if i == 15 {
        'に'
    } else if i == 16 {
        'ぬ'
    } else if i == 17 {
        'ね'
    } else if i == 18 {
        'の'
    } else if i == 19 {
        'は'
    } else if i == 20 {
        'ひ'
    } else if i == 21 {
        'ふ'
    } else if i == 22 {
        'へ'
    } else if i == 23 {
        'ほ'
    } else if i == 24 {
        'ま'
    } else if i == 25 {
        'み'
    } else if i == 26 {
        'む'
    } else if i == 27 {
        'め'
    } else if i == 28 {
        'も'
    } else if i == 29 {
        'や'
    } else if i == 30 {
        'ゆ'
    } else if i == 31 {
        'よ'
    } else if i == 32 {
        'ら'
    } else if i == 33 {
        'り'
    } else if i == 34 {
        'る'
    } else if i == 35 {
        'れ'
    } else if i == 36 {
        'ろ'
    } else {
        'わ'
    }
}

/// The stream behind a draw.
pub open spec fn past(s: Stream, n: int) -> Stream {
    rng::moved(s, rng::drawn(s, n).1)
}

/// `n` drawn morae, and the stream behind them.
pub open spec fn morae(s: Stream, n: nat) -> (Seq<char>, Stream)
    decreases n,
{
    if n == 0 {
        (Seq::empty(), s)
    } else {
        let before = morae(s, (n - 1) as nat);
        (
            before.0.push(mora_of(rng::drawn(before.1, N_MORAE as int).0)),
            past(before.1, N_MORAE as int),
        )
    }
}

/// A coined word of two to four morae, and the stream behind it.
pub open spec fn coined(s: Stream) -> (Seq<char>, Stream) {
    morae(past(s, 3), (2 + rng::drawn(s, 3).0) as nat)
}

fn coin_word(rng: &mut Stream) -> (r: Vec<char>)
    requires
        old(rng).wf(),
    ensures
        final(rng).wf(),
        (r@, *final(rng)) == coined(*old(rng)),
{
    let ghost start = *rng;
    let k: usize = rng.rand_below(3);
    let n: usize = 2 + k;
    let ghost first = *rng;
    let mut r: Vec<char> = Vec::new();
    let mut i: usize = 0;
    proof {
        assert(first == past(start, 3));
        assert(r@ =~= Seq::<char>::empty());
    }
    while i < n
        invariant
            i <= n,
            rng.wf(),
            (r@, *rng) == morae(first, i as nat),
        decreases n - i,
    {
        let ghost here = *rng;
        let j: usize = rng.rand_below(N_MORAE);
        r.push(mora(j));
        proof {
            assert(*rng == past(here, N_MORAE as int));
        }
        i += 1;
    }
    r
}

#[derive(Debug, Clone, Copy)]
pub struct FabricateOpts {
    /// Number of user/bot pairs (utterances = 2 × pairs).
    pub pairs: usize,
    pub rng_seed: u64,
    /// Fraction of turns that append a coined kana word so vocab can grow, as a bit pattern.
    /// 0 = recycle the seed register only (huge count, small vocab).
    pub unique_frac: u64,
}

impl Default for FabricateOpts {
    fn default() -> (r: Self)
        ensures
            r.pairs == 1000,
            r.rng_seed == 1,
            r.unique_frac == 0,
    {
        FabricateOpts { pairs: 1000, rng_seed: 1, unique_frac: 0 }
    }
}

/// What a fabricated record says.
#[verifier::ext_equal]
pub struct Line {
    pub t: u64,
    pub role: Role,
    pub text: Seq<char>,
}

/// The record says no more than the line.
pub open spec fn records_line(r: Record, l: Line) -> bool {
    &&& r.v == 1
    &&& r.t == l.t
    &&& r.role == l.role
    &&& r.text@ == l.text
    &&& r.slipped is None
    &&& r.score is None
    &&& r.learned
    &&& r.path is None
    &&& r.novelty_lcs is None
    &&& r.n_tok is None
    &&& r.rng_word_pos is None
}

/// What a pair's texts end in, and the stream behind them: nothing, or a blank and a coined
/// word where the roll is below the fraction.
pub open spec fn ending(s: Stream, unique_frac: u64) -> (Seq<char>, Stream) {
    let next = rng::moved(s, rng::after(s.pos, 1));
    if bits::roll_below(rng::roll_of(s), bits::clamped(unique_frac)) {
        (seq![' '] + coined(next).0, coined(next).1)
    } else {
        (Seq::empty(), next)
    }
}

/// The pair with a number, and the stream behind it: first every pair of the register in order,
/// then drawn ones.
pub open spec fn nth_pair(s: Stream, i: int) -> (int, Stream) {
    if i < N_PAIRS {
        (i, s)
    } else {
        (rng::drawn(s, N_PAIRS as int).0, past(s, N_PAIRS as int))
    }
}

/// The lines of the first `n` pairs, and the stream behind them.
pub open spec fn lines(s: Stream, unique_frac: u64, n: nat) -> (Seq<Line>, Stream)
    decreases n,
{
    if n == 0 {
        (Seq::empty(), s)
    } else {
        let before = lines(s, unique_frac, (n - 1) as nat);
        let p = nth_pair(before.1, n - 1);
        let e = ending(p.1, unique_frac);
        let t = FIRST_T + 2 * (n - 1);
        (
            before.0.push(
                Line { t: t as u64, role: Role::User, text: pair_of(p.0).0 + e.0 },
            ).push(Line { t: (t + 1) as u64, role: Role::Bot, text: pair_of(p.0).1 + e.0 }),
            e.1,
        )
    }
}

/// The start of a seed's stream.
pub open spec fn start_of(seed: u64) -> Stream {
    Stream { seed, pos: 0 }
}

/// How many pairs are made.
pub open spec fn n_pairs(opts: FabricateOpts) -> nat {
    if opts.pairs < 1 {
        1
    } else {
        opts.pairs as nat
    }
}

fn rec(t: u64, role: Role, text: String) -> (r: Record)
    ensures
        records_line(r, (Line { t, role, text: text@ })),
{
    Record {
        v: 1,
        t,
        role,
        text,
        slipped: None,
        score: None,
        learned: true,
        path: None,
        novelty_lcs: None,
        n_tok: None,
        rng_word_pos: None,
    }
}

fn with_ending(s: &str, end: &Vec<char>) -> (r: String)
    ensures
        r@ == s@ + end@,
{
    let mut out = text::chars_of(s);
    text::put(&mut out, end);
    text::string_of(&out)
}

fn end_of(rng: &mut Stream, unique_frac: u64) -> (r: Vec<char>)
    requires
        old(rng).wf(),
    ensures
        final(rng).wf(),
        (r@, *final(rng)) == ending(*old(rng), unique_frac),
{
    let ghost start = *rng;
    let roll: u64 = rng.rand_53();
    let frac: u64 = bits::clamp_unit(unique_frac);
    proof {
        assert(*rng == rng::moved(start, rng::after(start.pos, 1)));
    }
    let mut end: Vec<char> = Vec::new();
    if bits::roll_is_below(roll, frac) {
        let w = coin_word(rng);
        end.push(' ');
        text::put(&mut end, &w);
        proof {
            assert(end@ =~= seq![' '] + w@);
        }
    } else {
        proof {
            assert(end@ =~= Seq::<char>::empty());
        }
    }
    end
}

/// Deterministic conversation records. Source of truth is still JSONL once written.
pub fn records(opts: FabricateOpts) -> (r: Vec<Record>)
    requires
        opts.pairs < 0x2000_0000_0000_0000,
    ensures
        r.len() == 2 * n_pairs(opts),
        forall|i: int|
            0 <= i < r.len() ==> records_line(
                #[trigger] r[i],
                lines(start_of(opts.rng_seed), opts.unique_frac, n_pairs(opts)).0[i],
            ),
{
    let pairs: usize = if opts.pairs < 1 {
        1
    } else {
        opts.pairs
    };
    let mut rng = Stream::new(opts.rng_seed);
    let ghost start = rng;
    let ghost frac = opts.unique_frac;
    let mut out: Vec<Record> = Vec::new();
    let mut i: usize = 0;
    proof {
        assert(start == start_of(opts.rng_seed));
    }
    while i < pairs
        invariant
            i <= pairs < 0x2000_0000_0000_0000,
            rng.wf(),
            frac == opts.unique_frac,
            rng == lines(start, frac, i as nat).1,
            out.len() == 2 * i,
            lines(start, frac, i as nat).0.len() == 2 * i,
            forall|k: int|
                0 <= k < out.len() ==> records_line(
                    #[trigger] out[k],
                    lines(start, frac, i as nat).0[k],
                ),
        decreases pairs - i,
    {
        let ghost here = rng;
        let k: usize = if i < N_PAIRS {
            i
        } else {
            rng.rand_below(N_PAIRS)
        };
        proof {
            assert((k as int, rng) == nth_pair(here, i as int));
        }
        let end = end_of(&mut rng, opts.unique_frac);
        let (u, b) = pair(k);
        let t: u64 = FIRST_T + (i as u64) * 2;
        out.push(rec(t, Role::User, with_ending(u, &end)));
        out.push(rec(t + 1, Role::Bot, with_ending(b, &end)));
        proof {
            let now = lines(start, frac, (i + 1) as nat);
            let before = lines(start, frac, i as nat);
            assert(now.1 == rng);
            assert(now.0.len() == 2 * i + 2);
            assert forall|j: int| 0 <= j < out.len() implies records_line(
                #[trigger] out[j],
                now.0[j],
            ) by {
                if j < 2 * i {
                    assert(now.0[j] == before.0[j]);
                }
            }
        }
        i += 1;
    }
    out
}

/// Users and bots speak in turn, two lines to a pair.
pub proof fn law_lines_alternate(s: Stream, unique_frac: u64, n: nat)
    ensures
        lines(s, unique_frac, n).0.len() == 2 * n,
        forall|i: int|
            0 <= i < 2 * n ==> (#[trigger] lines(s, unique_frac, n).0[i]).role == (if i % 2 == 0 {
                Role::User
            } else {
                Role::Bot
            }),
    decreases n,
{
    if n > 0 {
        law_lines_alternate(s, unique_frac, (n - 1) as nat);
    }
}

/// A text without ASCII digits.
pub open spec fn digitless(s: Seq<char>) -> bool {
    forall|i: int| 0 <= i < s.len() ==> !charclass::ascii_digit(#[trigger] s[i] as int)
}

proof fn lemma_digitless_add(a: Seq<char>, b: Seq<char>)
    requires
        digitless(a),
        digitless(b),
    ensures
        digitless(a + b),
{
    assert forall|i: int| 0 <= i < (a + b).len() implies !charclass::ascii_digit(
        #[trigger] (a + b)[i] as int,
    ) by {
        if i < a.len() {
            assert((a + b)[i] == a[i]);
        } else {
            assert((a + b)[i] == b[i - a.len()]);
        }
    }
}

proof fn lemma_morae_digitless(s: Stream, n: nat)
    ensures
        digitless(morae(s, n).0),
    decreases n,
{
    if n > 0 {
        lemma_morae_digitless(s, (n - 1) as nat);
        let before = morae(s, (n - 1) as nat).0;
        let m = mora_of(rng::drawn(morae(s, (n - 1) as nat).1, N_MORAE as int).0);
        assert(!charclass::ascii_digit(m as int));
        assert(digitless(seq![m]));
        lemma_digitless_add(before, seq![m]);
        assert(before + seq![m] =~= before.push(m));
    }
}

proof fn lemma_ending_digitless(s: Stream, unique_frac: u64)
    ensures
        digitless(ending(s, unique_frac).0),
{
    let next = rng::moved(s, rng::after(s.pos, 1));
    lemma_morae_digitless(past(next, 3), (2 + rng::drawn(next, 3).0) as nat);
    assert(digitless(seq![' ']));
    lemma_digitless_add(seq![' '], coined(next).0);
}

/// Fabricated text reads as Japanese: no ASCII digits in any line.
pub proof fn law_lines_are_digitless(s: Stream, unique_frac: u64, n: nat)
    ensures
        forall|i: int|
            0 <= i < lines(s, unique_frac, n).0.len() ==> digitless(
                (#[trigger] lines(s, unique_frac, n).0[i]).text,
            ),
    decreases n,
{
    if n > 0 {
        law_lines_are_digitless(s, unique_frac, (n - 1) as nat);
        let before = lines(s, unique_frac, (n - 1) as nat);
        let p = nth_pair(before.1, n - 1);
        let e = ending(p.1, unique_frac);
        lemma_pair_digitless(p.0);
        lemma_ending_digitless(p.1, unique_frac);
        lemma_digitless_add(pair_of(p.0).0, e.0);
        lemma_digitless_add(pair_of(p.0).1, e.0);
        let now = lines(s, unique_frac, n).0;
        assert forall|i: int| 0 <= i < now.len() implies digitless((#[trigger] now[i]).text) by {
            if i < before.0.len() {
                assert(now[i] == before.0[i]);
            }
        }
    }
}

proof fn lemma_pair_digitless(i: int)
    ensures
        digitless(pair_of(i).0),
        digitless(pair_of(i).1),
{
    if i == 0 {
        reveal_strlit("今日はいい天気だね");
        reveal_strlit("うん、散歩しよう");
    } else if i == 1 {
        reveal_strlit("散歩しない？");
        reveal_strlit("いいね、散歩しよう");
    } else if i == 2 {
        reveal_strlit("外歩きたい");
        reveal_strlit("じゃあ散歩しよう");
    } else if i == 3 {
        reveal_strlit("公園いこ");
        reveal_strlit("散歩しよう、公園");
    } else if i == 4 {
        reveal_strlit("また天気いいね");
        reveal_strlit("散歩しよう");
    } else if i == 5 {
        reveal_strlit("コーヒー飲む？");
        reveal_strlit("飲む、コーヒーがいい");
    } else if i == 6 {
        reveal_strlit("カフェいこ");
        reveal_strlit("コーヒー飲もう");
    } else if i == 7 {
        reveal_strlit("眠いからコーヒー");
        reveal_strlit("コーヒー飲む？");
    } else if i == 8 {
        reveal_strlit("朝はコーヒー");
        reveal_strlit("私もコーヒー飲む");
    } else if i == 9 {
        reveal_strlit("もう一杯");
        reveal_strlit("コーヒー飲もう");
    } else if i == 10 {
        reveal_strlit("猫かわいい");
        reveal_strlit("うちの猫もかわいい");
    } else if i == 11 {
        reveal_strlit("猫なでたい");
        reveal_strlit("猫かわいいね");
    } else if i == 12 {
        reveal_strlit("猫の動画みた");
        reveal_strlit("猫かわいい");
    } else if i == 13 {
        reveal_strlit("猫飼ってる？");
        reveal_strlit("うちの猫かわいい");
    } else if i == 14 {
        reveal_strlit("また猫");
        reveal_strlit("猫かわいいね");
    } else if i == 15 {
        reveal_strlit("眠いね");
        reveal_strlit("仕事つらい");
    } else if i == 16 {
        reveal_strlit("今日も仕事");
        reveal_strlit("眠いね、仕事");
    } else if i == 17 {
        reveal_strlit("残業だ");
        reveal_strlit("仕事つらいね");
    } else if i == 18 {
        reveal_strlit("休みたい");
        reveal_strlit("仕事つらい、眠い");
    } else if i == 19 {
        reveal_strlit("まだ仕事？");
        reveal_strlit("仕事つらい");
    } else if i == 20 {
        reveal_strlit("ゲームしよう");
        reveal_strlit("今日はゲームしない");
    } else if i == 21 {
        reveal_strlit("何する？");
        reveal_strlit("ゲームしようか");
    } else if i == 22 {
        reveal_strlit("暇だね");
        reveal_strlit("ゲームしない？");
    } else if i == 23 {
        reveal_strlit("今夜空いてる？");
        reveal_strlit("ゲームしよう");
    } else if i == 24 {
        reveal_strlit("またゲーム");
        reveal_strlit("ゲームしようか");
    } else if i == 25 {
        reveal_strlit("おはよう");
        reveal_strlit("おはよう");
    } else {
        reveal_strlit("ありがとう");
        reveal_strlit("いえいえ");
    }
}

/// The lines of a pair come one and two ticks after what was before, end alike, and are those
/// of the register, in order as long as it lasts. An ending is a blank and a coined word of two
/// to four morae, or nothing.
pub proof fn law_pairs_follow_the_register(s: Stream, unique_frac: u64, n: nat, i: int)
    requires
        0 <= i < n,
        FIRST_T + 2 * n <= u64::MAX,
    ensures
        ({
            let ls = lines(s, unique_frac, n).0;
            &&& ls.len() == 2 * n
            &&& ls[2 * i].t == 1_700_000_000_000 + 2 * i
            &&& ls[2 * i + 1].t == 1_700_000_000_000 + 2 * i + 1
            &&& exists|p: int, e: Seq<char>|
                {
                    &&& ls[2 * i].text == #[trigger] pair_of(p).0 + e
                    &&& ls[2 * i + 1].text == pair_of(p).1 + e
                    &&& 0 <= p < N_PAIRS
                    &&& i < N_PAIRS ==> p == i
                    &&& #[trigger] e.len() == 0 || (3 <= e.len() <= 5 && e[0] == ' ')
                }
        }),
    decreases n,
{
    law_lines_alternate(s, unique_frac, n);
    law_lines_alternate(s, unique_frac, (n - 1) as nat);
    let before = lines(s, unique_frac, (n - 1) as nat);
    let ls = lines(s, unique_frac, n).0;
    if i < n - 1 {
        law_pairs_follow_the_register(s, unique_frac, (n - 1) as nat, i);
        assert(ls[2 * i] == before.0[2 * i]);
        assert(ls[2 * i + 1] == before.0[2 * i + 1]);
    } else {
        let p = nth_pair(before.1, n - 1);
        let e = ending(p.1, unique_frac);
        rng::law_draws_stay_below(before.1, N_PAIRS as int);
        let next = rng::moved(p.1, rng::after(p.1.pos, 1));
        rng::law_draws_stay_below(next, 3);
        lemma_morae_len(past(next, 3), (2 + rng::drawn(next, 3).0) as nat);
        assert(ls[2 * i].text == pair_of(p.0).0 + e.0);
        assert(e.0.len() == 0 || (3 <= e.0.len() <= 5 && e.0[0] == ' '));
    }
}

proof fn lemma_morae_len(s: Stream, n: nat)
    ensures
        morae(s, n).0.len() == n,
    decreases n,
{
    if n > 0 {
        lemma_morae_len(s, (n - 1) as nat);
    }
}

/// One pair is made at least, and as many as were asked for.
pub proof fn law_one_pair_at_least(opts: FabricateOpts)
    ensures
        n_pairs(opts) >= 1,
        opts.pairs >= 1 ==> n_pairs(opts) == opts.pairs,
{
}

} // verus!
