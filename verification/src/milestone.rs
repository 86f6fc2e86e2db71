//! 節目 — growth marks from digest crossings; counts and days, not fake
//! emotion. A crossing is a property of adjacent records, so replay never
//! re-fires a mark and reopening cannot lose one.
//!
//! よそよそしさ: a speech gap of `ALOOF_GAP_DAYS` days or more damps the dials for the
//! next `ALOOF_SPEECH` speech records.
use crate::observe::Digest;
use crate::observe::LogDigest;
use crate::text;
use crate::weather;
use vstd::prelude::*;

verus! {

/// この日数以上あくと、よそよそしくなる。
pub const ALOOF_GAP_DAYS: u64 = 7;

/// よそよそしさが解けるまでの発話レコード数。
pub const ALOOF_SPEECH: u32 = 20;

/// 吸収数の節目。
pub open spec fn learned_marks() -> Seq<int> {
    seq![10, 100, 1_000, 10_000, 100_000]
}

/// 初回記録からの日数の節目。
pub open spec fn day_marks() -> Seq<int> {
    seq![7, 30, 100, 365, 730, 1095]
}

fn learned_mark(i: usize) -> (r: u64)
    requires
        i < 5,
    ensures
        r == learned_marks()[i as int],
{
    if i == 0 {
        10
    } else if i == 1 {
        100
    } else if i == 2 {
        1_000
    } else if i == 3 {
        10_000
    } else {
        100_000
    }
}

fn day_mark(i: usize) -> (r: u64)
    requires
        i < 6,
    ensures
        r == day_marks()[i as int],
{
    if i == 0 {
        7
    } else if i == 1 {
        30
    } else if i == 2 {
        100
    } else if i == 3 {
        365
    } else if i == 4 {
        730
    } else {
        1095
    }
}

/// A mark lies between what was and what is.
pub open spec fn crossed(before: int, now: int, mark: int) -> bool {
    before < mark <= now
}

/// Of the first `k` day marks, the largest that was crossed.
pub open spec fn day_crossed(before: int, now: int, k: int) -> Option<int>
    decreases k,
{
    if k <= 0 {
        None
    } else if crossed(before, now, day_marks()[k - 1]) {
        Some(day_marks()[k - 1])
    } else {
        day_crossed(before, now, k - 1)
    }
}

/// Age in days, from the first dialogue record.
pub open spec fn age_at(first: u64, t: u64) -> int {
    crate::observe::days_between(first, t) as int
}

/// The line about a reunion.
pub open spec fn reunion(pre_aloof: u32, d: Digest) -> Seq<Seq<char>> {
    if pre_aloof == 0 && d.aloof_left > 0 && d.last_gap_days >= ALOOF_GAP_DAYS {
        seq![text::digits(d.last_gap_days as nat) + "日ぶり"@]
    } else {
        Seq::empty()
    }
}

/// The line about a crossed day mark.
pub open spec fn day_line(pre_last_t: Option<u64>, d: Digest) -> Seq<Seq<char>> {
    match (d.first_speech_t, d.last_speech_t, pre_last_t) {
        (Some(first), Some(now), Some(pre)) => match day_crossed(
            age_at(first, pre),
            age_at(first, now),
            6,
        ) {
            Some(m) => seq!["節目 "@ + text::digits(m as nat) + "日目"@],
            None => Seq::empty(),
        },
        _ => Seq::empty(),
    }
}

/// The lines about the first `k` marks of absorption, where crossed.
pub open spec fn learned_lines(pre: int, now: int, k: int) -> Seq<Seq<char>>
    decreases k,
{
    if k <= 0 {
        Seq::empty()
    } else if crossed(pre, now, learned_marks()[k - 1]) {
        learned_lines(pre, now, k - 1).push(
            "節目 吸収"@ + text::digits(learned_marks()[k - 1] as nat),
        )
    } else {
        learned_lines(pre, now, k - 1)
    }
}

/// All lines: reunion first, then the largest day mark, then the marks of absorption.
pub open spec fn all_lines(pre_learned: int, pre_last_t: Option<u64>, pre_aloof: u32, d: Digest) -> Seq<Seq<char>> {
    reunion(pre_aloof, d) + day_line(pre_last_t, d) + learned_lines(pre_learned, d.learned, 5)
}

fn line(before: &str, n: u64, after: &str) -> (r: String)
    ensures
        r@ == before@ + text::digits(n as nat) + after@,
{
    let mut out = text::chars_of(before);
    text::put(&mut out, &text::decimal(n));
    text::put_str(&mut out, after);
    text::string_of(&out)
}

fn days_from(first: u64, t: u64) -> (r: u64)
    ensures
        r == age_at(first, t),
{
    let a: u64 = weather::day_of_ms(first);
    let b: u64 = weather::day_of_ms(t);
    if b < a {
        0
    } else {
        b - a
    }
}

/// Marks crossed by the records just ingested. `pre_*` are the digest values
/// captured before the append. At most a couple of short lines.
pub fn lines(pre_learned: usize, pre_last_t: Option<u64>, pre_aloof: u32, d: &LogDigest) -> (out: Vec<String>)
    ensures
        text::texts(out@) == all_lines(pre_learned as int, pre_last_t, pre_aloof, d@),
{
    let mut out: Vec<String> = Vec::new();
    // Reunion first: after a long absence it is the line that matters.
    if pre_aloof == 0 && d.aloof_left > 0 && d.last_gap_days >= ALOOF_GAP_DAYS {
        let s = line("", d.last_gap_days, "日ぶり");
        proof {
            reveal_strlit("");
            assert(s@ =~= text::digits(d.last_gap_days as nat) + "日ぶり"@);
        }
        out.push(s);
    }
    proof {
        assert(text::texts(out@) =~= reunion(pre_aloof, d@));
    }
    let ghost one = out@;
    // A single turn can cross several day marks (long gap): report only the largest.
    match (d.first_speech_t, d.last_speech_t, pre_last_t) {
        (Some(first), Some(now), Some(pre)) => {
            let pre_age: u64 = days_from(first, pre);
            let now_age: u64 = days_from(first, now);
            let mut k: usize = 6;
            while k > 0 && !(pre_age < day_mark(k - 1) && now_age >= day_mark(k - 1))
                invariant
                    k <= 6,
                    day_crossed(pre_age as int, now_age as int, 6) == day_crossed(
                        pre_age as int,
                        now_age as int,
                        k as int,
                    ),
                decreases k,
            {
                k -= 1;
            }
            if k > 0 {
                out.push(line("節目 ", day_mark(k - 1), "日目"));
            }
            proof {
                assert(text::texts(out@) =~= text::texts(one) + day_line(pre_last_t, d@));
            }
        },
        _ => {
            proof {
                assert(text::texts(out@) =~= text::texts(one) + day_line(pre_last_t, d@));
            }
        },
    }
    let ghost two = out@;
    let mut k: usize = 0;
    proof {
        assert(text::texts(out@) =~= text::texts(two) + learned_lines(
            pre_learned as int,
            d.learned as int,
            0,
        ));
    }
    while k < 5
        invariant
            k <= 5,
            text::texts(out@) == text::texts(two) + learned_lines(
                pre_learned as int,
                d.learned as int,
                k as int,
            ),
        decreases 5 - k,
    {
        let m: u64 = learned_mark(k);
        let ghost before = out@;
        if (pre_learned as u64) < m && d.learned as u64 >= m {
            let s = line("節目 吸収", m, "");
            proof {
                reveal_strlit("");
                assert(s@ =~= "節目 吸収"@ + text::digits(m as nat));
            }
            out.push(s);
            proof {
                assert(text::texts(out@) =~= text::texts(before).push(s@));
            }
        }
        k += 1;
        proof {
            assert(text::texts(out@) =~= text::texts(two) + learned_lines(
                pre_learned as int,
                d.learned as int,
                k as int,
            ));
        }
    }
    out
}

/// The marks up to a number.
pub open spec fn reached(marks: Seq<int>, n: int) -> Seq<int> {
    marks.filter(|m: int| n >= m)
}

/// Achieved marks for あゆみ: (learned marks reached, day marks reached).
pub fn achieved(learned: usize, age_days: u64) -> (r: (Vec<u64>, Vec<u64>))
    ensures
        r.0@.map_values(|m: u64| m as int) == reached(learned_marks(), learned as int),
        r.1@.map_values(|m: u64| m as int) == reached(day_marks(), age_days as int),
{
    let mut a: Vec<u64> = Vec::new();
    let mut i: usize = 0;
    proof {
        lemma_reached_none(learned_marks(), learned as int);
        lemma_reached_none(day_marks(), age_days as int);
        assert(a@.map_values(|m: u64| m as int) =~= Seq::<int>::empty());
    }
    while i < 5
        invariant
            i <= 5,
            a@.map_values(|m: u64| m as int) == reached(
                learned_marks().subrange(0, i as int),
                learned as int,
            ),
        decreases 5 - i,
    {
        let m: u64 = learned_mark(i);
        let ghost before = a@;
        if learned as u64 >= m {
            a.push(m);
        }
        proof {
            lemma_reached_step(learned_marks(), learned as int, i as int);
            assert(before.push(m).map_values(|m: u64| m as int) =~= before.map_values(
                |m: u64| m as int,
            ).push(m as int));
        }
        i += 1;
    }
    let mut b: Vec<u64> = Vec::new();
    let mut j: usize = 0;
    proof {
        assert(b@.map_values(|m: u64| m as int) =~= Seq::<int>::empty());
    }
    while j < 6
        invariant
            j <= 6,
            b@.map_values(|m: u64| m as int) == reached(
                day_marks().subrange(0, j as int),
                age_days as int,
            ),
        decreases 6 - j,
    {
        let m: u64 = day_mark(j);
        let ghost before = b@;
        if age_days >= m {
            b.push(m);
        }
        proof {
            lemma_reached_step(day_marks(), age_days as int, j as int);
            assert(before.push(m).map_values(|m: u64| m as int) =~= before.map_values(
                |m: u64| m as int,
            ).push(m as int));
        }
        j += 1;
    }
    proof {
        assert(learned_marks().subrange(0, 5) =~= learned_marks());
        assert(day_marks().subrange(0, 6) =~= day_marks());
    }
    (a, b)
}

proof fn lemma_reached_none(marks: Seq<int>, n: int)
    ensures
        reached(marks.subrange(0, 0), n) == Seq::<int>::empty(),
{
    reveal(Seq::filter);
    assert(marks.subrange(0, 0).len() == 0);
}

proof fn lemma_reached_step(marks: Seq<int>, n: int, i: int)
    requires
        0 <= i < marks.len(),
    ensures
        reached(marks.subrange(0, i + 1), n) == (if n >= marks[i] {
            reached(marks.subrange(0, i), n).push(marks[i])
        } else {
            reached(marks.subrange(0, i), n)
        }),
{
    reveal(Seq::filter);
    assert(marks.subrange(0, i + 1).drop_last() =~= marks.subrange(0, i));
}

/// A mark fires on the turn that crosses it and on no later one.
pub proof fn law_mark_fires_once(mark: int, n0: int, n1: int, n2: int, n3: int)
    requires
        n0 <= n1 <= n2 <= n3,
        crossed(n0, n1, mark),
    ensures
        !crossed(n2, n3, mark),
{
}

/// A turn without a crossing has no line about absorption.
pub proof fn law_no_crossing_no_line(pre: int, now: int, k: int)
    requires
        0 <= k <= 5,
        forall|i: int| 0 <= i < 5 ==> !crossed(pre, now, #[trigger] learned_marks()[i]),
    ensures
        learned_lines(pre, now, k).len() == 0,
    decreases k,
{
    if k > 0 {
        law_no_crossing_no_line(pre, now, k - 1);
    }
}

/// The marks of absorption are powers of ten, from ten on; the marks in days rise from a week.
pub proof fn law_marks_rise()
    ensures
        learned_marks()[0] == 10,
        forall|i: int|
            1 <= i < learned_marks().len() ==> #[trigger] learned_marks()[i] == 10
                * learned_marks()[i - 1],
        day_marks()[0] == 7,
        forall|i: int, j: int|
            0 <= i < j < day_marks().len() ==> #[trigger] day_marks()[i] < #[trigger] day_marks()[j],
        forall|y: int|
            1 <= y <= 3 ==> #[trigger] day_marks().contains(365 * y),
{
    assert forall|y: int| 1 <= y <= 3 implies #[trigger] day_marks().contains(365 * y) by {
        assert(day_marks()[y + 2] == 365 * y);
    }
}

proof fn lemma_day_crossed(before: int, now: int, k: int)
    requires
        0 <= k <= 6,
    ensures
        match day_crossed(before, now, k) {
            Some(m) => exists|i: int|
                0 <= i < k && day_marks()[i] == m && before < m <= now && forall|j: int|
                    i < j < k ==> !(before < #[trigger] day_marks()[j] <= now),
            None => forall|j: int| 0 <= j < k ==> !(before < #[trigger] day_marks()[j] <= now),
        },
    decreases k,
{
    if k > 0 {
        lemma_day_crossed(before, now, k - 1);
        if before < day_marks()[k - 1] <= now {
            assert(day_marks()[k - 1] == day_crossed(before, now, k)->0);
        } else if let Some(m) = day_crossed(before, now, k - 1) {
            let i = choose|i: int|
                0 <= i < k - 1 && day_marks()[i] == m && before < m <= now && forall|j: int|
                    i < j < k - 1 ==> !(before < #[trigger] day_marks()[j] <= now);
            assert(day_marks()[i] == m);
        }
    }
}

/// Of the day marks that a turn passes, the largest is told; where it passes none, none is.
pub proof fn law_the_largest_day_mark_is_told(before: int, now: int)
    ensures
        match day_crossed(before, now, 6) {
            Some(m) => day_marks().contains(m) && before < m <= now && forall|o: int|
                #[trigger] day_marks().contains(o) && before < o <= now ==> o <= m,
            None => forall|o: int| #[trigger]
                day_marks().contains(o) ==> o <= before || now < o,
        },
{
    lemma_day_crossed(before, now, 6);
    law_marks_rise();
    match day_crossed(before, now, 6) {
        Some(m) => {
            let i = choose|i: int|
                0 <= i < 6 && day_marks()[i] == m && before < m <= now && forall|j: int|
                    i < j < 6 ==> !(before < #[trigger] day_marks()[j] <= now);
            assert forall|o: int| #[trigger] day_marks().contains(o) && before < o <= now implies o
                <= m by {
                let j = choose|j: int| 0 <= j < day_marks().len() && day_marks()[j] == o;
                assert(!(i < j));
                assert(day_marks()[i] == m);
            }
        },
        None => {
            assert forall|o: int| #[trigger] day_marks().contains(o) implies o <= before || now
                < o by {
                let j = choose|j: int| 0 <= j < day_marks().len() && day_marks()[j] == o;
                assert(!(before < day_marks()[j] <= now));
            }
        },
    }
}

proof fn lemma_learned_lines(pre: int, now: int, k: int)
    requires
        0 <= k <= 5,
    ensures
        learned_lines(pre, now, k) == learned_marks().take(k).filter(
            |m: int| pre < m <= now,
        ).map_values(|m: int| "節目 吸収"@ + text::digits(m as nat)),
    decreases k,
{
    reveal(Seq::filter);
    if k > 0 {
        lemma_learned_lines(pre, now, k - 1);
        assert(learned_marks().take(k).drop_last() =~= learned_marks().take(k - 1));
    }
    assert(learned_lines(pre, now, k) =~= learned_marks().take(k).filter(
        |m: int| pre < m <= now,
    ).map_values(|m: int| "節目 吸収"@ + text::digits(m as nat)));
}

/// Every mark of absorption that a turn passes is told, the smallest first, and no other is.
pub proof fn law_passed_marks_are_told(pre: int, now: int)
    ensures
        learned_lines(pre, now, 5) == learned_marks().filter(
            |m: int| pre < m <= now,
        ).map_values(|m: int| "節目 吸収"@ + text::digits(m as nat)),
{
    lemma_learned_lines(pre, now, 5);
    assert(learned_marks().take(5) =~= learned_marks());
}

/// A reunion is told once, on the turn that makes the bot distant after a week or more, with
/// the days that went by; it stands before everything else.
pub proof fn law_a_reunion_is_told_once(
    pre_learned: int,
    pre_last_t: Option<u64>,
    pre_aloof: u32,
    d: Digest,
)
    ensures
        pre_aloof > 0 ==> all_lines(pre_learned, pre_last_t, pre_aloof, d) == day_line(
            pre_last_t,
            d,
        ) + learned_lines(pre_learned, d.learned, 5),
        pre_aloof == 0 && d.aloof_left > 0 && d.last_gap_days >= 7 ==> all_lines(
            pre_learned,
            pre_last_t,
            pre_aloof,
            d,
        ).first() == text::digits(d.last_gap_days as nat) + "日ぶり"@,
        pre_last_t is None && d.last_gap_days < 7 ==> all_lines(
            pre_learned,
            pre_last_t,
            pre_aloof,
            d,
        ) == learned_lines(pre_learned, d.learned, 5),
{
    assert(Seq::<Seq<char>>::empty() + day_line(pre_last_t, d) =~= day_line(pre_last_t, d));
    assert(Seq::<Seq<char>>::empty() + Seq::<Seq<char>>::empty() + learned_lines(
        pre_learned,
        d.learned,
        5,
    ) =~= learned_lines(pre_learned, d.learned, 5));
}

/// A mark counts as reached from the moment it is met on.
pub proof fn law_reached_marks_are_those_met(marks: Seq<int>, n: int, m: int)
    requires
        marks.contains(m),
    ensures
        reached(marks, n).contains(m) <==> n >= m,
{
    let met = |o: int| n >= o;
    if n >= m {
        let i = choose|i: int| 0 <= i < marks.len() && marks[i] == m;
        marks.lemma_filter_contains(met, i);
    }
    if reached(marks, n).contains(m) {
        let j = choose|j: int| 0 <= j < reached(marks, n).len() && reached(marks, n)[j] == m;
        marks.lemma_filter_pred(met, j);
    }
}

/// The day line is about the days since the first record: the largest mark that they passed
/// since the turn before is told, and nothing where they passed none.
pub proof fn law_the_day_line_tells_the_days_since_the_first(
    d: Digest,
    first: u64,
    pre: u64,
    now: u64,
    m: int,
)
    requires
        d.first_speech_t == Some(first),
        d.last_speech_t == Some(now),
        first <= pre <= now,
        day_marks().contains(m),
    ensures
        ({
            let was = pre as int / 86_400_000 - first as int / 86_400_000;
            let is = now as int / 86_400_000 - first as int / 86_400_000;
            &&& was < m <= is && (forall|o: int| #[trigger]
                day_marks().contains(o) && was < o <= is ==> o <= m) ==> day_line(Some(pre), d)
                == seq!["節目 "@ + text::digits(m as nat) + "日目"@]
            &&& (forall|o: int| #[trigger] day_marks().contains(o) ==> o <= was || is < o)
                ==> day_line(Some(pre), d).len() == 0
            &&& day_line(None, d).len() == 0
        }),
{
    let was = pre as int / 86_400_000 - first as int / 86_400_000;
    let is = now as int / 86_400_000 - first as int / 86_400_000;
    assert(age_at(first, pre) == was);
    assert(age_at(first, now) == is);
    law_the_largest_day_mark_is_told(was, is);
}

} // verus!
