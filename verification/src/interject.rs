//! 合いの手 — 返答の前に出す、学習済みの短い一行。
//!
//! 固定テーブルは持たない。自ログの学習済み短発話を頻度つきで収穫し、その分布から引く
//! （素材は自ログのみ）。
//!
//! Display only — a verbatim copy of an already-learned line, neither logged nor
//! re-absorbed, so replay is unchanged.
use crate::charclass;
use crate::fx;
use crate::rng;
use crate::rng::Stream;
use crate::text;
use rustc_hash::FxHashMap;
use vstd::prelude::*;

verus! {

/// 合いの手として収穫する最大文字数。
pub const MAX_CHARS: usize = 8;

/// この数の distinct 発話が集まるまでは黙っている。
pub const MIN_DISTINCT: usize = 3;

pub struct InterjectBank {
    /// (text, count) in first-seen log order — the order is part of the
    /// deterministic pick and is identical live and on replay.
    pub items: Vec<(String, u64)>,
    pub index: FxHashMap<String, u32>,
    pub total: u64,
}

/// What a bank holds.
pub open spec fn held(items: Seq<(String, u64)>) -> Seq<(Seq<char>, int)> {
    items.map_values(|e: (String, u64)| (e.0@, e.1 as int))
}

/// Short enough to interject, and not punctuation only.
pub open spec fn harvested(t: Seq<char>) -> bool {
    &&& 0 < t.len() <= MAX_CHARS
    &&& exists|i: int| 0 <= i < t.len() && charclass::wordly(#[trigger] t[i])
}

/// Where a text stands.
pub open spec fn stands_at(bank: Seq<(Seq<char>, int)>, t: Seq<char>, i: int) -> bool {
    0 <= i < bank.len() && bank[i].0 == t
}

/// The bank after one learned utterance.
pub open spec fn fed(bank: Seq<(Seq<char>, int)>, utterance: Seq<char>) -> Seq<(Seq<char>, int)> {
    let t = text::trimmed(utterance);
    if !harvested(t) {
        bank
    } else if exists|i: int| #[trigger] stands_at(bank, t, i) {
        let i = choose|i: int| #[trigger] stands_at(bank, t, i);
        bank.update(i, (t, bank[i].1 + 1))
    } else {
        bank.push((t, 1))
    }
}

/// Sum of the first `k` counts.
pub open spec fn weight(bank: Seq<(Seq<char>, int)>, k: int) -> int
    decreases k,
{
    if k <= 0 {
        0
    } else {
        weight(bank, k - 1) + bank[k - 1].1
    }
}

/// The text that a draw below the sum of the counts falls on.
pub open spec fn falls_on(bank: Seq<(Seq<char>, int)>, r: int, i: int) -> bool {
    0 <= i < bank.len() && weight(bank, i) <= r < weight(bank, i) + bank[i].1
}

proof fn lemma_weight_update(bank: Seq<(Seq<char>, int)>, i: int, e: (Seq<char>, int), k: int)
    requires
        0 <= i < bank.len(),
        0 <= k <= bank.len(),
    ensures
        weight(bank.update(i, e), k) == weight(bank, k) + (if i < k {
            e.1 - bank[i].1
        } else {
            0
        }),
    decreases k,
{
    if k > 0 {
        lemma_weight_update(bank, i, e, k - 1);
    }
}

proof fn lemma_weight_push(bank: Seq<(Seq<char>, int)>, e: (Seq<char>, int), k: int)
    requires
        0 <= k <= bank.len(),
    ensures
        weight(bank.push(e), k) == weight(bank, k),
    decreases k,
{
    if k > 0 {
        lemma_weight_push(bank, e, k - 1);
    }
}

proof fn lemma_weight_mono(bank: Seq<(Seq<char>, int)>, i: int, k: int)
    requires
        0 <= i <= k <= bank.len(),
        forall|j: int| 0 <= j < bank.len() ==> (#[trigger] bank[j]).1 >= 0,
    ensures
        0 <= weight(bank, i) <= weight(bank, k),
    decreases k,
{
    if i < k {
        lemma_weight_mono(bank, i, k - 1);
    } else if k > 0 {
        lemma_weight_mono(bank, i - 1, k - 1);
    }
}

impl InterjectBank {
    pub open spec fn wf(&self) -> bool {
        let bank = held(self.items@);
        &&& self.items.len() < u32::MAX
        &&& self.total == weight(bank, bank.len() as int)
        &&& forall|i: int| 0 <= i < bank.len() ==> (#[trigger] bank[i]).1 > 0
        &&& forall|i: int|
            0 <= i < bank.len() ==> fx::words(self.index).dom().contains((#[trigger] bank[i]).0)
                && fx::words(self.index)[bank[i].0] == i
        &&& forall|t: Seq<char>| #[trigger]
            fx::words(self.index).dom().contains(t) ==> stands_at(
                bank,
                t,
                fx::words(self.index)[t] as int,
            )
    }

    pub fn new() -> (r: Self)
        ensures
            r.wf(),
            held(r.items@) == Seq::<(Seq<char>, int)>::empty(),
    {
        let r = InterjectBank { items: Vec::new(), index: fx::new_words(), total: 0 };
        proof {
            assert(held(r.items@) =~= Seq::<(Seq<char>, int)>::empty());
        }
        r
    }

    /// Harvests one learned utterance (either role). Long lines and lines of punctuation only
    /// are ignored.
    pub fn learn(&mut self, utterance: &str)
        requires
            old(self).wf(),
            old(self).items.len() < u32::MAX - 1,
            old(self).total < u64::MAX,
        ensures
            final(self).wf(),
            held(final(self).items@) == fed(held(old(self).items@), utterance@),
            final(self).items.len() <= old(self).items.len() + 1,
            final(self).total <= old(self).total + 1,
    {
        let t = text::trim_chars(&text::chars_of(utterance));
        let ghost bank = held(self.items@);
        let ghost w = t@;
        if t.len() == 0 || t.len() > MAX_CHARS || !speaks(&t) {
            return ;
        }
        let s = text::string_of(&t);
        match fx::get_word(&self.index, s.as_str()) {
            Some(i) => {
                proof {
                    assert(stands_at(bank, w, i as int));
                    let j = choose|j: int| #[trigger] stands_at(bank, w, j);
                    assert(fx::words(self.index)[bank[j].0] == j);
                    lemma_weight_update(bank, i as int, (w, bank[i as int].1 + 1), bank.len() as int);
                    lemma_weight_mono(bank, i + 1, bank.len() as int);
                    lemma_weight_mono(bank, i as int, i as int);
                }
                let c: u64 = self.items[i as usize].1;
                let name: String = self.items[i as usize].0.clone();
                self.items.set(i as usize, (name, c + 1));
                self.total = self.total + 1;
                proof {
                    assert(held(self.items@) =~= bank.update(i as int, (w, bank[i as int].1 + 1)));
                    assert forall|k: int| 0 <= k < held(self.items@).len() implies #[trigger] held(
                        self.items@,
                    )[k].0 == bank[k].0 by {}
                }
            },
            None => {
                let i: u32 = self.items.len() as u32;
                proof {
                    assert forall|j: int| !#[trigger] stands_at(bank, w, j) by {
                        if stands_at(bank, w, j) {
                            assert(fx::words(self.index).dom().contains(bank[j].0));
                        }
                    }
                    lemma_weight_push(bank, (w, 1), bank.len() as int);
                }
                fx::set_word(&mut self.index, s.clone(), i);
                self.items.push((s, 1));
                self.total = self.total + 1;
                proof {
                    assert(held(self.items@) =~= bank.push((w, 1)));
                }
            },
        }
    }

    /// Number of different lines.
    pub fn distinct(&self) -> (r: usize)
        ensures
            r == held(self.items@).len(),
    {
        self.items.len()
    }

    /// The line that a draw falls on, unless it is the one to leave out.
    pub fn pick_at(&self, draw: u64, exclude: &str) -> (r: Option<String>)
        requires
            self.wf(),
        ensures
            draw >= self.total ==> r is None,
            draw < self.total ==> exists|i: int|
                #[trigger] falls_on(held(self.items@), draw as int, i) && (match r {
                    Some(s) => s@ == held(self.items@)[i].0 && s@ != exclude@,
                    None => held(self.items@)[i].0 == exclude@,
                }),
    {
        let ghost bank = held(self.items@);
        let ex = exclude.to_owned();
        let mut left: u64 = draw;
        let mut i: usize = 0;
        while i < self.items.len()
            invariant
                self.wf(),
                bank == held(self.items@),
                ex@ == exclude@,
                i <= self.items.len(),
                left == draw - weight(bank, i as int),
            decreases self.items.len() - i,
        {
            let c: u64 = self.items[i].1;
            assert(bank[i as int].1 == c);
            if left < c {
                proof {
                    assert(falls_on(bank, draw as int, i as int));
                    lemma_weight_mono(bank, i + 1, bank.len() as int);
                }
                if self.items[i].0 == ex {
                    return None;
                }
                return Some(self.items[i].0.clone());
            }
            left = left - c;
            i += 1;
        }
        None
    }

    /// Frequency-weighted draw. `None` when the bank is too small or the draw lands on
    /// `exclude` (no redraw).
    pub fn pick(&self, rng: &mut Stream, exclude: &str) -> (r: Option<String>)
        requires
            self.wf(),
            old(rng).wf(),
            self.total <= usize::MAX,
        ensures
            final(rng).wf(),
            final(rng).seed == old(rng).seed,
            self.items.len() < MIN_DISTINCT ==> r is None && *final(rng) == *old(rng),
            self.items.len() >= MIN_DISTINCT ==> final(rng).pos == rng::drawn(
                *old(rng),
                self.total as int,
            ).1,
            self.items.len() >= MIN_DISTINCT ==> exists|i: int|
                {
                    &&& #[trigger] falls_on(
                        held(self.items@),
                        rng::drawn(*old(rng), self.total as int).0,
                        i,
                    )
                    &&& match r {
                        Some(s) => s@ == held(self.items@)[i].0 && s@ != exclude@,
                        None => held(self.items@)[i].0 == exclude@,
                    }
                },
    {
        if self.distinct() < MIN_DISTINCT {
            return None;
        }
        proof {
            let bank = held(self.items@);
            assert(bank[0].1 > 0 && bank[1].1 > 0);
            reveal_with_fuel(weight, 3);
            lemma_weight_mono(bank, 2, bank.len() as int);
        }
        let ghost start = *rng;
        let d: usize = rng.rand_below(self.total as usize);
        let r = self.pick_at(d as u64, exclude);
        proof {
            let i = choose|i: int|
                #[trigger] falls_on(held(self.items@), d as int, i) && (match r {
                    Some(s) => s@ == held(self.items@)[i].0 && s@ != exclude@,
                    None => held(self.items@)[i].0 == exclude@,
                });
            assert(falls_on(held(self.items@), rng::drawn(start, self.total as int).0, i));
        }
        r
    }

    /// The lines with their counts.
    pub fn entries(&self) -> (r: Vec<(String, u64)>)
        ensures
            held(r@) == held(self.items@),
    {
        let mut r: Vec<(String, u64)> = Vec::new();
        let mut i: usize = 0;
        while i < self.items.len()
            invariant
                i <= self.items.len(),
                r.len() == i,
                forall|k: int|
                    0 <= k < i ==> (#[trigger] r[k]).0@ == self.items[k].0@ && r[k].1
                        == self.items[k].1,
            decreases self.items.len() - i,
        {
            r.push((self.items[i].0.clone(), self.items[i].1));
            i += 1;
        }
        proof {
            assert(held(r@) =~= held(self.items@));
        }
        r
    }
}

/// Whether a line has a letter, a number, kana or kanji.
fn speaks(t: &Vec<char>) -> (r: bool)
    ensures
        r == exists|i: int| 0 <= i < t.len() && charclass::wordly(#[trigger] t[i]),
{
    let mut i: usize = 0;
    while i < t.len()
        invariant
            i <= t.len(),
            forall|k: int| 0 <= k < i ==> !charclass::wordly(#[trigger] t[k]),
        decreases t.len() - i,
    {
        if charclass::is_wordly(t[i]) {
            assert(charclass::wordly(t[i as int]));
            return true;
        }
        i += 1;
    }
    false
}

/// A line of punctuation only is never harvested, whatever white space stands around it.
pub proof fn law_punctuation_is_not_harvested(bank: Seq<(Seq<char>, int)>, utterance: Seq<char>)
    requires
        charclass::punct_only(text::trimmed(utterance)),
    ensures
        fed(bank, utterance) == bank,
{
}

/// A draw falls on one line only.
pub proof fn law_draw_falls_once(bank: Seq<(Seq<char>, int)>, r: int, i: int, j: int)
    requires
        forall|k: int| 0 <= k < bank.len() ==> (#[trigger] bank[k]).1 >= 0,
        falls_on(bank, r, i),
        falls_on(bank, r, j),
    ensures
        i == j,
{
    if i < j {
        lemma_weight_mono(bank, i + 1, j);
    } else if j < i {
        lemma_weight_mono(bank, j + 1, i);
    }
}

/// A line of up to eight characters that says something is counted, white space around it
/// aside: one more than before, or once where it is new, and then it stands last. No other
/// line moves or changes. Longer lines and blank ones change nothing.
pub proof fn law_a_short_line_counts_once_more(bank: Seq<(Seq<char>, int)>, utterance: Seq<char>)
    ensures
        ({
            let t = text::trimmed(utterance);
            let now = fed(bank, utterance);
            &&& t.len() == 0 || t.len() > 8 ==> now == bank
            &&& (0 < t.len() <= 8 && exists|c: int|
                0 <= c < t.len() && charclass::wordly(#[trigger] t[c])) ==> {
                ||| exists|k: int|
                    0 <= k < bank.len() && bank[k].0 == t && now == bank.update(
                        k,
                        (t, #[trigger] bank[k].1 + 1),
                    )
                ||| (forall|k: int| 0 <= k < bank.len() ==> #[trigger] bank[k].0 != t) && now
                    == bank + seq![(t, 1int)]
            }
        }),
{
    let t = text::trimmed(utterance);
    if harvested(t) {
        if exists|i: int| #[trigger] stands_at(bank, t, i) {
            let i = choose|i: int| #[trigger] stands_at(bank, t, i);
            assert(bank[i].0 == t && fed(bank, utterance) == bank.update(i, (t, bank[i].1 + 1)));
        } else {
            assert forall|k: int| 0 <= k < bank.len() implies #[trigger] bank[k].0 != t by {
                assert(!stands_at(bank, t, k));
            }
            assert(fed(bank, utterance) =~= bank + seq![(t, 1int)]);
        }
    }
}

proof fn lemma_falls(bank: Seq<(Seq<char>, int)>, r: int, k: int)
    requires
        0 <= k <= bank.len(),
        0 <= r < weight(bank, k),
    ensures
        exists|i: int| #[trigger] falls_on(bank, r, i),
    decreases k,
{
    if r < weight(bank, k - 1) {
        lemma_falls(bank, r, k - 1);
    } else {
        assert(falls_on(bank, r, k - 1));
    }
}

/// Every draw below the sum of the counts falls on a line.
pub proof fn law_every_draw_falls(bank: Seq<(Seq<char>, int)>, r: int)
    requires
        0 <= r < weight(bank, bank.len() as int),
    ensures
        exists|i: int| #[trigger] falls_on(bank, r, i),
{
    lemma_falls(bank, r, bank.len() as int);
}

/// A line takes as many draws as it was counted: a run of them, that starts where the run of
/// the line before ends.
pub proof fn law_draws_are_shared_by_count(bank: Seq<(Seq<char>, int)>, i: int)
    requires
        0 <= i < bank.len(),
        forall|k: int| 0 <= k < bank.len() ==> (#[trigger] bank[k]).1 > 0,
    ensures
        forall|r: int| (#[trigger] falls_on(bank, r, 0)) <==> 0 <= r < bank[0].1,
        exists|start: int|
            {
                &&& forall|r: int| (#[trigger] falls_on(bank, r, i)) <==> start <= r < start
                    + bank[i].1
                &&& i > 0 ==> #[trigger] falls_on(bank, start - 1, i - 1)
            },
{
    let start = weight(bank, i);
    if i > 0 {
        assert(falls_on(bank, start - 1, i - 1));
    } else {
        assert(!falls_on(bank, start - 1, i - 1));
    }
}

} // verus!
