//! 関心 — how often and how lately chunks were absorbed, on the log-position clock,
//! never wall time: replay rebuilds identical values.
//!
//! 聞きかじり: chunks in fewer than `hearsay_min` distinct utterances carry
//! no weight and cannot anchor (a one-off typo must not anchor a reply),
//! except on 口をつく turns (`hearsay_release`).
//!
//! The weights themselves (熱 short, 根 long half-life) decay in floating point and are the
//! host's; `learn` tells it which chunks to touch and how far the clock ran since.
use crate::charclass;
use crate::fx;
use crate::ids;
use crate::ids::TokenId;
use crate::intern;
use crate::intern::Interner;
use rustc_hash::FxHashMap;
use vstd::prelude::*;

verus! {

#[derive(Debug, Clone, Copy)]
pub struct Entry {
    pub id: TokenId,
    /// Clock value at the last touch.
    pub last_g: u64,
    /// Distinct learned utterances this chunk appeared in.
    pub utts: u32,
}

/// A chunk that an utterance touched, and how far the clock ran since it was last touched.
#[derive(Debug, Clone, Copy)]
pub struct Touch {
    pub id: TokenId,
    pub elapsed: u64,
}

/// Per-chunk ledger. Rebuilt from the log on open; fed by `absorb` live.
pub struct InterestLedger {
    /// Where a chunk stands in `entries`.
    pub index: FxHashMap<u32, u32>,
    pub entries: Vec<Entry>,
    /// Log-position clock: absorbed tokens so far.
    pub g: u64,
}

/// A chunk that carries meaning: no special, no punctuation.
pub open spec fn content(v: intern::Vocab, id: u32) -> bool {
    !ids::special(id) && !charclass::punct_only(intern::text_of(v, id))
}

/// Whether a chunk carries meaning.
pub fn is_content(intern: &Interner, id: TokenId) -> (r: bool)
    ensures
        r == content(intern@, id),
{
    !ids::is_special(id) && !charclass::is_punct_str(intern.get(id))
}

/// The first `k` chunks touch this one.
pub open spec fn touched(v: intern::Vocab, chunks: Seq<u32>, k: int, id: u32) -> bool {
    content(v, id) && exists|j: int| 0 <= j < k && #[trigger] chunks[j] == id
}

/// The last entry for a chunk.
pub open spec fn latest(entries: Seq<Entry>, id: u32) -> Option<Entry>
    decreases entries.len(),
{
    if entries.len() == 0 {
        None
    } else if entries.last().id == id {
        Some(entries.last())
    } else {
        latest(entries.drop_last(), id)
    }
}

impl InterestLedger {
    /// The chunk is known.
    pub open spec fn knows(&self, id: u32) -> bool {
        self.index@.dom().contains(id)
    }

    /// Distinct utterances the chunk appeared in.
    pub open spec fn utterances(&self, id: u32) -> int {
        if self.knows(id) {
            self.entries[self.index@[id] as int].utts as int
        } else {
            0
        }
    }

    /// Clock at the chunk's last touch.
    pub open spec fn touched_at(&self, id: u32) -> int {
        if self.knows(id) {
            self.entries[self.index@[id] as int].last_g as int
        } else {
            0
        }
    }

    pub open spec fn wf(&self) -> bool {
        &&& self.entries.len() < u32::MAX
        &&& forall|id: u32| #[trigger]
            self.index@.dom().contains(id) ==> self.index@[id] < self.entries.len()
                && self.entries[self.index@[id] as int].id == id
        &&& forall|i: int|
            0 <= i < self.entries.len() ==> self.index@.dom().contains(
                (#[trigger] self.entries[i]).id,
            ) && self.index@[self.entries[i].id] == i
        &&& forall|i: int|
            0 <= i < self.entries.len() ==> (#[trigger] self.entries[i]).last_g <= self.g
    }

    /// The ledger holds what the entries say, the later of two for one chunk.
    pub open spec fn holds(&self, entries: Seq<Entry>) -> bool {
        &&& forall|id: u32| #[trigger] self.knows(id) <==> latest(entries, id) is Some
        &&& forall|id: u32| #[trigger]
            self.knows(id) ==> latest(entries, id) == Some(self.entries[self.index@[id] as int])
    }

    pub fn new() -> (r: Self)
        ensures
            r.wf(),
            r.g == 0,
            r.entries.len() == 0,
            forall|id: u32| !#[trigger] r.knows(id),
    {
        InterestLedger { index: fx::new_counts(), entries: Vec::new(), g: 0 }
    }

    /// Counts one utterance for a chunk.
    fn touch(&mut self, id: TokenId) -> (r: Touch)
        requires
            old(self).wf(),
            old(self).entries.len() < u32::MAX - 1,
        ensures
            final(self).wf(),
            final(self).g == old(self).g,
            final(self).entries.len() <= old(self).entries.len() + 1,
            r.id == id,
            r.elapsed == old(self).g - old(self).touched_at(id),
            forall|x: u32| #[trigger]
                final(self).utterances(x) == (if x == id {
                    crate::entropy::saturated(old(self).utterances(x) + 1)
                } else {
                    old(self).utterances(x)
                }),
            forall|x: u32| #[trigger]
                final(self).touched_at(x) == (if x == id {
                    old(self).g as int
                } else {
                    old(self).touched_at(x)
                }),
            forall|x: u32| #[trigger] final(self).knows(x) <==> old(self).knows(x) || x == id,
    {
        match fx::get_count(&self.index, id) {
            Some(i) => {
                let e: Entry = self.entries[i as usize];
                let utts: u32 = if e.utts < u32::MAX {
                    e.utts + 1
                } else {
                    e.utts
                };
                self.entries.set(i as usize, Entry { id, last_g: self.g, utts });
                Touch { id, elapsed: self.g - e.last_g }
            },
            None => {
                let i: u32 = self.entries.len() as u32;
                fx::set_count(&mut self.index, id, i);
                self.entries.push(Entry { id, last_g: self.g, utts: 1 });
                Touch { id, elapsed: self.g }
            },
        }
    }

    /// Absorbs one learned utterance: each distinct content chunk counts once
    /// per utterance, then the clock advances by the utterance length.
    pub fn learn(&mut self, chunks: &Vec<TokenId>, intern: &Interner) -> (r: Vec<Touch>)
        requires
            old(self).wf(),
            old(self).entries.len() + chunks.len() < u32::MAX - 1,
            old(self).g + chunks.len() <= u64::MAX,
        ensures
            final(self).wf(),
            final(self).g == old(self).g + chunks.len(),
            final(self).entries.len() <= old(self).entries.len() + chunks.len(),
            forall|id: u32| #[trigger]
                final(self).utterances(id) == (if touched(
                    intern@,
                    chunks@,
                    chunks.len() as int,
                    id,
                ) {
                    crate::entropy::saturated(old(self).utterances(id) + 1)
                } else {
                    old(self).utterances(id)
                }),
            forall|id: u32| #[trigger]
                final(self).touched_at(id) == (if touched(
                    intern@,
                    chunks@,
                    chunks.len() as int,
                    id,
                ) {
                    old(self).g as int
                } else {
                    old(self).touched_at(id)
                }),
            forall|id: u32| #[trigger]
                final(self).knows(id) <==> old(self).knows(id) || touched(
                    intern@,
                    chunks@,
                    chunks.len() as int,
                    id,
                ),
            forall|i: int|
                0 <= i < r.len() ==> touched(
                    intern@,
                    chunks@,
                    chunks.len() as int,
                    (#[trigger] r[i]).id,
                ) && r[i].elapsed == old(self).g - old(self).touched_at(r[i].id),
            forall|i: int, j: int|
                0 <= i < j < r.len() ==> (#[trigger] r[i]).id != (#[trigger] r[j]).id,
            forall|id: u32| #[trigger]
                touched(intern@, chunks@, chunks.len() as int, id) ==> exists|i: int|
                    0 <= i < r.len() && (#[trigger] r[i]).id == id,
    {
        let ghost start = *self;
        let ghost v = intern@;
        let ghost cs = chunks@;
        let mut seen = fx::new_ids();
        let mut r: Vec<Touch> = Vec::new();
        let mut k: usize = 0;
        while k < chunks.len()
            invariant
                cs == chunks@,
                v == intern@,
                k <= chunks.len(),
                self.wf(),
                start.wf(),
                self.g == start.g,
                start.entries.len() + chunks.len() < u32::MAX - 1,
                self.entries.len() <= start.entries.len() + k,
                forall|id: u32| #[trigger] seen@.contains(id) <==> touched(v, cs, k as int, id),
                forall|id: u32| #[trigger]
                    self.utterances(id) == (if touched(v, cs, k as int, id) {
                        crate::entropy::saturated(start.utterances(id) + 1)
                    } else {
                        start.utterances(id)
                    }),
                forall|id: u32| #[trigger]
                    self.touched_at(id) == (if touched(v, cs, k as int, id) {
                        start.g as int
                    } else {
                        start.touched_at(id)
                    }),
                forall|id: u32| #[trigger]
                    self.knows(id) <==> start.knows(id) || touched(v, cs, k as int, id),
                forall|i: int|
                    0 <= i < r.len() ==> touched(v, cs, k as int, (#[trigger] r[i]).id)
                        && r[i].elapsed == start.g - start.touched_at(r[i].id),
                forall|i: int, j: int|
                    0 <= i < j < r.len() ==> (#[trigger] r[i]).id != (#[trigger] r[j]).id,
                forall|id: u32| #[trigger]
                    touched(v, cs, k as int, id) ==> exists|i: int|
                        0 <= i < r.len() && (#[trigger] r[i]).id == id,
            decreases chunks.len() - k,
        {
            let id: TokenId = chunks[k];
            proof {
                assert forall|x: u32|
                    touched(v, cs, k + 1, x) <==> touched(v, cs, k as int, x) || (x == id
                        && content(v, id)) by {
                    if x == id && content(v, id) {
                        assert(cs[k as int] == x);
                    }
                }
            }
            let ghost r0 = r@;
            if is_content(intern, id) {
                let fresh: bool = fx::add_id(&mut seen, id);
                if fresh {
                    let ghost before = *self;
                    let t = self.touch(id);
                    assert(before.touched_at(id) == start.touched_at(id));
                    r.push(t);
                }
            }
            proof {
                assert forall|x: u32| #[trigger] touched(v, cs, k + 1, x) implies exists|i: int|
                    0 <= i < r.len() && (#[trigger] r[i]).id == x by {
                    if touched(v, cs, k as int, x) {
                        let i = choose|i: int| 0 <= i < r0.len() && (#[trigger] r0[i]).id == x;
                        assert(r[i].id == x);
                    } else {
                        assert(r[r.len() - 1].id == x);
                    }
                }
            }
            k += 1;
        }
        let ghost last = *self;
        self.g = self.g + chunks.len() as u64;
        proof {
            assert forall|id: u32| true implies #[trigger] self.utterances(id) == last.utterances(
                id,
            ) by {}
            assert forall|id: u32| true implies #[trigger] self.touched_at(id) == last.touched_at(
                id,
            ) by {}
            assert forall|id: u32| true implies #[trigger] self.knows(id) == last.knows(id) by {}
        }
        r
    }

    /// 聞きかじり: not yet established vocabulary (unknown counts too).
    pub fn is_hearsay(&self, id: TokenId, hearsay_min: u32) -> (r: bool)
        requires
            self.wf(),
        ensures
            r == (!self.knows(id) || self.utterances(id) < hearsay_min),
    {
        match fx::get_count(&self.index, id) {
            Some(i) => self.entries[i as usize].utts < hearsay_min,
            None => true,
        }
    }

    /// How far the clock ran since an established chunk was last touched; nothing for one that
    /// is unknown or hearsay.
    pub fn elapsed(&self, id: TokenId, hearsay_min: u32) -> (r: Option<u64>)
        requires
            self.wf(),
        ensures
            r == (if self.knows(id) && self.utterances(id) >= hearsay_min {
                Some((self.g - self.touched_at(id)) as u64)
            } else {
                None
            }),
    {
        match fx::get_count(&self.index, id) {
            Some(i) => {
                let e: Entry = self.entries[i as usize];
                if e.utts < hearsay_min {
                    None
                } else {
                    Some(self.g - e.last_g)
                }
            },
            None => None,
        }
    }

    /// Established chunk ids (non-hearsay), for the care-word draw and あゆみ.
    pub fn established(&self, hearsay_min: u32) -> (r: Vec<TokenId>)
        requires
            self.wf(),
        ensures
            forall|id: u32|
                r@.contains(id) <==> self.knows(id) && self.utterances(id) >= hearsay_min,
            r@.no_duplicates(),
    {
        let mut r: Vec<TokenId> = Vec::new();
        let mut i: usize = 0;
        while i < self.entries.len()
            invariant
                self.wf(),
                i <= self.entries.len(),
                forall|id: u32| #[trigger]
                    r@.contains(id) <==> self.knows(id) && self.index@[id] < i && self.utterances(
                        id,
                    ) >= hearsay_min,
                r@.no_duplicates(),
            decreases self.entries.len() - i,
        {
            let e: Entry = self.entries[i];
            let ghost r0 = r@;
            if e.utts >= hearsay_min {
                r.push(e.id);
                proof {
                    assert(!r0.contains(e.id));
                    assert forall|id: u32| #[trigger] r@.contains(id) <==> r0.contains(id) || id
                        == e.id by {
                        if r0.contains(id) {
                            let k = choose|k: int| 0 <= k < r0.len() && r0[k] == id;
                            assert(r@[k] == id);
                        }
                        if id == e.id {
                            assert(r@[r0.len() as int] == id);
                        }
                    }
                }
            }
            proof {
                assert forall|id: u32| #[trigger] r@.contains(id) <==> self.knows(id)
                    && self.index@[id] < i + 1 && self.utterances(id) >= hearsay_min by {
                    if self.knows(id) && self.index@[id] == i {
                        assert(self.entries[i as int].id == id);
                    }
                }
            }
            i += 1;
        }
        r
    }

    /// Snapshot payload: the clock, and every chunk with its last touch and its utterances. The
    /// order does not matter: every consumer looks up by id or sorts by surface string.
    pub fn snap_dump(&self) -> (r: (u64, Vec<Entry>))
        ensures
            r.0 == self.g,
            r.1@ == self.entries@,
    {
        let mut out: Vec<Entry> = Vec::new();
        let mut i: usize = 0;
        proof {
            assert(out@ =~= self.entries@.take(0));
        }
        while i < self.entries.len()
            invariant
                i <= self.entries.len(),
                out@ == self.entries@.take(i as int),
            decreases self.entries.len() - i,
        {
            out.push(self.entries[i]);
            proof {
                assert(self.entries@.take(i + 1) =~= self.entries@.take(i as int).push(
                    self.entries@[i as int],
                ));
            }
            i += 1;
        }
        proof {
            assert(self.entries@.take(i as int) =~= self.entries@);
        }
        (self.g, out)
    }

    /// The ledger of a snapshot payload; where a chunk stands twice, the later entry counts.
    pub fn from_snap(g: u64, entries: &Vec<Entry>) -> (r: Self)
        requires
            entries.len() < u32::MAX,
            forall|i: int| 0 <= i < entries.len() ==> (#[trigger] entries[i]).last_g <= g,
        ensures
            r.wf(),
            r.g == g,
            r.holds(entries@),
    {
        let mut r = InterestLedger { index: fx::new_counts(), entries: Vec::new(), g };
        let mut k: usize = 0;
        proof {
            assert(entries@.take(0).len() == 0);
        }
        while k < entries.len()
            invariant
                k <= entries.len(),
                entries.len() < u32::MAX,
                forall|i: int| 0 <= i < entries.len() ==> (#[trigger] entries[i]).last_g <= g,
                r.wf(),
                r.g == g,
                r.entries.len() <= k,
                r.holds(entries@.take(k as int)),
            decreases entries.len() - k,
        {
            let e: Entry = entries[k];
            let ghost before = r;
            let ghost es = entries@.take(k as int);
            match fx::get_count(&r.index, e.id) {
                Some(i) => {
                    r.entries.set(i as usize, e);
                },
                None => {
                    let i: u32 = r.entries.len() as u32;
                    fx::set_count(&mut r.index, e.id, i);
                    r.entries.push(e);
                },
            }
            proof {
                let more = entries@.take(k + 1);
                assert(more =~= es.push(e));
                assert forall|id: u32| #[trigger] r.knows(id) <==> latest(more, id) is Some by {
                    assert(before.knows(id) <==> latest(es, id) is Some);
                    assert(more.drop_last() =~= es);
                }
                assert forall|id: u32| #[trigger] r.knows(id) implies latest(more, id) == Some(
                    r.entries[r.index@[id] as int],
                ) by {
                    assert(more.drop_last() =~= es);
                    if id != e.id {
                        assert(before.knows(id));
                        assert(latest(es, id) == Some(before.entries[before.index@[id] as int]));
                    }
                }
            }
            k += 1;
        }
        proof {
            assert(entries@.take(k as int) =~= entries@);
        }
        r
    }
}

proof fn lemma_latest_of_distinct(entries: Seq<Entry>, i: int)
    requires
        0 <= i < entries.len(),
        forall|a: int, b: int|
            0 <= a < b < entries.len() ==> (#[trigger] entries[a]).id != (#[trigger] entries[b]).id,
    ensures
        latest(entries, entries[i].id) == Some(entries[i]),
    decreases entries.len(),
{
    if i < entries.len() - 1 {
        lemma_latest_of_distinct(entries.drop_last(), i);
    }
}

proof fn lemma_latest_is_there(entries: Seq<Entry>, id: u32)
    ensures
        latest(entries, id) is Some ==> exists|i: int|
            0 <= i < entries.len() && (#[trigger] entries[i]).id == id,
    decreases entries.len(),
{
    if entries.len() > 0 {
        if entries.last().id != id {
            lemma_latest_is_there(entries.drop_last(), id);
            if latest(entries, id) is Some {
                let i = choose|i: int|
                    0 <= i < entries.drop_last().len() && (#[trigger] entries.drop_last()[i]).id
                        == id;
                assert(entries[i].id == id);
            }
        } else {
            assert(entries[entries.len() - 1].id == id);
        }
    }
}

/// A ledger that was dumped and restored says of every chunk what it said before.
pub proof fn law_ledger_round_trip(l: InterestLedger, r: InterestLedger)
    requires
        l.wf(),
        r.wf(),
        r.g == l.g,
        r.holds(l.entries@),
    ensures
        forall|id: u32| #[trigger] r.knows(id) <==> l.knows(id),
        forall|id: u32| #[trigger] r.utterances(id) == l.utterances(id),
        forall|id: u32| #[trigger] r.touched_at(id) == l.touched_at(id),
{
    assert forall|a: int, b: int| 0 <= a < b < l.entries.len() implies (
    #[trigger] l.entries@[a]).id != (#[trigger] l.entries@[b]).id by {
        assert(l.index@[l.entries[a].id] == a);
        assert(l.index@[l.entries[b].id] == b);
    }
    assert forall|id: u32|
        (#[trigger] r.knows(id) <==> l.knows(id)) && r.utterances(id) == l.utterances(id)
            && r.touched_at(id) == l.touched_at(id) by {
        if l.knows(id) {
            let i = l.index@[id] as int;
            lemma_latest_of_distinct(l.entries@, i);
            assert(l.entries@[i].id == id);
        }
        if r.knows(id) {
            lemma_latest_is_there(l.entries@, id);
        }
    }
    assert forall|id: u32| #[trigger] r.utterances(id) == l.utterances(id) by {
        assert(r.knows(id) <==> l.knows(id));
    }
    assert forall|id: u32| #[trigger] r.touched_at(id) == l.touched_at(id) by {
        assert(r.knows(id) <==> l.knows(id));
    }
}

/// However often a chunk is repeated in one utterance, it counts once.
pub proof fn law_repeats_count_once(v: intern::Vocab, chunks: Seq<u32>, id: u32)
    requires
        touched(v, chunks, chunks.len() as int, id),
    ensures
        touched(v, chunks.push(id), chunks.len() as int + 1, id),
        forall|x: u32|
            x != id ==> (touched(v, chunks.push(id), chunks.len() as int + 1, x) <==> touched(
                v,
                chunks,
                chunks.len() as int,
                x,
            )),
{
    let more = chunks.push(id);
    assert(more[chunks.len() as int] == id);
    assert forall|x: u32| x != id implies (touched(v, more, chunks.len() as int + 1, x) <==> touched(
        v,
        chunks,
        chunks.len() as int,
        x,
    )) by {
        if touched(v, chunks, chunks.len() as int, x) {
            let j = choose|j: int| 0 <= j < chunks.len() && #[trigger] chunks[j] == x;
            assert(more[j] == x);
        }
        if touched(v, more, chunks.len() as int + 1, x) {
            let j = choose|j: int| 0 <= j < chunks.len() + 1 && #[trigger] more[j] == x;
            assert(chunks[j] == x);
        }
    }
}

/// A chunk carries meaning where it is no special and its text has a character that is not
/// punctuation.
pub proof fn law_content_says_something(v: intern::Vocab, id: u32)
    ensures
        content(v, id) <==> id >= 16 && exists|i: int|
            0 <= i < intern::text_of(v, id).len() && !(charclass::class_of(
                #[trigger] intern::text_of(v, id)[i],
            ) is Punct),
{
}

/// Of the entries for a chunk the last one counts, and a chunk without an entry has none.
pub proof fn law_the_last_entry_counts(entries: Seq<Entry>, id: u32, i: int)
    requires
        0 <= i < entries.len(),
        entries[i].id == id,
        forall|j: int| i < j < entries.len() ==> (#[trigger] entries[j]).id != id,
    ensures
        latest(entries, id) == Some(entries[i]),
        forall|other: u32|
            (forall|j: int| 0 <= j < entries.len() ==> (#[trigger] entries[j]).id != other)
                ==> #[trigger] latest(entries, other) is None,
    decreases entries.len(),
{
    if i < entries.len() - 1 {
        assert(entries.last().id != id);
        law_the_last_entry_counts(entries.drop_last(), id, i);
    }
    assert forall|other: u32|
        (forall|j: int| 0 <= j < entries.len() ==> (#[trigger] entries[j]).id
            != other) implies #[trigger] latest(entries, other) is None by {
        lemma_latest_is_there(entries, other);
    }
}

/// A line touches the chunks of content that stand in it.
pub proof fn law_lines_touch_their_content(v: intern::Vocab, chunks: Seq<u32>, id: u32)
    ensures
        touched(v, chunks, chunks.len() as int, id) <==> content(v, id) && chunks.contains(id),
{
    if chunks.contains(id) {
        let j = choose|j: int| 0 <= j < chunks.len() && chunks[j] == id;
        assert(chunks[j] == id);
    }
}

} // verus!
