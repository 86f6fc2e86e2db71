//! Retrieve source: past bot utterances proposed via maximal marginal relevance over hash
//! embeddings. The similarities are the host's; which utterances may be proposed, and which
//! of them is next for given scores, is decided here.
use crate::bits;
use crate::embed;
use crate::embed::HashEmbedder;
use crate::explain::PathKind;
use crate::fx;
use crate::ids::TokenId;
use crate::mix;
use crate::mix::Pool;
use crate::text;
use vstd::prelude::*;

verus! {

#[derive(Debug)]
pub struct BotUtterance {
    pub text: String,
    pub toks: Vec<TokenId>,
    /// Signed bins of `text`, cached so retrieve / routing do not hash
    /// the scan window every turn.
    pub bins: Vec<i64>,
}

/// What an utterance says.
#[verifier::ext_equal]
pub struct Said {
    pub text: Seq<char>,
    pub toks: Seq<u32>,
    pub bins: Seq<i64>,
}

impl View for BotUtterance {
    type V = Said;

    open spec fn view(&self) -> Said {
        Said { text: self.text@, toks: self.toks@, bins: self.bins@ }
    }
}

/// Past bot utterances, oldest first. Only the last `scan_cap` entries are
/// ever scanned (`scan_cap == 0` scans everything), so the front is trimmed.
#[derive(Debug)]
pub struct BotStore {
    pub items: Vec<BotUtterance>,
}

impl View for BotStore {
    type V = Seq<Said>;

    open spec fn view(&self) -> Seq<Said> {
        self.items@.map_values(|b: BotUtterance| b@)
    }
}

/// Where a scan of the last `cap` of `n` entries starts; a cap of 0 scans everything.
pub open spec fn scan_from(n: int, cap: int) -> int {
    if cap == 0 || cap >= n {
        0
    } else {
        n - cap
    }
}

/// Where a scan of the last `cap` of `n` entries starts.
pub fn scan_start(n: usize, cap: usize) -> (r: usize)
    ensures
        r == scan_from(n as int, cap as int),
        r <= n,
{
    if cap == 0 || cap >= n {
        0
    } else {
        n - cap
    }
}

/// How many leave the front once more than twice the cap are held.
pub open spec fn overflow(n: int, cap: int) -> int {
    if cap > 0 && n > 2 * cap {
        n - cap
    } else {
        0
    }
}

/// How many leave the front once more than twice the cap are held.
pub fn overflow_of(n: usize, cap: usize) -> (r: usize)
    ensures
        r == overflow(n as int, cap as int),
        r <= n,
{
    if cap > 0 && cap < n && n - cap > cap {
        n - cap
    } else {
        0
    }
}

/// Every utterance with its bins.
pub open spec fn with_bins(said: Seq<Said>, dim: int) -> Seq<Said> {
    said.map_values(
        |s: Said| Said { text: s.text, toks: s.toks, bins: embed::bins_of(s.text, dim) },
    )
}

/// Of the entries from `start` up to `k`, those that may be proposed: not the input, not a
/// text of the pool, and of equal texts the first. Blank texts count separately.
pub open spec fn eligible(
    said: Seq<Said>,
    pool: Seq<mix::Proposed>,
    input: Seq<char>,
    start: int,
    k: int,
) -> Seq<int>
    decreases k - start,
{
    if k <= start {
        Seq::empty()
    } else {
        let before = eligible(said, pool, input, start, k - 1);
        let t = said[k - 1].text;
        if t == input || mix::has_text(pool, t) || (text::trimmed(t).len() > 0 && offers(
            said,
            before,
            t,
        )) {
            before
        } else {
            before.push(k - 1)
        }
    }
}

/// One of the chosen entries has this text.
pub open spec fn offers(said: Seq<Said>, chosen: Seq<int>, t: Seq<char>) -> bool {
    exists|c: int| 0 <= c < chosen.len() && said[#[trigger] chosen[c]].text == t
}

proof fn lemma_eligible_range(
    said: Seq<Said>,
    pool: Seq<mix::Proposed>,
    input: Seq<char>,
    start: int,
    k: int,
)
    requires
        0 <= start,
    ensures
        forall|c: int|
            0 <= c < eligible(said, pool, input, start, k).len() ==> start <= #[trigger] eligible(
                said,
                pool,
                input,
                start,
                k,
            )[c] < k,
    decreases k - start,
{
    if k > start {
        lemma_eligible_range(said, pool, input, start, k - 1);
        let before = eligible(said, pool, input, start, k - 1);
        let now = eligible(said, pool, input, start, k);
        assert(now == before || now == before.push(k - 1));
        assert forall|c: int| 0 <= c < now.len() implies start <= #[trigger] now[c] < k by {
            if c < before.len() {
                assert(before[c] == now[c]);
            }
        }
    }
}

/// What may be proposed is news: never the input or a text of the pool, and no text twice
/// unless it is blank.
pub proof fn law_candidates_are_news(
    said: Seq<Said>,
    pool: Seq<mix::Proposed>,
    input: Seq<char>,
    start: int,
    k: int,
)
    requires
        0 <= start,
    ensures
        forall|c: int|
            0 <= c < eligible(said, pool, input, start, k).len() ==> {
                let t = said[#[trigger] eligible(said, pool, input, start, k)[c]].text;
                t != input && !mix::has_text(pool, t)
            },
        forall|c: int, d: int|
            0 <= c < d < eligible(said, pool, input, start, k).len() ==> {
                let t = said[#[trigger] eligible(said, pool, input, start, k)[c]].text;
                text::trimmed(t).len() > 0 ==> said[#[trigger] eligible(
                    said,
                    pool,
                    input,
                    start,
                    k,
                )[d]].text != t
            },
    decreases k - start,
{
    if k > start {
        law_candidates_are_news(said, pool, input, start, k - 1);
        let before = eligible(said, pool, input, start, k - 1);
        let now = eligible(said, pool, input, start, k);
        let t = said[k - 1].text;
        assert(now == before || now == before.push(k - 1));
        assert forall|c: int| 0 <= c < now.len() implies said[#[trigger] now[c]].text != input
            && !mix::has_text(pool, said[now[c]].text) by {
            if c < before.len() {
                assert(before[c] == now[c]);
            }
        }
        assert forall|c: int, d: int|
            0 <= c < d < now.len() && text::trimmed(said[now[c]].text).len() > 0 implies said[#[trigger] now[c]].text
            != said[#[trigger] now[d]].text by {
            assert(before[c] == now[c]);
            if d < before.len() {
                assert(before[d] == now[d]);
            } else if said[before[c]].text == t {
                assert(offers(said, before, t));
            }
        }
    }
}

/// The rounds of one retrieval.
#[derive(Debug)]
pub struct Round {
    /// Entries that may be proposed.
    pub cands: Vec<usize>,
    pub picked: Vec<bool>,
    pub n_picked: usize,
}

/// Bits of negative infinity.
pub const NEG_INFINITY: u32 = 0xff80_0000;

/// `c` has the best score of those not picked yet; of equal ones it is the first. What scores
/// minus infinity, or no number at all, is not picked.
pub open spec fn is_next(picked: Seq<bool>, scores: Seq<u32>, c: int) -> bool {
    &&& 0 <= c < picked.len()
    &&& !picked[c]
    &&& bits::less32(NEG_INFINITY, scores[c])
    &&& forall|j: int|
        0 <= j < picked.len() && !#[trigger] picked[j] ==> !bits::less32(scores[c], scores[j])
    &&& forall|j: int|
        0 <= j < c && !#[trigger] picked[j] ==> !bits::at_most32(scores[c], scores[j])
}

/// There is one next candidate at most.
pub proof fn law_next_is_one(picked: Seq<bool>, scores: Seq<u32>, a: int, b: int)
    requires
        is_next(picked, scores, a),
        is_next(picked, scores, b),
    ensures
        a == b,
{
    if a < b {
        assert(!picked[a]);
    }
    if b < a {
        assert(!picked[b]);
    }
}

impl Round {
    pub open spec fn wf(&self) -> bool {
        self.picked.len() == self.cands.len() && self.n_picked <= self.cands.len()
    }

    /// The next candidate for the scores of this round, until `n_retrieve` are picked.
    pub fn next_pick(&mut self, scores: &Vec<u32>, n_retrieve: usize) -> (r: Option<usize>)
        requires
            old(self).wf(),
            scores.len() == old(self).cands.len(),
        ensures
            final(self).wf(),
            final(self).cands == old(self).cands,
            match r {
                Some(c) => {
                    &&& old(self).n_picked < n_retrieve
                    &&& old(self).n_picked < old(self).cands.len()
                    &&& is_next(old(self).picked@, scores@, c as int)
                    &&& final(self).picked@ == old(self).picked@.update(c as int, true)
                    &&& final(self).n_picked == old(self).n_picked + 1
                },
                None => {
                    &&& *final(self) == *old(self)
                    &&& old(self).n_picked >= n_retrieve || old(self).n_picked >= old(
                        self,
                    ).cands.len() || forall|c: int| !#[trigger] is_next(old(self).picked@, scores@, c)
                },
            },
    {
        if self.n_picked >= n_retrieve || self.n_picked >= self.cands.len() {
            return None;
        }
        let mut best: Option<usize> = None;
        let mut c: usize = 0;
        while c < self.cands.len()
            invariant
                c <= self.cands.len(),
                self.picked.len() == self.cands.len(),
                scores.len() == self.cands.len(),
                *self == *old(self),
                match best {
                    Some(b) => {
                        &&& b < c
                        &&& !self.picked[b as int]
                        &&& bits::less32(NEG_INFINITY, scores[b as int])
                        &&& forall|j: int|
                            0 <= j < c && !#[trigger] self.picked[j] ==> !bits::less32(
                                scores[b as int],
                                scores[j],
                            )
                        &&& forall|j: int|
                            0 <= j < b && !#[trigger] self.picked[j] ==> !bits::at_most32(
                                scores[b as int],
                                scores[j],
                            )
                    },
                    None => forall|j: int|
                        0 <= j < c && !#[trigger] self.picked[j] ==> !bits::less32(
                            NEG_INFINITY,
                            scores[j],
                        ),
                },
            decreases self.cands.len() - c,
        {
            if !self.picked[c] {
                let floor: u32 = match best {
                    Some(b) => scores[b],
                    None => NEG_INFINITY,
                };
                if bits::is_less32(floor, scores[c]) {
                    best = Some(c);
                }
            }
            c += 1;
        }
        match best {
            Some(b) => {
                assert(is_next(self.picked@, scores@, b as int));
                self.picked.set(b, true);
                self.n_picked = self.n_picked + 1;
            },
            None => {},
        }
        best
    }
}

impl BotStore {
    pub fn new() -> (r: Self)
        ensures
            r@ == Seq::<Said>::empty(),
    {
        let r = BotStore { items: Vec::new() };
        proof {
            assert(r@ =~= Seq::<Said>::empty());
        }
        r
    }

    pub fn len(&self) -> (r: usize)
        ensures
            r == self@.len(),
    {
        self.items.len()
    }

    /// Replay-time push without bins; `finish` fills them in bulk.
    pub fn push_raw(&mut self, text: String, toks: Vec<TokenId>)
        ensures
            final(self)@ == old(self)@.push(
                (Said { text: text@, toks: toks@, bins: Seq::empty() }),
            ),
    {
        self.items.push(BotUtterance { text, toks, bins: Vec::new() });
        proof {
            assert(self@ =~= old(self)@.push(
                Said { text: text@, toks: toks@, bins: Seq::empty() },
            ));
        }
    }

    /// Drops entries that can never enter the scan window again, then fills in the bins.
    /// Called once at the end of open / retokenize.
    pub fn finish(&mut self, embedder: &HashEmbedder, scan_cap: usize)
        requires
            embedder.wf(),
            forall|i: int|
                0 <= i < old(self)@.len() ==> (#[trigger] old(self)@[i]).text.len()
                    < 0x1000_0000_0000_0000,
        ensures
            final(self)@ == with_bins(
                old(self)@.subrange(
                    scan_from(old(self)@.len() as int, scan_cap as int),
                    old(self)@.len() as int,
                ),
                embedder.dim as int,
            ),
    {
        let cut: usize = scan_start(self.items.len(), scan_cap);
        let ghost kept = self@.subrange(cut as int, self@.len() as int);
        let ghost dim = embedder.dim as int;
        let mut items: Vec<BotUtterance> = Vec::new();
        let mut i: usize = cut;
        while i < self.items.len()
            invariant
                embedder.wf(),
                dim == embedder.dim,
                cut <= i <= self.items.len(),
                *self == *old(self),
                kept == self@.subrange(cut as int, self@.len() as int),
                forall|k: int|
                    0 <= k < self@.len() ==> (#[trigger] self@[k]).text.len()
                        < 0x1000_0000_0000_0000,
                items.len() == i - cut,
                forall|k: int|
                    0 <= k < items.len() ==> (#[trigger] items[k])@ == with_bins(kept, dim)[k],
            decreases self.items.len() - i,
        {
            assert(self@[i as int].text.len() < 0x1000_0000_0000_0000);
            let b = &self.items[i];
            let bins = embedder.embed(b.text.as_str());
            let item = BotUtterance {
                text: b.text.clone(),
                toks: mix::copy_tokens(&b.toks),
                bins,
            };
            proof {
                assert(item@ =~= with_bins(kept, dim)[i - cut]);
            }
            items.push(item);
            i += 1;
        }
        self.items = items;
        proof {
            assert(self@ =~= with_bins(kept, dim));
        }
    }

    /// Live push with bins, plus an amortised front-trim: entries
    /// before the last `scan_cap` are unreachable, so keeping at most twice as many
    /// preserves behaviour exactly.
    pub fn push_live(&mut self, embedder: &HashEmbedder, text: String, toks: Vec<TokenId>, scan_cap: usize)
        requires
            embedder.wf(),
            text@.len() < 0x1000_0000_0000_0000,
        ensures
            final(self)@ == old(self)@.push(
                (Said {
                    text: text@,
                    toks: toks@,
                    bins: embed::bins_of(text@, embedder.dim as int),
                }),
            ).skip(overflow(old(self)@.len() as int + 1, scan_cap as int)),
    {
        let bins = embedder.embed(text.as_str());
        let ghost one = Said {
            text: text@,
            toks: toks@,
            bins: embed::bins_of(text@, embedder.dim as int),
        };
        self.items.push(BotUtterance { text, toks, bins });
        proof {
            assert(self@ =~= old(self)@.push(one));
        }
        let cut: usize = overflow_of(self.items.len(), scan_cap);
        if cut > 0 {
            let kept = self.items.split_off(cut);
            self.items = kept;
        }
        proof {
            assert(self@ =~= old(self)@.push(one).skip(cut as int));
        }
    }

    /// The entries that may be proposed beside the pool.
    pub fn candidates(&self, pool: &Pool, input: &str, scan_cap: usize) -> (r: Round)
        ensures
            r.wf(),
            r.n_picked == 0,
            r.cands@.map_values(|c: usize| c as int) == eligible(
                self@,
                pool@,
                input@,
                scan_from(self@.len() as int, scan_cap as int),
                self@.len() as int,
            ),
            forall|c: int| 0 <= c < r.picked.len() ==> !#[trigger] r.picked[c],
    {
        let ghost said = self@;
        let ghost pv = pool@;
        let start: usize = scan_start(self.items.len(), scan_cap);
        let input_s = input.to_owned();
        let mut seen = fx::new_words();
        let mut p: usize = 0;
        while p < pool.items.len()
            invariant
                pv == pool@,
                p <= pool.items.len(),
                forall|t: Seq<char>| #[trigger]
                    fx::words(seen).dom().contains(t) <==> exists|i: int|
                        0 <= i < p && (#[trigger] pv[i]).text == t,
            decreases pool.items.len() - p,
        {
            let ghost before = fx::words(seen);
            fx::set_word(&mut seen, pool.items[p].text.clone(), 0);
            proof {
                let t0 = pv[p as int].text;
                assert forall|t: Seq<char>| #[trigger] fx::words(seen).dom().contains(t)
                    <==> exists|i: int| 0 <= i < p + 1 && (#[trigger] pv[i]).text == t by {
                    if t == t0 {
                        assert(pv[p as int].text == t);
                    }
                }
            }
            p += 1;
        }
        let mut cands: Vec<usize> = Vec::new();
        let mut picked: Vec<bool> = Vec::new();
        let mut i: usize = start;
        proof {
            assert(cands@.map_values(|c: usize| c as int) =~= Seq::<int>::empty());
        }
        while i < self.items.len()
            invariant
                said == self@,
                pv == pool@,
                input_s@ == input@,
                start <= i <= self.items.len(),
                cands@.map_values(|c: usize| c as int) == eligible(
                    said,
                    pv,
                    input@,
                    start as int,
                    i as int,
                ),
                picked.len() == cands.len(),
                forall|c: int| 0 <= c < picked.len() ==> !#[trigger] picked[c],
                forall|t: Seq<char>| #[trigger]
                    fx::words(seen).dom().contains(t) <==> mix::has_text(pv, t) || (text::trimmed(
                        t,
                    ).len() > 0 && offers(
                        said,
                        eligible(said, pv, input@, start as int, i as int),
                        t,
                    )),
            decreases self.items.len() - i,
        {
            let b = &self.items[i];
            let ghost before = eligible(said, pv, input@, start as int, i as int);
            let ghost now = eligible(said, pv, input@, start as int, i + 1);
            let ghost t0 = said[i as int].text;
            let known: bool = fx::get_word(&seen, b.text.as_str()).is_some();
            if !(b.text == input_s) && !known {
                if !text::is_blank(b.text.as_str()) {
                    fx::set_word(&mut seen, b.text.clone(), 0);
                }
                proof {
                    lemma_eligible_range(said, pv, input@, start as int, i as int);
                    assert(now == before.push(i as int));
                    assert forall|t: Seq<char>| #[trigger] offers(said, now, t) <==> offers(
                        said,
                        before,
                        t,
                    ) || t == t0 by {
                        if offers(said, before, t) {
                            let c = choose|c: int|
                                0 <= c < before.len() && said[#[trigger] before[c]].text == t;
                            assert(said[now[c]].text == t);
                        }
                        if t == t0 {
                            assert(said[now[before.len() as int]].text == t);
                        }
                        if offers(said, now, t) && t != t0 {
                            let c = choose|c: int|
                                0 <= c < now.len() && said[#[trigger] now[c]].text == t;
                            assert(said[before[c]].text == t);
                        }
                    }
                    assert(cands@.push(i).map_values(|c: usize| c as int) =~= now);
                }
                cands.push(i);
                picked.push(false);
            }
            i += 1;
        }
        Round { cands, picked, n_picked: 0 }
    }

    /// Puts a picked candidate into the pool.
    pub fn propose_picked(&self, pool: &mut Pool, round: &Round, c: usize)
        requires
            c < round.cands.len(),
            round.cands[c as int] < self@.len(),
        ensures
            final(pool)@ == mix::proposed(
                old(pool)@,
                (mix::Proposed {
                    source: PathKind::Retrieve,
                    text: self@[round.cands[c as int] as int].text,
                    tokens: self@[round.cands[c as int] as int].toks,
                    surprise: None,
                }),
            ),
    {
        let b = &self.items[round.cands[c]];
        pool.push(PathKind::Retrieve, b.text.clone(), mix::copy_tokens(&b.toks));
    }
}

/// Trimming the front of a live store changes no scan: the window of the last `cap` entries is
/// the same before and after.
pub proof fn law_trim_keeps_window(said: Seq<Said>, cap: int)
    requires
        cap >= 0,
    ensures
        said.skip(overflow(said.len() as int, cap)).subrange(
            scan_from(said.skip(overflow(said.len() as int, cap)).len() as int, cap),
            said.skip(overflow(said.len() as int, cap)).len() as int,
        ) == said.subrange(scan_from(said.len() as int, cap), said.len() as int),
{
    let kept = said.skip(overflow(said.len() as int, cap));
    assert(kept.subrange(scan_from(kept.len() as int, cap), kept.len() as int) =~= said.subrange(
        scan_from(said.len() as int, cap),
        said.len() as int,
    ));
}

/// A scan reaches back over the cap's number of entries, over all of them where there are no
/// more or no cap is set. A store that outgrows twice the cap is cut back to the cap.
pub proof fn law_the_newest_are_scanned(n: int, cap: int)
    requires
        0 <= n,
        0 <= cap,
    ensures
        0 <= scan_from(n, cap) <= n,
        cap == 0 || n <= cap <==> scan_from(n, cap) == 0,
        0 < cap <= n ==> n - scan_from(n, cap) == cap,
        0 <= overflow(n, cap) <= n,
        overflow(n, 0) == 0,
        n <= 2 * cap ==> overflow(n, cap) == 0,
        0 < cap && n > 2 * cap ==> n - overflow(n, cap) == cap,
{
}

/// Nothing that may be proposed is missed: an entry of the window that is neither the input nor
/// in the pool is offered itself, or an entry of the same text before it is. Blank entries are
/// all offered. The oldest comes first.
pub proof fn law_no_candidate_is_missed(
    said: Seq<Said>,
    pool: Seq<mix::Proposed>,
    input: Seq<char>,
    start: int,
    k: int,
    i: int,
)
    requires
        0 <= start <= i < k,
        said[i].text != input,
        forall|p: int| 0 <= p < pool.len() ==> (#[trigger] pool[p]).text != said[i].text,
    ensures
        exists|c: int|
            0 <= c < eligible(said, pool, input, start, k).len() && said[#[trigger] eligible(
                said,
                pool,
                input,
                start,
                k,
            )[c]].text == said[i].text && eligible(said, pool, input, start, k)[c] <= i,
        text::trimmed(said[i].text).len() == 0 ==> eligible(said, pool, input, start, k).contains(i),
        forall|c: int, d: int|
            0 <= c < d < eligible(said, pool, input, start, k).len() ==> #[trigger] eligible(
                said,
                pool,
                input,
                start,
                k,
            )[c] < #[trigger] eligible(said, pool, input, start, k)[d],
    decreases k - start,
{
    let now = eligible(said, pool, input, start, k);
    let before = eligible(said, pool, input, start, k - 1);
    lemma_eligible_range(said, pool, input, start, k - 1);
    lemma_eligible_rises(said, pool, input, start, k);
    if i < k - 1 {
        law_no_candidate_is_missed(said, pool, input, start, k - 1, i);
        let c = choose|c: int|
            0 <= c < before.len() && said[#[trigger] before[c]].text == said[i].text && before[c]
                <= i;
        assert(now[c] == before[c]);
        if before.contains(i) {
            let b = choose|b: int| 0 <= b < before.len() && before[b] == i;
            assert(now[b] == i);
        }
    } else {
        assert(!mix::has_text(pool, said[i].text)) by {
            if mix::has_text(pool, said[i].text) {
                let p = choose|p: int|
                    0 <= p < pool.len() && (#[trigger] pool[p]).text == said[i].text;
                assert(pool[p].text == said[i].text);
            }
        }
        if now == before.push(i) {
            assert(now[before.len() as int] == i);
        } else {
            assert(offers(said, before, said[i].text));
            let c = choose|c: int|
                0 <= c < before.len() && said[#[trigger] before[c]].text == said[i].text;
            assert(now[c] == before[c]);
        }
    }
}

proof fn lemma_eligible_rises(
    said: Seq<Said>,
    pool: Seq<mix::Proposed>,
    input: Seq<char>,
    start: int,
    k: int,
)
    requires
        0 <= start,
    ensures
        forall|c: int, d: int|
            0 <= c < d < eligible(said, pool, input, start, k).len() ==> #[trigger] eligible(
                said,
                pool,
                input,
                start,
                k,
            )[c] < #[trigger] eligible(said, pool, input, start, k)[d],
    decreases k - start,
{
    if k > start {
        let now = eligible(said, pool, input, start, k);
        let before = eligible(said, pool, input, start, k - 1);
        lemma_eligible_rises(said, pool, input, start, k - 1);
        lemma_eligible_range(said, pool, input, start, k - 1);
        assert(now == before || now == before.push(k - 1));
        assert forall|c: int, d: int| 0 <= c < d < now.len() implies #[trigger] now[c]
            < #[trigger] now[d] by {
            assert(before[c] == now[c]);
            if d < before.len() {
                assert(before[d] == now[d]);
            }
        }
    }
}

/// The candidate picked next has not been picked, has a number above minus infinity for its
/// score, and no other that is left has a better one; an equal one stands behind it.
pub proof fn law_the_best_score_is_next(picked: Seq<bool>, scores: Seq<u32>, c: int, j: int)
    requires
        scores.len() == picked.len(),
        is_next(picked, scores, c),
        0 <= j < picked.len(),
        !picked[j],
        !bits::nan32(scores[j]),
    ensures
        !picked[c],
        !bits::nan32(scores[c]),
        bits::key32(scores[c]) > bits::key32(0xff80_0000),
        bits::key32(scores[j]) <= bits::key32(scores[c]),
        bits::key32(scores[j]) == bits::key32(scores[c]) ==> c <= j,
{
}

proof fn lemma_best_left(picked: Seq<bool>, scores: Seq<u32>, k: int) -> (b: int)
    requires
        scores.len() == picked.len(),
        0 <= k <= picked.len(),
    ensures
        b < 0 ==> forall|j: int|
            0 <= j < k && !#[trigger] picked[j] ==> !bits::less32(NEG_INFINITY, scores[j]),
        b >= 0 ==> is_next(picked.take(k), scores, b),
    decreases k,
{
    if k == 0 {
        -1
    } else {
        let b = lemma_best_left(picked, scores, k - 1);
        if b < 0 {
            assert forall|j: int| 0 <= j < k - 1 && !#[trigger] picked.take(k)[j] implies !bits::less32(
                NEG_INFINITY,
                scores[j],
            ) by {
                assert(!picked[j]);
            }
        } else {
            assert forall|j: int| 0 <= j < k - 1 && !#[trigger] picked.take(k)[j] implies !bits::less32(
                scores[b],
                scores[j],
            ) && (j < b ==> !bits::at_most32(scores[b], scores[j])) by {
                assert(!picked.take(k - 1)[j]);
            }
        }
        if !picked[k - 1] && bits::less32(
            if b < 0 {
                NEG_INFINITY
            } else {
                scores[b]
            },
            scores[k - 1],
        ) {
            k - 1
        } else {
            b
        }
    }
}

/// While a candidate is left whose score is a number above minus infinity, there is a next one.
pub proof fn law_there_is_a_next(picked: Seq<bool>, scores: Seq<u32>, j: int)
    requires
        scores.len() == picked.len(),
        0 <= j < picked.len(),
        !picked[j],
        !bits::nan32(scores[j]),
        bits::key32(scores[j]) > bits::key32(0xff80_0000),
    ensures
        exists|c: int| #[trigger] is_next(picked, scores, c),
{
    let b = lemma_best_left(picked, scores, picked.len() as int);
    assert(picked.take(picked.len() as int) =~= picked);
    if b < 0 {
        assert(bits::less32(NEG_INFINITY, scores[j]));
    }
}

/// Filling in the bins gives every utterance those of its own text, and changes nothing else.
pub proof fn law_bins_are_of_the_text(said: Seq<Said>, dim: int, i: int)
    requires
        0 <= i < said.len(),
    ensures
        with_bins(said, dim).len() == said.len(),
        with_bins(said, dim)[i].text == said[i].text,
        with_bins(said, dim)[i].toks == said[i].toks,
        with_bins(said, dim)[i].bins == embed::bins_of(said[i].text, dim),
{
}

} // verus!
