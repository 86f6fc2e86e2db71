//! Running evaluation: how often replies hit the band, slip, and repeat the corpus.
//!
//! Counters only; the sum of the similarities is the host's.
use crate::bits;
use crate::explain::Trace;
use crate::log::Record;
use crate::log::Role;
use crate::params::Params;
use crate::select;
use crate::text;
use vstd::prelude::*;

verus! {

#[derive(Debug, Clone, Copy)]
pub struct EvalAccum {
    pub n: u32,
    pub band_hits: u32,
    pub slip_n: u32,
    pub lcs_sum: usize,
    pub lcs_len_sum: usize,
}

/// How the numbers of a summary are written.
pub struct EvalNumbers {
    pub band_lo: String,
    pub band_hi: String,
    pub band_percent: String,
    pub mean_sim: String,
    pub slip_percent: String,
    pub rote: String,
}

/// One turn's part in the counters.
pub struct Tick {
    pub band_hit: bool,
    pub slipped: bool,
    pub lcs: int,
    pub len: int,
}

/// The counters after a turn.
pub open spec fn ticked(e: EvalAccum, t: Tick) -> EvalAccum {
    EvalAccum {
        n: (e.n + 1) as u32,
        band_hits: (e.band_hits + (if t.band_hit {
            1int
        } else {
            0
        })) as u32,
        slip_n: (e.slip_n + (if t.slipped {
            1int
        } else {
            0
        })) as u32,
        lcs_sum: (e.lcs_sum + t.lcs) as usize,
        lcs_len_sum: (e.lcs_len_sum + t.len) as usize,
    }
}

/// What a logged bot line counts, or nothing where the line is another's or has no score.
pub open spec fn tick_of(rec: Record, params: Params) -> Option<Tick> {
    if rec.role == Role::Bot && rec.score is Some {
        let known = rec.novelty_lcs is Some && rec.n_tok is Some;
        Some(
            Tick {
                band_hit: select::within_band(rec.score->0, params.band_lo, params.band_hi),
                slipped: rec.slipped == Some(true),
                lcs: if known {
                    rec.novelty_lcs->0 as int
                } else {
                    0
                },
                len: if known {
                    rec.n_tok->0 as int
                } else {
                    0
                },
            },
        )
    } else {
        None
    }
}

impl EvalAccum {
    /// There is room for one more turn of these sizes.
    pub open spec fn room(&self, lcs: int, len: int) -> bool {
        &&& self.wf()
        &&& self.n < u32::MAX
        &&& self.lcs_sum + lcs <= usize::MAX
        &&& self.lcs_len_sum + len <= usize::MAX
    }

    pub open spec fn wf(&self) -> bool {
        self.band_hits <= self.n && self.slip_n <= self.n
    }

    pub fn new() -> (r: Self)
        ensures
            r == (EvalAccum { n: 0, band_hits: 0, slip_n: 0, lcs_sum: 0, lcs_len_sum: 0 }),
            r.wf(),
    {
        EvalAccum { n: 0, band_hits: 0, slip_n: 0, lcs_sum: 0, lcs_len_sum: 0 }
    }

    fn count(&mut self, band_hit: bool, slipped: bool, lcs: usize, len: usize)
        requires
            old(self).room(lcs as int, len as int),
        ensures
            final(self).wf(),
            *final(self) == ticked(
                *old(self),
                (Tick { band_hit, slipped, lcs: lcs as int, len: len as int }),
            ),
    {
        self.n = self.n + 1;
        if band_hit {
            self.band_hits = self.band_hits + 1;
        }
        if slipped {
            self.slip_n = self.slip_n + 1;
        }
        self.lcs_sum = self.lcs_sum + lcs;
        self.lcs_len_sum = self.lcs_len_sum + len;
    }

    pub fn observe(&mut self, tr: &Trace, gen_len: usize)
        requires
            old(self).room(tr.novelty_lcs as int, gen_len as int),
        ensures
            final(self).wf(),
            *final(self) == ticked(
                *old(self),
                (Tick {
                    band_hit: tr.band_hit,
                    slipped: tr.slipped,
                    lcs: tr.novelty_lcs as int,
                    len: gen_len as int,
                }),
            ),
    {
        self.count(tr.band_hit, tr.slipped, tr.novelty_lcs, gen_len);
    }

    /// Replays a bot JSONL line so `/eval` and gauges survive process restart. The result is
    /// the score that joins the sum of similarities.
    pub fn ingest_bot(&mut self, rec: &Record, params: &Params) -> (r: Option<u32>)
        requires
            match tick_of(*rec, *params) {
                Some(t) => old(self).room(t.lcs, t.len),
                None => old(self).wf(),
            },
        ensures
            final(self).wf(),
            match tick_of(*rec, *params) {
                Some(t) => *final(self) == ticked(*old(self), t) && r == rec.score,
                None => *final(self) == *old(self) && r is None,
            },
    {
        let bot: bool = match rec.role {
            Role::Bot => true,
            _ => false,
        };
        if !bot {
            return None;
        }
        let score: u32 = match rec.score {
            Some(s) => s,
            None => {
                return None;
            },
        };
        let band_hit: bool = select::in_band(score, params.band_lo, params.band_hi);
        let slipped: bool = match rec.slipped {
            Some(s) => s,
            None => false,
        };
        let (lcs, len): (usize, usize) = match (rec.novelty_lcs, rec.n_tok) {
            (Some(l), Some(n)) => (l, n),
            _ => (0, 0),
        };
        self.count(band_hit, slipped, lcs, len);
        Some(score)
    }

    /// The `/eval` line.
    pub fn summary(&self, nums: &EvalNumbers) -> (r: String)
        ensures
            self.n == 0 ==> r@ == "eval: no turns yet"@,
            self.n > 0 ==> r@ == "eval n="@ + text::digits(self.n as nat) + "  band["@
                + nums.band_lo@ + ","@ + nums.band_hi@ + "]="@ + nums.band_percent@
                + "%  mean_sim="@ + nums.mean_sim@ + "  slip="@ + nums.slip_percent@
                + "%  rote_lcs="@ + nums.rote@,
    {
        if self.n == 0 {
            return "eval: no turns yet".to_owned();
        }
        let mut out = text::chars_of("eval n=");
        text::put(&mut out, &text::decimal(self.n as u64));
        text::put_str(&mut out, "  band[");
        text::put_str(&mut out, nums.band_lo.as_str());
        text::put_str(&mut out, ",");
        text::put_str(&mut out, nums.band_hi.as_str());
        text::put_str(&mut out, "]=");
        text::put_str(&mut out, nums.band_percent.as_str());
        text::put_str(&mut out, "%  mean_sim=");
        text::put_str(&mut out, nums.mean_sim.as_str());
        text::put_str(&mut out, "  slip=");
        text::put_str(&mut out, nums.slip_percent.as_str());
        text::put_str(&mut out, "%  rote_lcs=");
        text::put_str(&mut out, nums.rote.as_str());
        text::string_of(&out)
    }
}

/// The counters of the first `k` records.
pub open spec fn evaluated(recs: Seq<Record>, params: Params, k: int) -> EvalAccum
    decreases k,
{
    if k <= 0 {
        EvalAccum { n: 0, band_hits: 0, slip_n: 0, lcs_sum: 0, lcs_len_sum: 0 }
    } else {
        match tick_of(recs[k - 1], params) {
            Some(t) => ticked(evaluated(recs, params, k - 1), t),
            None => evaluated(recs, params, k - 1),
        }
    }
}

/// The scores of the bot lines among the first `k` records.
pub open spec fn scores_of(recs: Seq<Record>, k: int) -> Seq<u32>
    decreases k,
{
    if k <= 0 {
        Seq::empty()
    } else if recs[k - 1].role == Role::Bot && recs[k - 1].score is Some {
        scores_of(recs, k - 1).push(recs[k - 1].score->0)
    } else {
        scores_of(recs, k - 1)
    }
}

/// Sizes that the first `k` records add up to.
pub open spec fn sizes(recs: Seq<Record>, params: Params, k: int) -> (int, int)
    decreases k,
{
    if k <= 0 {
        (0, 0)
    } else {
        let before = sizes(recs, params, k - 1);
        match tick_of(recs[k - 1], params) {
            Some(t) => (before.0 + t.lcs, before.1 + t.len),
            None => before,
        }
    }
}

proof fn lemma_sizes_mono(recs: Seq<Record>, params: Params, k: int, n: int)
    requires
        0 <= k <= n,
    ensures
        0 <= sizes(recs, params, k).0 <= sizes(recs, params, n).0,
        0 <= sizes(recs, params, k).1 <= sizes(recs, params, n).1,
    decreases n,
{
    if k < n {
        lemma_sizes_mono(recs, params, k, n - 1);
    } else if n > 0 {
        lemma_sizes_mono(recs, params, n - 1, n - 1);
    }
}

/// Replays a log into the counters. The second part of the result are the scores that make up
/// the sum of similarities.
pub fn replay(recs: &Vec<Record>, params: &Params) -> (r: (EvalAccum, Vec<u32>))
    requires
        recs.len() < u32::MAX,
        sizes(recs@, *params, recs.len() as int).0 <= usize::MAX,
        sizes(recs@, *params, recs.len() as int).1 <= usize::MAX,
    ensures
        r.0.wf(),
        r.0 == evaluated(recs@, *params, recs.len() as int),
        r.1@ == scores_of(recs@, recs.len() as int),
        r.0.n <= recs.len(),
{
    let mut e = EvalAccum::new();
    let mut sims: Vec<u32> = Vec::new();
    let mut i: usize = 0;
    let ghost n = recs.len() as int;
    proof {
        assert(sims@ =~= scores_of(recs@, 0));
    }
    while i < recs.len()
        invariant
            n == recs.len(),
            i <= n < u32::MAX,
            sizes(recs@, *params, n).0 <= usize::MAX,
            sizes(recs@, *params, n).1 <= usize::MAX,
            e.wf(),
            e == evaluated(recs@, *params, i as int),
            e.n <= i,
            e.lcs_sum == sizes(recs@, *params, i as int).0,
            e.lcs_len_sum == sizes(recs@, *params, i as int).1,
            sims@ == scores_of(recs@, i as int),
        decreases n - i,
    {
        proof {
            lemma_sizes_mono(recs@, *params, i + 1, n);
        }
        match e.ingest_bot(&recs[i], params) {
            Some(s) => {
                sims.push(s);
            },
            None => {},
        }
        i += 1;
    }
    (e, sims)
}

/// A live turn and its logged line count the same.
pub proof fn law_live_and_logged_agree(e: EvalAccum, rec: Record, params: Params, t: Tick)
    requires
        rec.role == Role::Bot,
        rec.score is Some,
        rec.slipped == Some(t.slipped),
        rec.novelty_lcs is Some,
        rec.novelty_lcs->0 == t.lcs,
        rec.n_tok is Some,
        rec.n_tok->0 == t.len,
        t.band_hit == select::within_band(rec.score->0, params.band_lo, params.band_hi),
    ensures
        tick_of(rec, params) is Some,
        ticked(e, tick_of(rec, params)->0) == ticked(e, t),
{
}

/// A bot line of the log that counts.
pub open spec fn scored(r: Record) -> bool {
    r.role == Role::Bot && r.score is Some
}

/// The counters are what a look at the whole log counts: `n` the scored bot lines, `band_hits`
/// those whose score is a number from the lower to the upper edge of the band, `slip_n` those
/// that are marked as slipped.
pub proof fn law_counters_count_the_log(recs: Seq<Record>, params: Params, k: int)
    requires
        0 <= k <= recs.len() < u32::MAX,
    ensures
        ({
            let e = evaluated(recs, params, k);
            let lines = recs.take(k);
            &&& e.n == lines.filter(|r: Record| scored(r)).len()
            &&& e.band_hits == lines.filter(
                |r: Record|
                    scored(r) && bits::at_most32(params.band_lo, r.score->0) && bits::at_most32(
                        r.score->0,
                        params.band_hi,
                    ),
            ).len()
            &&& e.slip_n == lines.filter(|r: Record| scored(r) && r.slipped == Some(true)).len()
            &&& e.n <= k
        }),
    decreases k,
{
    let lines = recs.take(k);
    let all = |r: Record| scored(r);
    let hits = |r: Record|
        scored(r) && bits::at_most32(params.band_lo, r.score->0) && bits::at_most32(
            r.score->0,
            params.band_hi,
        );
    let slips = |r: Record| scored(r) && r.slipped == Some(true);
    reveal(Seq::filter);
    if k > 0 {
        law_counters_count_the_log(recs, params, k - 1);
        assert(lines.drop_last() =~= recs.take(k - 1));
        lemma_filter_within(recs.take(k - 1), hits, all);
        lemma_filter_within(recs.take(k - 1), slips, all);
    }
}

proof fn lemma_filter_within(
    s: Seq<Record>,
    p: spec_fn(Record) -> bool,
    q: spec_fn(Record) -> bool,
)
    requires
        forall|r: Record| #[trigger] p(r) ==> q(r),
    ensures
        s.filter(p).len() <= s.filter(q).len() <= s.len(),
    decreases s.len(),
{
    reveal(Seq::filter);
    if s.len() > 0 {
        lemma_filter_within(s.drop_last(), p, q);
    }
}

/// A turn counts for the band exactly where it hits it, and as a slip exactly where it
/// slipped, each by one and neither for the other; the shares of repeated text add up.
pub proof fn law_a_turn_counts_once(e: EvalAccum, t: Tick)
    requires
        e.room(t.lcs, t.len),
        0 <= t.lcs,
        0 <= t.len,
    ensures
        ({
            let f = ticked(e, t);
            &&& f.n == e.n + 1
            &&& t.band_hit ==> f.band_hits == e.band_hits + 1
            &&& !t.band_hit ==> f.band_hits == e.band_hits
            &&& t.slipped ==> f.slip_n == e.slip_n + 1
            &&& !t.slipped ==> f.slip_n == e.slip_n
            &&& f.lcs_sum == e.lcs_sum + t.lcs
            &&& f.lcs_len_sum == e.lcs_len_sum + t.len
        }),
{
}

/// A line without both of its sizes adds nothing to the shares of repeated text, and a line
/// with both adds the run that it repeats to the one and its length to the other.
pub proof fn law_unknown_sizes_count_nothing(e: EvalAccum, rec: Record, params: Params)
    requires
        scored(rec),
        rec.novelty_lcs is Some && rec.n_tok is Some ==> e.room(
            rec.novelty_lcs->0 as int,
            rec.n_tok->0 as int,
        ),
    ensures
        ({
            let f = ticked(e, tick_of(rec, params)->0);
            &&& tick_of(rec, params) is Some
            &&& rec.novelty_lcs is None || rec.n_tok is None ==> f.lcs_sum == e.lcs_sum
                && f.lcs_len_sum == e.lcs_len_sum
            &&& rec.novelty_lcs is Some && rec.n_tok is Some ==> f.lcs_sum == e.lcs_sum
                + rec.novelty_lcs->0 && f.lcs_len_sum == e.lcs_len_sum + rec.n_tok->0
        }),
{
}

/// The scores behind the mean are those of the counted lines, in the order of the log.
pub proof fn law_scores_are_those_of_the_log(recs: Seq<Record>, k: int)
    requires
        0 <= k <= recs.len(),
    ensures
        scores_of(recs, k) == recs.take(k).filter(|r: Record| scored(r)).map_values(
            |r: Record| r.score->0,
        ),
    decreases k,
{
    reveal(Seq::filter);
    let f = |r: Record| scored(r);
    let g = |r: Record| r.score->0;
    if k > 0 {
        law_scores_are_those_of_the_log(recs, k - 1);
        assert(recs.take(k).drop_last() =~= recs.take(k - 1));
        let before = recs.take(k - 1).filter(f);
        if scored(recs[k - 1]) {
            assert(before.push(recs[k - 1]).map_values(g) =~= before.map_values(g).push(
                recs[k - 1].score->0,
            ));
        }
        assert(scores_of(recs, k) =~= recs.take(k).filter(f).map_values(g));
    } else {
        assert(scores_of(recs, k) =~= recs.take(k).filter(f).map_values(g));
    }
}

} // verus!
