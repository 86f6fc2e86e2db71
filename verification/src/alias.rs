//! Vose's alias method: constant-time sampling from a table.
//!
//! The host prepares the table from floating-point weights; it comes in as bit patterns.
use crate::bits;
use crate::fx;
use crate::ids::TokenId;
use crate::rng;
use crate::rng::Stream;
use rustc_hash::FxHashSet;
use vstd::prelude::*;

verus! {

#[derive(Debug)]
pub struct AliasTable {
    /// Bit patterns of the probabilities to stay at an index.
    pub prob: Vec<u64>,
    /// Where the rest of an index goes.
    pub alias: Vec<usize>,
}

/// The index that a table gives for a drawn index and a coin.
pub open spec fn settled(prob: Seq<u64>, alias: Seq<usize>, i: int, coin: int) -> int {
    if bits::roll_below(coin, prob[i]) {
        i
    } else {
        alias[i] as int
    }
}

/// What a sample of the table gives, and where it leaves the stream: one draw for the index,
/// one for the coin.
#[verifier::opaque]
pub open spec fn sampled(t: AliasTable, s: Stream) -> (int, u128) {
    let d = rng::drawn(s, t.prob.len() as int);
    (settled(t.prob@, t.alias@, d.0, rng::roll_of(rng::moved(s, d.1))), rng::after(d.1, 1))
}

/// How often the tail is sampled before its rest is listed.
pub const TAIL_TRIES: usize = 64;

impl AliasTable {
    pub open spec fn wf(&self) -> bool {
        &&& self.prob.len() > 0
        &&& self.alias.len() == self.prob.len()
        &&& forall|i: int|
            0 <= i < self.prob.len() ==> (#[trigger] self.prob[i]) < 0x8000_0000_0000_0000
                && bits::key64(self.prob[i]) <= bits::key64(bits::ONE_64)
        &&& forall|i: int| 0 <= i < self.alias.len() ==> #[trigger] self.alias[i] < self.alias.len()
    }

    /// A prepared table, with the probabilities held to [0, 1]; nothing where the two lists do
    /// not fit.
    pub fn from_parts(prob: &Vec<u64>, alias: &Vec<usize>) -> (r: Option<Self>)
        ensures
            match r {
                Some(t) => {
                    &&& t.wf()
                    &&& t.prob@ == prob@.map_values(|b: u64| bits::clamped(b))
                    &&& t.alias@ == alias@
                },
                None => prob.len() == 0 || prob.len() != alias.len() || exists|i: int|
                    0 <= i < alias.len() && #[trigger] alias[i] >= alias.len(),
            },
    {
        if prob.len() == 0 || prob.len() != alias.len() {
            return None;
        }
        let mut p: Vec<u64> = Vec::new();
        let mut a: Vec<usize> = Vec::new();
        let mut i: usize = 0;
        while i < prob.len()
            invariant
                i <= prob.len(),
                prob.len() == alias.len(),
                p.len() == i,
                a.len() == i,
                forall|k: int| 0 <= k < i ==> #[trigger] p[k] == bits::clamped(prob[k]),
                forall|k: int| 0 <= k < i ==> #[trigger] a[k] == alias[k],
                forall|k: int| 0 <= k < i ==> #[trigger] a[k] < alias.len(),
            decreases prob.len() - i,
        {
            if alias[i] >= alias.len() {
                assert(alias[i as int] >= alias.len());
                return None;
            }
            p.push(bits::clamp_unit(prob[i]));
            a.push(alias[i]);
            i += 1;
        }
        let t = AliasTable { prob: p, alias: a };
        proof {
            assert(t.prob@ =~= prob@.map_values(|b: u64| bits::clamped(b)));
            assert(t.alias@ =~= alias@);
        }
        Some(t)
    }

    /// A table without weights samples index 0 of one element, so callers can proceed.
    pub fn level() -> (r: Self)
        ensures
            r.wf(),
            r.prob@ == seq![bits::ONE_64],
            r.alias@ == seq![0usize],
    {
        let mut p: Vec<u64> = Vec::new();
        p.push(bits::ONE_64);
        let mut a: Vec<usize> = Vec::new();
        a.push(0);
        let r = AliasTable { prob: p, alias: a };
        proof {
            assert(r.prob@ =~= seq![bits::ONE_64]);
            assert(r.alias@ =~= seq![0usize]);
        }
        r
    }

    /// Number of indices.
    pub fn len(&self) -> (r: usize)
        ensures
            r == self.prob.len(),
    {
        self.prob.len()
    }

    /// An index by its weight.
    pub fn sample(&self, rng: &mut Stream) -> (r: usize)
        requires
            self.wf(),
            old(rng).wf(),
        ensures
            r < self.prob.len(),
            final(rng).wf(),
            final(rng).seed == old(rng).seed,
            (r as int, final(rng).pos) == sampled(*self, *old(rng)),
    {
        let ghost start = *rng;
        let i: usize = rng.rand_below(self.prob.len());
        let coin: u64 = rng.rand_53();
        proof {
            reveal(sampled);
            assert(rng::moved(start, rng::drawn(start, self.prob.len() as int).1).seed == start.seed);
        }
        if bits::roll_is_below(coin, self.prob[i]) {
            i
        } else {
            self.alias[i]
        }
    }
}

/// A sample is an index of the table.
pub proof fn law_samples_stay_inside(t: AliasTable, s: Stream)
    requires
        t.wf(),
    ensures
        0 <= sampled(t, s).0 < t.prob.len(),
{
    reveal(sampled);
    rng::law_draws_stay_below(s, t.prob.len() as int);
}

/// The sample at `j` of a run gave what the table gives where the one before left the stream.
pub open spec fn follows(
    t: AliasTable,
    ids: Seq<u32>,
    s: Stream,
    run: Seq<(int, u128)>,
    j: int,
) -> bool {
    0 <= run[j].0 < ids.len() && run[j] == sampled(
        t,
        rng::moved(
            s,
            if j == 0 {
                s.pos
            } else {
                run[j - 1].1
            },
        ),
    )
}

/// A run of samples, each with the index it gave and the position it left the stream at. All
/// but the last gave ids that are taken.
pub open spec fn is_run(
    t: AliasTable,
    ids: Seq<u32>,
    taken: Set<u32>,
    s: Stream,
    run: Seq<(int, u128)>,
) -> bool {
    &&& forall|j: int| 0 <= j < run.len() ==> #[trigger] follows(t, ids, s, run, j)
    &&& forall|j: int| 0 <= j < run.len() - 1 ==> taken.contains(ids[(#[trigger] run[j]).0])
}

/// An index whose id is not taken, by sampling again while it is; nothing after
/// `TAIL_TRIES` samples.
pub fn sample_untaken(
    table: &AliasTable,
    ids: &Vec<TokenId>,
    taken: &FxHashSet<u32>,
    rng: &mut Stream,
) -> (r: Option<usize>)
    requires
        table.wf(),
        table.prob.len() <= ids.len(),
        old(rng).wf(),
    ensures
        final(rng).wf(),
        final(rng).seed == old(rng).seed,
        exists|run: Seq<(int, u128)>|
            {
                &&& #[trigger] is_run(*table, ids@, taken@, *old(rng), run)
                &&& 0 < run.len() <= TAIL_TRIES
                &&& final(rng).pos == run.last().1
                &&& match r {
                    Some(i) => run.last().0 == i && !taken@.contains(ids[i as int]),
                    None => run.len() == TAIL_TRIES && taken@.contains(ids[run.last().0]),
                }
            },
{
    let ghost start = *rng;
    let ghost mut run: Seq<(int, u128)> = Seq::empty();
    let mut k: usize = 0;
    while k < TAIL_TRIES
        invariant
            table.wf(),
            table.prob.len() <= ids.len(),
            k <= TAIL_TRIES,
            rng.wf(),
            rng.seed == start.seed,
            start == *old(rng),
            run.len() == k,
            rng.pos == (if k == 0 {
                start.pos
            } else {
                run[k - 1].1
            }),
            is_run(*table, ids@, taken@, start, run),
            k > 0 ==> taken@.contains(ids[run.last().0]),
        decreases TAIL_TRIES - k,
    {
        let ghost here = *rng;
        let i: usize = table.sample(rng);
        proof {
            assert(here == rng::moved(start, here.pos));
            let before = run;
            run = run.push((i as int, rng.pos));
            assert forall|j: int| 0 <= j < run.len() implies #[trigger] follows(
                *table,
                ids@,
                start,
                run,
                j,
            ) by {
                if j < k {
                    assert(follows(*table, ids@, start, before, j));
                }
            }
            assert(is_run(*table, ids@, taken@, start, run));
        }
        if !fx::has_id(taken, ids[i]) {
            return Some(i);
        }
        k += 1;
    }
    None
}

/// A coin below the probability of an index stays there, and any other goes to its alias; with
/// probability one every coin stays, and with none no coin does.
pub proof fn law_coins_settle_an_index(prob: Seq<u64>, alias: Seq<usize>, i: int, coin: int)
    requires
        0 <= i < prob.len(),
        alias.len() == prob.len(),
        0 <= coin < 0x20_0000_0000_0000,
    ensures
        settled(prob, alias, i, coin) == i || settled(prob, alias, i, coin) == alias[i],
        bits::roll_below(coin, prob[i]) ==> settled(prob, alias, i, coin) == i,
        !bits::roll_below(coin, prob[i]) ==> settled(prob, alias, i, coin) == alias[i],
        prob[i] == bits::ONE_64 ==> settled(prob, alias, i, coin) == i,
        prob[i] == 0 ==> settled(prob, alias, i, coin) == alias[i],
{
    bits::law_rolls_follow_chances(coin, coin, 0, 0);
}

/// A sample takes a draw for the index and a roll for the coin, in this order.
pub proof fn law_a_sample_takes_a_draw_and_a_roll(t: AliasTable, s: Stream)
    requires
        t.wf(),
    ensures
        ({
            let i = rng::drawn(s, t.prob.len() as int);
            let coin = rng::roll_of(Stream { seed: s.seed, pos: i.1 });
            &&& sampled(t, s).1 == rng::after(i.1, 1)
            &&& bits::roll_below(coin, t.prob[i.0]) ==> sampled(t, s).0 == i.0
            &&& !bits::roll_below(coin, t.prob[i.0]) ==> sampled(t, s).0 == t.alias[i.0]
        }),
{
    reveal(sampled);
}

/// A run of samples goes on from where the sample before left the stream, and all but its last
/// gave taken ids; the tail is sampled 64 times at most.
pub proof fn law_runs_go_on_while_ids_are_taken(
    t: AliasTable,
    ids: Seq<u32>,
    taken: Set<u32>,
    s: Stream,
    run: Seq<(int, u128)>,
    j: int,
)
    requires
        is_run(t, ids, taken, s, run),
        0 <= j < run.len(),
        run.len() <= TAIL_TRIES,
    ensures
        run.len() <= 64,
        j == 0 ==> run[j] == sampled(t, s),
        j > 0 ==> run[j] == sampled(t, Stream { seed: s.seed, pos: run[j - 1].1 }),
        j > 0 ==> taken.contains(ids[run[j - 1].0]),
{
    assert(follows(t, ids, s, run, j));
    if j > 0 {
        assert(taken.contains(ids[run[j - 1].0]));
    }
    assert(rng::moved(s, s.pos) == s);
}

} // verus!
