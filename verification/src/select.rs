//! Candidate ranking and the pick.
//!
//! Scores are the host's (topic cosine, source priors, contiguous rote, band hinge); the
//! integer parts they are made of, their order, the slip and the pick are decided here.
//! Slip samples the second and later ranks with a Boltzmann table.
use crate::alias;
use crate::alias::AliasTable;
use crate::bits;
use crate::entropy;
use crate::explain::CandidateTrace;
use crate::explain::PathKind;
use crate::ids::TokenId;
use crate::lcs;
use crate::mix;
use crate::rng;
use crate::rng::Stream;
use crate::sort;
use crate::text;
use vstd::prelude::*;

verus! {

#[derive(Debug)]
pub struct Ranked {
    pub index: usize,
    pub slipped: bool,
    /// In units of 2^-53.
    pub slip_roll: u64,
    pub traces: Vec<CandidateTrace>,
}

/// The candidates of a turn, with the scores that the host gave them. Lists that are shorter
/// than that of the texts leave the rest at their defaults.
pub struct RankInput<'a> {
    pub texts: &'a Vec<String>,
    pub tokens: &'a Vec<Vec<TokenId>>,
    pub sources: &'a Vec<PathKind>,
    /// Per-candidate mean −ln p of generation (None for non-generated).
    pub surprises: &'a Vec<Option<u32>>,
    /// Bit patterns of the topic cosines.
    pub topic_scores: &'a Vec<u32>,
    /// Bit patterns of the ranking scores.
    pub scores: &'a Vec<u32>,
}

/// Sorting by these puts high scores first.
pub open spec fn falling(scores: Seq<u32>) -> Seq<i64> {
    scores.map_values(|b: u32| (-bits::key32(b)) as i64)
}

/// `order` lists the candidates by falling score; equal scores keep their order.
pub open spec fn is_ranking(scores: Seq<u32>, order: Seq<usize>) -> bool {
    sort::sorted_indices(falling(scores), order, 0, scores.len() as int)
}

/// The candidates by falling score; equal scores keep their order.
pub open spec fn ranking(scores: Seq<u32>) -> Seq<usize> {
    choose|order: Seq<usize>| #[trigger] is_ranking(scores, order)
}

/// The candidates by falling score; equal scores keep their order.
pub fn rank(scores: &Vec<u32>) -> (r: Vec<usize>)
    ensures
        is_ranking(scores@, r@),
        r@ == ranking(scores@),
{
    let mut keys: Vec<i64> = Vec::new();
    let mut i: usize = 0;
    while i < scores.len()
        invariant
            i <= scores.len(),
            keys.len() == i,
            forall|k: int| 0 <= k < i ==> #[trigger] keys[k] == falling(scores@)[k],
        decreases scores.len() - i,
    {
        keys.push(-bits::order32(scores[i]));
        i += 1;
    }
    proof {
        assert(keys@ =~= falling(scores@));
    }
    let r = sort::sort_indices(&keys);
    proof {
        assert(is_ranking(scores@, r@));
        law_ranking_is_one(scores@, r@, ranking(scores@));
    }
    r
}

/// A ranking holds every candidate once, and there is only one.
pub proof fn law_ranking_is_one(scores: Seq<u32>, a: Seq<usize>, b: Seq<usize>)
    requires
        is_ranking(scores, a),
        is_ranking(scores, b),
    ensures
        a == b,
{
    let keys = falling(scores);
    assert forall|i: int| 0 <= i < a.len() implies a[i] == b[i] by {
        lemma_same_place(keys, a, b, i);
    }
    assert(a =~= b);
}

proof fn lemma_same_place(keys: Seq<i64>, a: Seq<usize>, b: Seq<usize>, i: int)
    requires
        sort::sorted_indices(keys, a, 0, keys.len() as int),
        sort::sorted_indices(keys, b, 0, keys.len() as int),
        0 <= i < a.len(),
    ensures
        a[i] == b[i],
    decreases i,
{
    let p = sort::lemma_sorted_onto(keys, b, a[i] as int);
    let q = sort::lemma_sorted_onto(keys, a, b[i] as int);
    if p < i {
        lemma_same_place(keys, a, b, p);
        assert(sort::goes_before(keys, a[p] as int, a[i] as int));
    } else if q < i {
        lemma_same_place(keys, a, b, q);
        assert(sort::goes_before(keys, b[q] as int, b[i] as int));
    } else if p > i && q > i {
        assert(sort::goes_before(keys, b[i] as int, b[p] as int));
        assert(sort::goes_before(keys, a[i] as int, a[q] as int));
    }
}

/// The source of a candidate.
pub open spec fn source_at(sources: Seq<PathKind>, i: int) -> PathKind {
    if i < sources.len() {
        sources[i]
    } else {
        PathKind::Markov
    }
}

/// The surprise of a candidate.
pub open spec fn surprise_at(surprises: Seq<Option<u32>>, i: int) -> Option<u32> {
    if i < surprises.len() {
        surprises[i]
    } else {
        None
    }
}

/// A turn slips where the roll is below the rate and there is a second rank.
pub open spec fn slips(roll: int, p_slip: u64, n: int) -> bool {
    bits::roll_below(roll, bits::clamped(p_slip)) && n >= 2
}

/// What a trace says of the candidate at a rank.
pub open spec fn traced(input: RankInput, c: CandidateTrace, rank: int, i: int, index: int) -> bool {
    &&& c.rank == rank
    &&& c.source == source_at(input.sources@, i)
    &&& c.text@ == input.texts[i]@
    &&& c.tokens@ == (if i < input.tokens.len() {
        input.tokens[i]@
    } else {
        Seq::empty()
    })
    &&& c.topic_score == input.topic_scores[i]
    &&& c.score == input.scores[i]
    &&& c.chosen == (i == index)
    &&& c.surprise == surprise_at(input.surprises@, i)
}

/// Ranks the candidates and picks one: the best, unless the turn slips; then one of the others
/// by the table, which stands for the ranks from the second on. A table of one element stands
/// for the second rank.
pub fn rank_and_pick(input: &RankInput, p_slip: u64, slip_table: &AliasTable, rng: &mut Stream) -> (r:
    Ranked)
    requires
        input.scores.len() == input.texts.len(),
        input.topic_scores.len() == input.texts.len(),
        slip_table.wf(),
        input.texts.len() >= 2 ==> slip_table.prob.len() == input.texts.len() - 1
            || slip_table.prob.len() == 1,
        old(rng).wf(),
    ensures
        final(rng).wf(),
        final(rng).seed == old(rng).seed,
        r.slip_roll == rng::roll_of(*old(rng)),
        r.slipped == slips(r.slip_roll as int, p_slip, input.texts.len() as int),
        final(rng).pos == picked(*slip_table, *old(rng), r.slipped).1,
        input.texts.len() > 0 ==> r.index == ranking(input.scores@)[picked(
            *slip_table,
            *old(rng),
            r.slipped,
        ).0],
        input.texts.len() == 0 ==> r.index == 0,
        r.traces.len() == input.texts.len(),
        forall|k: int|
            0 <= k < r.traces.len() ==> traced(
                *input,
                #[trigger] r.traces[k],
                k,
                ranking(input.scores@)[k] as int,
                r.index as int,
            ),
{
    let order = rank(input.scores);
    let ghost start = *rng;
    let n: usize = input.texts.len();
    let slip_roll: u64 = rng.rand_53();
    let p: u64 = bits::clamp_unit(p_slip);
    let slipped: bool = bits::roll_is_below(slip_roll, p) && n >= 2;
    let mut chosen_rank: usize = 0;
    if slipped {
        let ghost mid = *rng;
        let k: usize = slip_table.sample(rng);
        proof {
            assert(mid == rng::moved(start, rng::after(start.pos, 1)));
        }
        chosen_rank = 1 + k;
    }
    let index: usize = if chosen_rank < order.len() {
        order[chosen_rank]
    } else {
        0
    };
    let mut traces: Vec<CandidateTrace> = Vec::new();
    let mut k: usize = 0;
    while k < order.len()
        invariant
            k <= order.len(),
            is_ranking(input.scores@, order@),
            order@ == ranking(input.scores@),
            input.scores.len() == input.texts.len(),
            input.topic_scores.len() == input.texts.len(),
            traces.len() == k,
            forall|j: int|
                0 <= j < k ==> traced(
                    *input,
                    #[trigger] traces[j],
                    j,
                    order[j] as int,
                    index as int,
                ),
        decreases order.len() - k,
    {
        let i: usize = order[k];
        let tokens: Vec<TokenId> = if i < input.tokens.len() {
            mix::copy_tokens(&input.tokens[i])
        } else {
            Vec::new()
        };
        let source: PathKind = if i < input.sources.len() {
            input.sources[i]
        } else {
            PathKind::Markov
        };
        let surprise: Option<u32> = if i < input.surprises.len() {
            input.surprises[i]
        } else {
            None
        };
        proof {
            if i >= input.tokens.len() {
                assert(tokens@ =~= Seq::<u32>::empty());
            }
        }
        traces.push(
            CandidateTrace {
                rank: k,
                source,
                text: input.texts[i].clone(),
                tokens,
                topic_score: input.topic_scores[i],
                score: input.scores[i],
                chosen: i == index,
                surprise,
            },
        );
        k += 1;
    }
    let r = Ranked { index, slipped, slip_roll, traces };
    r
}

/// The rank that is picked behind the slip roll, and where that leaves the stream.
pub open spec fn picked(t: AliasTable, s: Stream, slipped: bool) -> (int, u128) {
    let next = rng::after(s.pos, 1);
    if slipped {
        let d = alias::sampled(t, rng::moved(s, next));
        (1 + d.0, d.1)
    } else {
        (0, next)
    }
}

/// The similarity lies in the band.
pub open spec fn within_band(sim: u32, lo: u32, hi: u32) -> bool {
    bits::at_most32(lo, sim) && bits::at_most32(sim, hi)
}

/// Whether the similarity lies in the band.
pub fn in_band(sim: u32, lo: u32, hi: u32) -> (r: bool)
    ensures
        r == within_band(sim, lo, hi),
{
    bits::is_at_most32(lo, sim) && bits::is_at_most32(sim, hi)
}

/// `a.0 / a.1` is no more than `b.0 / b.1`.
pub open spec fn no_more(a: (usize, usize), b: (usize, usize)) -> bool {
    a.0 * b.1 <= b.0 * a.1
}

/// The shared run of two texts, and the length it is measured against.
pub open spec fn is_overlap(a: Seq<u32>, b: Seq<u32>, r: (usize, usize)) -> bool {
    &&& lcs::is_longest_run(a, b, r.0 as int)
    &&& r.1 == (if a.len() == 0 || b.len() == 0 {
        1
    } else if a.len() < b.len() {
        a.len() as int
    } else {
        b.len() as int
    })
}

proof fn lemma_no_more_trans(a: (usize, usize), b: (usize, usize), c: (usize, usize))
    requires
        no_more(a, b),
        no_more(b, c),
        b.1 > 0,
        c.1 > 0,
        a.1 > 0,
    ensures
        no_more(a, c),
{
    assert(a.0 * c.1 <= c.0 * a.1) by (nonlinear_arith)
        requires
            a.0 * b.1 <= b.0 * a.1,
            b.0 * c.1 <= c.0 * b.1,
            b.1 > 0,
            c.1 > 0,
            a.1 > 0,
            a.0 >= 0,
            b.0 >= 0,
            c.0 >= 0,
    ;
}

/// The largest share that a candidate text has in common with one of the recent own replies:
/// numerator and denominator. Character level on purpose: token ids drift across reopen, text
/// does not.
pub fn self_overlap(candidate: &str, recent: &Vec<String>) -> (r: (usize, usize))
    ensures
        r.1 > 0,
        recent.len() == 0 ==> r == (0usize, 1usize),
        r == (0usize, 1usize) || exists|k: int|
            0 <= k < recent.len() && is_overlap(
                entropy::codes(candidate@),
                entropy::codes(#[trigger] recent[k]@),
                r,
            ),
        forall|k: int, o: (usize, usize)|
            #![trigger is_overlap(entropy::codes(candidate@), entropy::codes(recent[k]@), o)]
            0 <= k < recent.len() && is_overlap(
                entropy::codes(candidate@),
                entropy::codes(recent[k]@),
                o,
            ) ==> no_more(o, r),
{
    let ghost mine = entropy::codes(candidate@);
    let cand = entropy::codes_of(&text::chars_of(candidate));
    let mut best: (usize, usize) = (0, 1);
    let mut i: usize = 0;
    while i < recent.len()
        invariant
            i <= recent.len(),
            mine == entropy::codes(candidate@),
            cand@ == mine,
            best.1 > 0,
            i == 0 ==> best == (0usize, 1usize),
            best == (0usize, 1usize) || exists|k: int|
                0 <= k < i && is_overlap(mine, entropy::codes(#[trigger] recent[k]@), best),
            forall|k: int, o: (usize, usize)|
                #![trigger is_overlap(mine, entropy::codes(recent[k]@), o)]
                0 <= k < i && is_overlap(mine, entropy::codes(recent[k]@), o) ==> no_more(o, best),
        decreases recent.len() - i,
    {
        let prev = entropy::codes_of(&text::chars_of(recent[i].as_str()));
        let o: (usize, usize) = lcs::overlap(cand.as_slice(), prev.as_slice());
        let ghost before = best;
        proof {
            assert(is_overlap(mine, entropy::codes(recent[i as int]@), o));
            assert forall|x: (usize, usize)|
                is_overlap(mine, entropy::codes(recent[i as int]@), x) implies x == o by {
                lemma_one_overlap(mine, entropy::codes(recent[i as int]@), x, o);
            }
            lemma_products(o, best);
        }
        if (o.0 as u128) * (best.1 as u128) > (best.0 as u128) * (o.1 as u128) {
            best = o;
            proof {
                assert forall|k: int, x: (usize, usize)|
                    #![trigger is_overlap(mine, entropy::codes(recent[k]@), x)]
                    0 <= k < i && is_overlap(mine, entropy::codes(recent[k]@), x) implies no_more(
                    x,
                    best,
                ) by {
                    assert(no_more(x, before));
                    assert(x.1 > 0);
                    lemma_no_more_trans(x, before, best);
                }
            }
        }
        i += 1;
    }
    best
}

proof fn lemma_one_overlap(a: Seq<u32>, b: Seq<u32>, x: (usize, usize), y: (usize, usize))
    requires
        is_overlap(a, b, x),
        is_overlap(a, b, y),
    ensures
        x == y,
{
    let (i, j) = choose|i: int, j: int| #[trigger] lcs::shares(a, b, i, j, x.0 as int);
    let (k, l) = choose|k: int, l: int| #[trigger] lcs::shares(a, b, k, l, y.0 as int);
    assert(lcs::shares(a, b, i, j, x.0 as int));
    assert(lcs::shares(a, b, k, l, y.0 as int));
}

proof fn lemma_products(a: (usize, usize), b: (usize, usize))
    ensures
        a.0 * b.1 < 0x1_0000_0000_0000_0000 * 0x1_0000_0000_0000_0000,
        b.0 * a.1 < 0x1_0000_0000_0000_0000 * 0x1_0000_0000_0000_0000,
        a.0 * b.1 >= 0,
        b.0 * a.1 >= 0,
{
    assert(a.0 * b.1 < 0x1_0000_0000_0000_0000 * 0x1_0000_0000_0000_0000 && a.0 * b.1 >= 0)
        by (nonlinear_arith)
        requires
            0 <= a.0 < 0x1_0000_0000_0000_0000,
            0 <= b.1 < 0x1_0000_0000_0000_0000,
    ;
    assert(b.0 * a.1 < 0x1_0000_0000_0000_0000 * 0x1_0000_0000_0000_0000 && b.0 * a.1 >= 0)
        by (nonlinear_arith)
        requires
            0 <= b.0 < 0x1_0000_0000_0000_0000,
            0 <= a.1 < 0x1_0000_0000_0000_0000,
    ;
}

/// A ranking puts the best first: it lists every candidate once, none behind one with a lower
/// score, and of equal ones the earlier first.
pub proof fn law_the_best_rank_first(scores: Seq<u32>, order: Seq<usize>, i: int, j: int)
    requires
        is_ranking(scores, order),
        0 <= i < j < scores.len(),
    ensures
        order.len() == scores.len(),
        0 <= order[i] < scores.len() && 0 <= order[j] < scores.len(),
        order[i] != order[j],
        bits::key32(scores[order[i] as int]) >= bits::key32(scores[order[j] as int]),
        bits::key32(scores[order[i] as int]) == bits::key32(scores[order[j] as int]) ==> order[i]
            < order[j],
{
    let keys = falling(scores);
    assert(sort::goes_before(keys, order[i] as int, order[j] as int));
}

/// The first rank is held by a candidate than which none has a higher score.
pub proof fn law_nothing_beats_the_first(scores: Seq<u32>, order: Seq<usize>, c: int)
    requires
        is_ranking(scores, order),
        0 <= c < scores.len(),
    ensures
        bits::key32(scores[c]) <= bits::key32(scores[order[0] as int]),
        bits::key32(scores[c]) == bits::key32(scores[order[0] as int]) ==> order[0] <= c,
{
    let a = sort::lemma_sorted_onto(falling(scores), order, c);
    if a > 0 {
        law_the_best_rank_first(scores, order, 0, a);
    }
}

/// The band holds its edges and what lies between them, and nothing else; what is no number is
/// in no band.
pub proof fn law_the_band_holds_its_edges(sim: u32, lo: u32, hi: u32)
    ensures
        within_band(sim, lo, hi) ==> !bits::less32(sim, lo) && !bits::less32(hi, sim),
        bits::less32(sim, lo) || bits::less32(hi, sim) || bits::nan32(sim) ==> !within_band(
            sim,
            lo,
            hi,
        ),
        !bits::nan32(lo) && !bits::nan32(hi) && !bits::nan32(sim) && bits::key32(lo)
            <= bits::key32(sim) <= bits::key32(hi) ==> within_band(sim, lo, hi),
{
}

/// With a single candidate, or at a rate of zero, nothing slips; at a rate of one every turn
/// with a choice does. A higher rate slips wherever a lower one did.
pub proof fn law_slips_follow_the_rate(roll: int, p: u64, q: u64, n: int)
    requires
        0 <= roll < 0x20_0000_0000_0000,
    ensures
        n < 2 ==> !slips(roll, p, n),
        !slips(roll, 0, n),
        n >= 2 ==> slips(roll, bits::ONE_64, n),
        bits::nan64(p) ==> !slips(roll, p, n),
        !bits::nan64(p) && !bits::nan64(q) && bits::key64(p) <= bits::key64(q) && slips(roll, p, n)
            ==> slips(roll, q, n),
{
    bits::law_rolls_follow_chances(roll, roll, 0, 0);
    bits::law_chances_are_held(p, q);
    bits::law_keys_order_64(bits::clamped(p), bits::clamped(q));
    if bits::clamped(p) <= bits::clamped(q) {
        bits::law_rolls_follow_chances(roll, roll, bits::clamped(p), bits::clamped(q));
    }
}

/// Every list of scores has a ranking.
pub proof fn lemma_there_is_a_ranking(scores: Seq<u32>)
    requires
        scores.len() <= usize::MAX,
    ensures
        is_ranking(scores, ranking(scores)),
{
    broadcast use vstd::seq_lib::group_to_multiset_ensures;

    let keys = falling(scores);
    let n = scores.len();
    let base = Seq::new(n, |i: int| i as usize);
    let leq = |a: usize, b: usize| a == b || sort::goes_before(keys, a as int, b as int);
    let r = base.sort_by(leq);
    base.lemma_sort_by_ensures(leq);
    base.lemma_multiset_has_no_duplicates();
    assert forall|x: usize| r.to_multiset().contains(x) implies r.to_multiset().count(x) == 1 by {}
    r.lemma_multiset_has_no_duplicates_conv();
    assert(r.len() == r.to_multiset().len());
    assert forall|a: int| 0 <= a < r.len() implies 0 <= #[trigger] r[a] < n by {
        assert(r.contains(r[a]));
        assert(r.to_multiset().count(r[a]) > 0);
        assert(base.contains(r[a]));
    }
    assert forall|a: int, b: int| 0 <= a < b < r.len() implies sort::goes_before(
        keys,
        #[trigger] r[a] as int,
        #[trigger] r[b] as int,
    ) by {
        assert(leq(r[a], r[b]));
    }
    assert(is_ranking(scores, r));
}

/// Without a slip the first rank is picked, behind one draw; a slip picks a rank behind it that
/// the table knows.
pub proof fn law_slips_pick_behind_the_first(t: AliasTable, s: Stream)
    requires
        t.wf(),
    ensures
        picked(t, s, false) == (0int, rng::after(s.pos, 1)),
        1 <= picked(t, s, true).0 <= t.prob.len(),
        picked(t, s, true) == (
            1 + alias::sampled(t, Stream { seed: s.seed, pos: rng::after(s.pos, 1) }).0,
            alias::sampled(t, Stream { seed: s.seed, pos: rng::after(s.pos, 1) }).1,
        ),
{
    alias::law_samples_stay_inside(t, rng::moved(s, rng::after(s.pos, 1)));
}

/// The share that two texts have in common is their longest common run against the shorter of
/// the two: all of it where one holds the other, nothing where they have no character in common.
pub proof fn law_overlaps_are_shares_of_the_shorter(a: Seq<u32>, b: Seq<u32>, r: (usize, usize))
    requires
        is_overlap(a, b, r),
        a.len() > 0,
        b.len() > 0,
    ensures
        r.1 == a.len() || r.1 == b.len(),
        r.1 <= a.len() && r.1 <= b.len(),
        r.0 <= r.1,
        a == b ==> r.0 == r.1,
        (forall|i: int, j: int| 0 <= i < a.len() && 0 <= j < b.len() ==> #[trigger] a[i] != #[trigger] b[j])
            ==> r.0 == 0,
{
    let n = r.0 as int;
    lcs::law_the_longest_run_is_in_both(a, b, n, 0, 0, a.len() as int);
    let (p, q) = choose|p: int, q: int|
        0 <= p && p + n <= a.len() && 0 <= q && q + n <= b.len() && #[trigger] a.subrange(p, p + n)
            == #[trigger] b.subrange(q, q + n);
    if n > 0 {
        assert(a.subrange(p, p + n)[0] == b.subrange(q, q + n)[0]);
        assert(a[p] == b[q]);
    }
}

/// What is traced of a candidate is its own: text, source, tokens, scores and surprise, its
/// rank, and whether it is the one that was chosen.
pub proof fn law_candidates_are_traced(
    input: RankInput,
    c: CandidateTrace,
    rank: int,
    i: int,
    index: int,
)
    requires
        traced(input, c, rank, i, index),
        0 <= i < input.texts.len(),
        input.sources.len() == input.texts.len(),
        input.tokens.len() == input.texts.len(),
        input.surprises.len() == input.texts.len(),
    ensures
        c.rank == rank,
        c.text@ == input.texts[i]@,
        c.source == input.sources[i],
        c.tokens@ == input.tokens[i]@,
        c.surprise == input.surprises[i],
        c.score == input.scores[i],
        c.topic_score == input.topic_scores[i],
        i == index <==> c.chosen,
{
}

/// Shares are compared as fractions: of one denominator the larger numerator is the larger
/// share, of one numerator the smaller denominator.
pub proof fn law_shares_compare_as_fractions(x: usize, y: usize, d: usize, e: usize)
    requires
        0 < d,
        0 < e,
        0 < x,
    ensures
        no_more((x, d), (y, d)) <==> x <= y,
        no_more((x, d), (x, e)) <==> e <= d,
{
    assert(x * d <= y * d <==> x <= y) by (nonlinear_arith)
        requires
            0 < d,
    ;
    assert(x * e <= x * d <==> e <= d) by (nonlinear_arith)
        requires
            0 < x,
    ;
}

} // verus!
