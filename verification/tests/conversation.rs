//! Whole conversations: an engine, driven by floating-point arithmetic that stands in for a host.
#![allow(dead_code)]

use std::collections::BTreeSet;
use std::collections::HashMap;
use std::time::Instant;

use munou::alias;
use munou::alias::AliasTable;
use munou::embed::{HashEmbedder, TopicTracker};
use munou::engine::Engine;
use munou::entropy;
use munou::eval::EvalNumbers;
use munou::explain::{CandidateNumbers, GenStep, PathKind, Trace, TraceNumbers, TriggerTrace};
use munou::fabricate;
use munou::fabricate::FabricateOpts;
use munou::generate;
use munou::generate::{Evidence, Generated};
use munou::ids::{is_special, TokenId};
use munou::interest::{InterestLedger, Touch};
use munou::lcs;
use munou::log::{Record, Role};
use munou::memory;
use munou::mix::Pool;
use munou::params::{MixMode, Params, SmoothingKind};
use munou::propose;
use munou::propose::{Attempt, Markov};
use munou::report;
use munou::report::{DialNumbers, Stats, TopWord};
use munou::respond;
use munou::respond::{Answer, First, Notes, Weights};
use munou::retrieve::BotStore;
use munou::rng::Stream;
use munou::route;
use munou::route::{GateNumbers, RoutePlan};
use munou::select;
use munou::select::RankInput;
use munou::smoothing;
use munou::smoothing::NaiveBackoff;
use munou::store::Store;
use munou::text;
use munou::tokenizer::Tokenizer;
use munou::trigger::{TriggerDict, TriggerEntry};
use munou::turn;
use munou::turn::Begun;
use munou::weather;
use munou::weather::Weather;
use rustc_hash::FxHashSet;

/// A conversation with its log. A new one starts on a calm day, on which no dial moves.
struct Munou {
    host: Host,
    recs: Vec<Record>,
    now: u64,
}

impl Munou {
    fn open(params: Params, seed: u64, recs: Vec<Record>) -> Self {
        let mut day = 19_675;
        while weather::day_weather(seed, day) != Weather::Calm {
            day += 1;
        }
        let now = recs.last().map_or(day * 86_400_000, |r| r.t);
        Self { host: Host::open(params, seed, TriggerDict::new(), &recs), recs, now }
    }

    fn new(params: Params, seed: u64) -> Self {
        Self::open(params, seed, Vec::new())
    }

    fn reopen(&self) -> Self {
        Self::open(self.host.engine.params, self.host.engine.seed, self.recs.clone())
    }

    fn teach(&mut self, entries: &[(&str, &[&str])]) {
        self.host.engine.triggers = TriggerDict {
            entries: entries
                .iter()
                .map(|(p, rs)| TriggerEntry {
                    pattern: p.to_string(),
                    responses: rs.iter().map(|r| r.to_string()).collect(),
                })
                .collect(),
        };
    }

    fn respond(&mut self, input: &str) -> Reply {
        self.now += 1000;
        let d = self.host.draw(input, self.now);
        self.recs.push(d.answer.rec_user.clone());
        self.recs.push(d.answer.rec_bot.clone());
        self.host.conclude(d)
    }

    fn feedback(&mut self, good: bool) -> String {
        let rec = self.host.feedback_record(good, self.now);
        let msg = self.host.take_feedback(rec.as_ref(), good);
        self.recs.extend(rec);
        msg
    }

    fn stats(&self) -> Stats {
        self.host.stats()
    }
}

fn b64(x: f64) -> u64 {
    x.to_bits()
}

fn b32(x: f32) -> u32 {
    x.to_bits()
}

/// Absorbs every turn, and never slips.
fn eager() -> Params {
    Params { p_learn: b64(1.0), p_slip: b64(0.0), ..Params::default() }
}

fn fabricated(pairs: usize, rng_seed: u64) -> Vec<Record> {
    fabricate::records(FabricateOpts { pairs, rng_seed, unique_frac: b64(0.0) })
}

fn sources(r: &Reply) -> Vec<PathKind> {
    r.trace.candidates.iter().map(|c| c.source).collect()
}

fn f32_of(bits: u32) -> f32 {
    f32::from_bits(bits)
}

fn f64_of(bits: u64) -> f64 {
    f64::from_bits(bits)
}

/// A roll in units of 2^-53 as a number in [0, 1).
fn roll(r: u64) -> f64 {
    r as f64 * (1.0 / (1u64 << 53) as f64)
}

fn normalize(v: &mut [f32]) {
    let mut n = 0.0f32;
    for x in v.iter() {
        n += *x * *x;
    }
    let n = n.sqrt();
    if n < 1e-8 {
        return;
    }
    for x in v.iter_mut() {
        *x /= n;
    }
}

/// The unit vector of hashed counts.
fn unit(bins: &[i64]) -> Vec<f32> {
    let mut v: Vec<f32> = bins.iter().map(|b| *b as f32).collect();
    normalize(&mut v);
    v
}

fn embed(e: &HashEmbedder, s: &str) -> Vec<f32> {
    unit(&e.embed(s))
}

fn cosine(a: &[f32], b: &[f32]) -> f32 {
    let n = a.len().min(b.len());
    let mut acc = 0.0f32;
    for i in 0..n {
        acc += a[i] * b[i];
    }
    acc.clamp(-1.0, 1.0)
}

/// The direction of the recent inputs.
fn topic_mean(t: &TopicTracker, dim: usize) -> Vec<f32> {
    let mut out = vec![0.0f32; dim];
    if t.is_empty() {
        return out;
    }
    let inv = 1.0 / t.len() as f32;
    for bins in &t.window {
        for (o, x) in out.iter_mut().zip(unit(bins)) {
            *o += x * inv;
        }
    }
    normalize(&mut out);
    out
}

/// Cut scores of a text: half the entropy behind the gram, half the logarithm of its variety.
fn cut_scores(tk: &Tokenizer, s: &str) -> Vec<u64> {
    let chars = text::chars_of(s);
    let codes = entropy::codes_of(&chars);
    let mut out = vec![0u64; chars.len()];
    for (i, slot) in out.iter_mut().enumerate() {
        if tk.wants_score(&chars, i) {
            let mut next = tk.model.nexts_of(&tk.cut_gram(&codes, i));
            next.sort_unstable();
            let total: u32 = next.iter().map(|(_, c)| *c).sum();
            let mut h = 0.0f64;
            for &(_, c) in &next {
                let p = c as f64 / total as f64;
                h -= p * p.ln();
            }
            let variety = (next.len() as f64).max(1.0).ln();
            *slot = (0.5 * h + 0.5 * variety).to_bits();
        }
    }
    out
}

/// Half-life of 熱, in absorbed tokens.
const HALF_FAST: f64 = 300.0;
/// Half-life of 根, in absorbed tokens.
const HALF_SLOW: f64 = 10_000.0;
const HEAT_CAP: f64 = 6.0;
const ROOT_CAP: f64 = 4.0;
/// Raw heat may exceed the cap: repeated mentions then extend how long a term stays saturated.
const HEAT_RAW_CAP: f64 = 12.0;

/// 熱 and 根 of every chunk, as of its last touch.
#[derive(Default)]
struct Warmth {
    of: HashMap<TokenId, (f64, f64)>,
}

impl Warmth {
    fn feed(&mut self, lines: &[Vec<Touch>]) {
        for t in lines.iter().flatten() {
            let e = self.of.entry(t.id).or_insert((0.0, 0.0));
            let d = t.elapsed as f64;
            e.0 = (e.0 * 2f64.powf(-d / HALF_FAST) + 1.0).min(HEAT_RAW_CAP);
            e.1 = e.1 * 2f64.powf(-d / HALF_SLOW) + 1.0;
        }
    }

    /// 関心 in [0, 1], or nothing for unknown and hearsay chunks.
    fn score(&self, ledger: &InterestLedger, id: TokenId, hearsay_min: u32) -> Option<f32> {
        let d = ledger.elapsed(id, hearsay_min)? as f64;
        let (heat, root) = self.of.get(&id).copied()?;
        let heat = (heat * 2f64.powf(-d / HALF_FAST)).min(HEAT_CAP);
        let root = (2.0 * (1.0 + root * 2f64.powf(-d / HALF_SLOW)).log10()).min(ROOT_CAP);
        Some(((heat + root) / (HEAT_CAP + ROOT_CAP)) as f32)
    }
}

/// Gates of the sources, and the sizes that they ask for.
struct Gates {
    trig: f32,
    retr: f32,
    mark: f32,
    echo: f32,
    n_retrieve: usize,
    n_cand: usize,
}

fn gates(p: &Params, tokens: usize, bots: usize, retr_sim: f32, trig_sim: f32) -> Gates {
    let theta = f32_of(p.theta_trig);
    let trig = if theta <= 1e-6 { 0.0 } else { (trig_sim / theta).clamp(0.0, 1.0) };
    let retr = if bots == 0 { 0.0 } else { retr_sim.clamp(0.0, 1.0) };
    let mark = if tokens == 0 {
        0.0
    } else {
        (0.35 + 0.65 * (1.0 - 0.5 * retr)).clamp(0.2, 1.0)
    };
    Gates {
        trig,
        retr,
        mark,
        echo: if tokens == 0 { 1.0 } else { 0.35 },
        n_retrieve: (p.n_retrieve as f32 * (0.25 + 0.75 * retr)).round() as usize,
        n_cand: (p.n_cand as f32 * mark).round() as usize,
    }
}

/// Vose's table of non-negative weights.
fn alias_table(weights: &[f64]) -> AliasTable {
    let n = weights.len();
    let sum: f64 = weights.iter().copied().filter(|w| *w > 0.0).sum();
    if n == 0 || sum <= 0.0 {
        return AliasTable::level();
    }
    let mut scaled: Vec<f64> = weights.iter().map(|w| w.max(0.0) * (n as f64) / sum).collect();
    let mut small = Vec::new();
    let mut large = Vec::new();
    for (i, p) in scaled.iter().enumerate() {
        if *p < 1.0 {
            small.push(i);
        } else {
            large.push(i);
        }
    }
    let mut prob = vec![1.0f64.to_bits(); n];
    let mut alias: Vec<usize> = (0..n).collect();
    while !small.is_empty() && !large.is_empty() {
        let (s, l) = (small.pop().unwrap(), large.pop().unwrap());
        prob[s] = scaled[s].to_bits();
        alias[s] = l;
        scaled[l] = (scaled[l] + scaled[s]) - 1.0;
        if scaled[l] < 1.0 {
            small.push(l);
        } else {
            large.push(l);
        }
    }
    AliasTable::from_parts(&prob, &alias).unwrap_or_else(|| AliasTable::level())
}

/// Boltzmann weights.
fn softmax(scores: &[f64], tau: f64) -> Vec<f64> {
    let tau = tau.max(1e-6);
    let m = scores.iter().copied().fold(f64::NEG_INFINITY, f64::max);
    if !m.is_finite() {
        return vec![1.0; scores.len()];
    }
    scores.iter().map(|s| ((s - m) / tau).exp()).collect()
}

/// Probabilities to the power of 1/τ, summing to one again.
fn temper(weights: &mut [f64], tau: f64) {
    if (tau - 1.0).abs() < 1e-12 {
        return;
    }
    let inv = 1.0 / tau.max(1e-6);
    for w in weights.iter_mut() {
        if *w > 0.0 {
            *w = w.powf(inv);
        }
    }
    let sum: f64 = weights.iter().copied().filter(|w| *w > 0.0).sum();
    if sum > 0.0 {
        for w in weights.iter_mut() {
            *w /= sum;
        }
    }
}

/// The smallest head with a mass of `p`, then top-k; keeps at least one entry.
fn nucleus(ids: &mut Vec<TokenId>, weights: &mut Vec<f64>, p: f64, k: usize) {
    let n = weights.len().min(ids.len());
    let p = p.clamp(0.0, 1.0);
    if n == 0 || (p >= 1.0 - 1e-12 && k == 0) {
        return;
    }
    let mut order: Vec<usize> = (0..n).collect();
    order.sort_by(|&a, &b| weights[b].total_cmp(&weights[a]));
    let tot: f64 = weights[..n].iter().map(|w| w.max(0.0)).sum();
    if tot <= 0.0 {
        return;
    }
    let mut acc = 0.0;
    let mut head = 0;
    while head < n {
        acc += weights[order[head]].max(0.0);
        head += 1;
        if acc + 1e-12 >= p * tot {
            break;
        }
    }
    if k > 0 {
        head = head.min(k);
    }
    let mut keep = vec![false; n];
    for &i in &order[..head] {
        keep[i] = true;
    }
    let kept: Vec<usize> = (0..n).filter(|&i| keep[i]).collect();
    *ids = kept.iter().map(|&i| ids[i]).collect();
    *weights = kept.iter().map(|&i| weights[i]).collect();
}

/// Mean −ln p over the steps that carry probability.
fn mean_surprise(steps: &[GenStep]) -> Option<u32> {
    let mut sum = 0.0f32;
    let mut n = 0u32;
    for s in steps {
        let (p, logp) = (f32_of(s.p), f32_of(s.logp));
        if p > 0.0 && logp.is_finite() {
            sum -= logp;
            n += 1;
        }
    }
    if n == 0 {
        None
    } else {
        Some((sum / n as f32).to_bits())
    }
}

fn ratio(o: (usize, usize)) -> f32 {
    o.0 as f32 / o.1 as f32
}

fn source_bias(source: PathKind, p: &Params, trigger_match: f32) -> f32 {
    match source {
        PathKind::Trigger => f32_of(p.trigger_bonus) + f32_of(p.trigger_match_weight) * trigger_match,
        PathKind::Markov => 0.0,
        PathKind::Retrieve => -f32_of(p.retrieve_penalty),
        PathKind::Echo => -f32_of(p.echo_penalty),
        PathKind::Adapt => -f32_of(p.adapt_penalty),
    }
}

/// Distance to the similarity band; zero inside.
fn band_hinge(sim: f32, lo: f32, hi: f32) -> f32 {
    if sim > hi {
        sim - hi
    } else if sim < lo {
        lo - sim
    } else {
        0.0
    }
}

/// What a candidate is scored by, beside its similarity to the topic.
struct Scored<'a> {
    text: &'a str,
    tokens: &'a [TokenId],
    source: PathKind,
    surprise: Option<u32>,
    bonus: f32,
}

/// Topic cosine, source priors, own-repeat and rote penalties, and the band hinge.
fn candidate_score(
    p: &Params,
    c: &Scored<'_>,
    topic_s: f32,
    input_tokens: &[TokenId],
    recent_bot: &Vec<String>,
    trigger_match: f32,
    prior: &[f32; 5],
) -> f32 {
    let rote = f32_of(p.rote_penalty) * ratio(lcs::overlap(c.tokens, input_tokens));
    let own = f32_of(p.self_penalty) * ratio(select::self_overlap(c.text, recent_bot));
    let surprise = f32_of(p.surprise_weight) * c.surprise.map(f32_of).unwrap_or(0.0);
    topic_s
        + source_bias(c.source, p, trigger_match)
        + prior[route::prior_index(c.source)]
        + surprise
        + c.bonus
        - rote
        - own
        - f32_of(p.band_penalty) * band_hinge(topic_s, f32_of(p.band_lo), f32_of(p.band_hi))
}

/// One `/good` or `/bad`.
fn apply_pref(prior: &mut [f32; 5], path: PathKind, good: bool, p: &Params) {
    let i = route::prior_index(path);
    let d = if good { f32_of(p.pref_step) } else { -f32_of(p.pref_step) };
    let clip = f32_of(p.pref_clip).max(0.0);
    prior[i] = (prior[i] + d).clamp(-clip, clip);
}

/// The base distribution of a store.
struct Base {
    ids: Vec<TokenId>,
    probs: Vec<f64>,
    of: HashMap<TokenId, f64>,
    total: f64,
    table: AliasTable,
    /// Chen-Goodman discounts, for Kneser-Ney only.
    discounts: Option<(f64, f64, f64)>,
}

impl Base {
    fn of(store: &Store, p: &Params) -> Self {
        let kn = p.smoothing == SmoothingKind::Kn;
        let (counts, total) = if kn { store.continuation_unigram() } else { store.ml_unigram() };
        let ids: Vec<TokenId> = counts.iter().map(|(id, _)| *id).collect();
        let probs: Vec<f64> = counts.iter().map(|(_, c)| *c as f64 / total as f64).collect();
        let discounts =
            if kn { Some(discounts(store.bigram_count_of_counts(), f64_of(p.kn_discount))) } else { None };
        Self {
            of: ids.iter().copied().zip(probs.iter().copied()).collect(),
            total: probs.iter().sum(),
            table: alias_table(&probs),
            ids,
            probs,
            discounts,
        }
    }

    fn p(&self, id: TokenId) -> f64 {
        self.of.get(&id).copied().unwrap_or(0.0)
    }
}

/// Discounts of counts of one, two, and three or more.
fn discounts(n: (u64, u64, u64, u64), fallback: f64) -> (f64, f64, f64) {
    let d = fallback.clamp(0.0, 1.0);
    if n.0 == 0 || n.1 == 0 {
        return (d, d, d);
    }
    let (n1, n2, n3, n4) = (n.0 as f64, n.1 as f64, n.2 as f64, n.3 as f64);
    let y = n1 / (n1 + 2.0 * n2);
    let d1 = 1.0 - 2.0 * y * n2 / n1;
    let d2 = 2.0 - 3.0 * y * n3 / n2;
    let d3 = if n3 > 0.0 { 3.0 - 4.0 * y * n4 / n3 } else { d2 };
    (d1.clamp(0.05, 0.95), d2.clamp(0.05, 1.95), d3.clamp(0.05, 2.95))
}

struct SparseDist {
    ids: Vec<TokenId>,
    vals: Vec<f64>,
    idx: HashMap<TokenId, usize>,
    /// P(w) = tail · U(w) for every w not in `ids`.
    tail: f64,
    /// Σ U(id) over explicit ids.
    umass: f64,
}

impl SparseDist {
    fn current(&self, b: &Base, id: TokenId) -> f64 {
        match self.idx.get(&id) {
            Some(&i) => self.vals[i],
            None => self.tail * b.p(id),
        }
    }

    fn put(&mut self, b: &Base, id: TokenId, v: f64) {
        if let Some(&i) = self.idx.get(&id) {
            self.vals[i] = v;
            return;
        }
        self.idx.insert(id, self.ids.len());
        self.ids.push(id);
        self.vals.push(v);
        self.umass += b.p(id);
    }

    fn scale(&mut self, k: f64) {
        for v in &mut self.vals {
            *v *= k;
        }
        self.tail *= k;
    }

    fn explicit_mass(&self) -> f64 {
        self.vals.iter().map(|v| v.max(0.0)).sum()
    }

    fn tail_mass(&self, b: &Base) -> f64 {
        (self.tail * (b.total - self.umass)).max(0.0)
    }

    fn renormalize(&mut self, b: &Base) {
        let z = self.explicit_mass() + self.tail_mass(b);
        if z > 0.0 {
            self.scale(1.0 / z);
        }
    }

    /// Zeroes the ids seen at this order, and renormalises the rest.
    fn exclude(&mut self, counts: &[(TokenId, u32)], b: &Base) {
        for &(id, _) in counts {
            self.put(b, id, 0.0);
        }
        self.renormalize(b);
    }

    /// P = λ·ML + (1−λ)·P.
    fn witten_bell(&mut self, counts: &[(TokenId, u32)], total: u32, b: &Base) {
        let (num, den) = NaiveBackoff.weight(total, counts.len() as u32);
        let lambda = num as f64 / den as f64;
        let olds: Vec<f64> = counts.iter().map(|&(id, _)| self.current(b, id)).collect();
        self.scale(1.0 - lambda);
        for (&(id, c), old) in counts.iter().zip(olds) {
            self.put(b, id, lambda * (c as f64 / total as f64) + (1.0 - lambda) * old);
        }
    }

    /// P = (c−D(c))⁺/N + λ·P, renormalised.
    fn kneser_ney(&mut self, counts: &Vec<(TokenId, u32)>, total: u32, d: (f64, f64, f64), b: &Base) {
        let n = total as f64;
        let (n1, n2, n3) = smoothing::count_classes(counts);
        let lambda = (d.0 * n1 as f64 + d.1 * n2 as f64 + d.2 * n3 as f64) / n;
        let olds: Vec<f64> = counts.iter().map(|&(id, _)| self.current(b, id)).collect();
        self.scale(lambda);
        for (&(id, c), old) in counts.iter().zip(olds) {
            let cut = [0.0, d.0, d.1, d.2][smoothing::discount_class(c)].min(c as f64);
            self.put(b, id, ((c as f64 - cut).max(0.0) / n + lambda * old).max(0.0));
        }
        self.renormalize(b);
    }

    /// P = (1−λ)·P + λ·extra, renormalised.
    fn mix(&mut self, extra: &[(TokenId, u32)], total: u32, lam: f64, b: &Base) {
        let lam = lam.clamp(0.0, 1.0);
        if lam <= 0.0 || extra.is_empty() {
            return;
        }
        let keep = 1.0 - lam;
        let olds: Vec<f64> = extra.iter().map(|&(id, _)| self.current(b, id)).collect();
        if keep <= 0.0 {
            *self = Self::new(0.0);
        } else {
            self.scale(keep);
        }
        for (&(id, c), old) in extra.iter().zip(olds) {
            self.put(b, id, keep * old + lam * (c as f64 / total as f64));
        }
        self.renormalize(b);
    }

    fn new(tail: f64) -> Self {
        Self { ids: Vec::new(), vals: Vec::new(), idx: HashMap::new(), tail, umass: 0.0 }
    }

    fn built(ev: &Evidence, p: &Params, b: &Base) -> Self {
        let mut dist = Self::new(1.0);
        for o in &ev.orders {
            if ev.exclude {
                dist.exclude(&o.counts, b);
            }
            match b.discounts {
                Some(d) => dist.kneser_ney(&o.counts, o.total, d, b),
                None => dist.witten_bell(&o.counts, o.total, b),
            }
        }
        if let Some(o) = &ev.skip {
            dist.mix(&o.counts, o.total, f64_of(p.lambda_skip), b);
        }
        if let Some(r) = &ev.recent {
            let total: u32 = r.iter().map(|(_, c)| *c).sum();
            dist.mix(r, total, f64_of(p.lambda_cache), b);
        }
        dist
    }

    /// Two-level draw: over the explicit support, or over the tail without it.
    fn sample(&self, b: &Base, rng: &mut Stream) -> Option<(TokenId, f64)> {
        let m_s = self.explicit_mass();
        let m_t = self.tail_mass(b);
        let z = m_s + m_t;
        if z <= 0.0 {
            return None;
        }
        let r = roll(rng.rand_53()) * z;
        if r < m_s || m_t <= 0.0 {
            let i = alias_table(&self.vals).sample(rng);
            return Some((self.ids[i], self.vals[i].max(0.0) / z));
        }
        let taken: FxHashSet<u32> = self.ids.iter().copied().collect();
        if let Some(i) = alias::sample_untaken(&b.table, &b.ids, &taken, rng) {
            return Some((b.ids[i], self.tail * b.probs[i] / z));
        }
        // The explicit support covers most of the base mass.
        let rest: Vec<usize> = (0..b.ids.len()).filter(|&i| !taken.contains(&b.ids[i])).collect();
        if rest.is_empty() {
            return None;
        }
        let w: Vec<f64> = rest.iter().map(|&i| b.probs[i]).collect();
        let i = alias_table(&w).sample(rng);
        Some((b.ids[rest[i]], self.tail * w[i] / z))
    }

    /// The whole distribution, for temperature and nucleus.
    fn dense(&self, b: &Base) -> (Vec<TokenId>, Vec<f64>) {
        let mut ids = b.ids.clone();
        ids.extend(self.ids.iter().copied().filter(|id| !b.of.contains_key(id)));
        let w = ids.iter().map(|&id| self.current(b, id).max(0.0)).collect();
        (ids, w)
    }
}

fn weighted(ids: Vec<TokenId>, w: Vec<f64>, rng: &mut Stream) -> Option<(TokenId, f64)> {
    let z: f64 = w.iter().copied().filter(|x| *x > 0.0).sum();
    if ids.is_empty() {
        return None;
    }
    let i = alias_table(&w).sample(rng);
    Some((ids[i], if z > 0.0 { w[i].max(0.0) / z } else { 0.0 }))
}

/// One decode step.
fn draw(ev: &Evidence, p: &Params, b: &Base, parrot: &Vec<TokenId>, rng: &mut Stream) -> Option<(TokenId, f64)> {
    let dist = SparseDist::built(ev, p, b);
    let tau = f64_of(p.tau_gen);
    let plain = (tau - 1.0).abs() < 1e-12 && f64_of(p.p_nucleus) >= 1.0 - 1e-12 && p.k_top == 0;
    let got = if plain {
        dist.sample(b, rng)
    } else {
        let (mut ids, mut w) = dist.dense(b);
        temper(&mut w, tau);
        nucleus(&mut ids, &mut w, f64_of(p.p_nucleus), p.k_top);
        if w.iter().any(|x| *x > 0.0) {
            weighted(ids, w, rng)
        } else {
            None
        }
    };
    if got.is_some() {
        return got;
    }
    let pu = generate::parrot_unigram(parrot);
    let w = pu.iter().map(|(_, c)| *c as f64 / parrot.len() as f64).collect();
    weighted(pu.iter().map(|(id, _)| *id).collect(), w, rng)
}

/// One reply from a store: chunks, and the steps that made it.
fn generate_one(
    store: &Store,
    b: &Base,
    p: &Params,
    max_len: usize,
    ctx_seed: &Vec<TokenId>,
    parrot: &Vec<TokenId>,
    rng: &mut Stream,
) -> (Vec<TokenId>, Vec<GenStep>) {
    let temperature = (f64_of(p.tau_gen) as f32).to_bits();
    let mut g = Generated::begin(store.is_empty(), parrot.len(), max_len);
    while g.wants() {
        let ctx = g.context(ctx_seed, p.l_max_capped());
        let ev = generate::evidence(store, p, &ctx);
        let step = draw(&ev, p, b, parrot, rng).map(|(id, prob)| GenStep {
            ctx_len_requested: ctx.len(),
            ctx_len_used: ev.used,
            freq: ev.freq,
            sampled: id,
            temperature,
            p: (prob as f32).to_bits(),
            logp: (prob as f32).ln().to_bits(),
        });
        g.take(step);
    }
    g.finish(parrot, temperature)
}

/// An engine, with the numbers beside it.
struct Host {
    engine: Engine,
    prior: [f32; 5],
    last_trace: Option<Trace>,
    warmth: Warmth,
    sim_sum: f32,
    last_bot: Option<String>,
}

/// A turn that is drawn but not yet taken in.
struct Drawn {
    answer: Answer,
    chunks: Vec<TokenId>,
}

/// What is shown of a turn.
struct Reply {
    text: String,
    interject: Option<String>,
    milestone: Option<String>,
    trace: Trace,
}

/// What the sources made of an input.
struct Proposals {
    pool: Pool,
    steps: Vec<GenStep>,
    trigger: Option<TriggerTrace>,
    route: String,
}

fn fixed(x: f64, places: usize) -> String {
    format!("{x:.places$}")
}

fn signed(x: f32, places: usize) -> String {
    format!("{x:+.places$}")
}

/// The numbers of a trace as they are shown.
fn trace_numbers(t: &Trace) -> TraceNumbers {
    let trigger = t.trigger.as_ref();
    TraceNumbers {
        p_slip: fixed(f64_of(t.p_slip), 2),
        slip_roll: fixed(roll(t.slip_roll), 3),
        p_learn: fixed(f64_of(t.p_learn), 2),
        learn_roll: fixed(roll(t.learn_roll), 3),
        similarity: fixed(f32_of(t.similarity) as f64, 3),
        prior: t.path_prior.map(|x| signed(f32_of(x), 2)),
        trigger_similarity: fixed(trigger.map_or(0.0, |t| f32_of(t.similarity)) as f64, 3),
        trigger_threshold: fixed(trigger.map_or(0.0, |t| f32_of(t.threshold)) as f64, 3),
        candidates: t
            .candidates
            .iter()
            .map(|c| CandidateNumbers {
                score: signed(f32_of(c.score), 3),
                topic: signed(f32_of(c.topic_score), 3),
                surprise: fixed(c.surprise.map_or(0.0, f32_of) as f64, 2),
            })
            .collect(),
        steps: t.steps.iter().map(|s| fixed(f32_of(s.p) as f64, 3)).collect(),
    }
}

impl Host {
    fn open(params: Params, seed: u64, triggers: TriggerDict, recs: &Vec<Record>) -> Self {
        let tokenizer = memory::train(&params, recs);
        let scores: Vec<Vec<u64>> = recs.iter().map(|r| cut_scores(&tokenizer, &r.text)).collect();
        let (engine, opened) = Engine::open(params, seed, triggers, tokenizer, recs, &scores);
        let mut prior = [0.0f32; 5];
        for (path, good) in &opened.prefs {
            apply_pref(&mut prior, *path, *good, &engine.params);
        }
        let mut warmth = Warmth::default();
        warmth.feed(&opened.touches);
        let last_bot = recs.iter().rev().find(|r| r.role == Role::Bot).map(|r| {
            let path = r.path.map_or("unknown", |p| p.name());
            format!("path={path}  learned={}  「{}」", r.learned, r.text)
        });
        Self {
            engine,
            prior,
            last_trace: None,
            warmth,
            sim_sum: opened.sims.iter().map(|s| f32_of(*s)).sum(),
            last_bot,
        }
    }

    /// Draws a reply and its records; nothing is taken in yet.
    fn draw(&mut self, input: &str, now: u64) -> Drawn {
        let t0 = Instant::now();
        let line = text::trim(input);
        let scores = cut_scores(&self.engine.tokenizer, &line);
        let e = &mut self.engine;
        let sky = turn::sky(&e.params, &e.digest, e.seed);
        let p_release = f64_of(e.params.hearsay_release) * f64_of(sky.gains.release);
        let begun = turn::begin(
            &mut e.memory,
            &e.params,
            &e.embedder,
            &e.tokenizer,
            &mut e.rng,
            e.seed,
            &sky,
            &line,
            &scores,
            p_release.clamp(0.0, 1.0).to_bits(),
        );
        let topic = topic_mean(&e.memory.topic, e.embedder.dim);
        let made = self.propose_all(&begun, &topic);

        let e = &mut self.engine;
        let trigger_match = made.trigger.as_ref().map_or(0.0, |t| f32_of(t.similarity));
        let mut topic_scores = Vec::new();
        let mut scores = Vec::new();
        for p in &made.pool.items {
            let topic_s = cosine(&topic, &embed(&e.embedder, &p.text));
            let c = Scored {
                text: &p.text,
                tokens: &p.tokens,
                source: p.source,
                surprise: p.surprise,
                bonus: bonus(e, &self.warmth, &begun.care, f32_of(sky.gains.care), &p.text, &p.tokens),
            };
            topic_scores.push(topic_s.to_bits());
            scores.push(
                candidate_score(
                    &e.params,
                    &c,
                    topic_s,
                    &begun.tok.chunks,
                    &e.memory.recent_bot,
                    trigger_match,
                    &self.prior,
                )
                .to_bits(),
            );
        }
        let order = select::rank(&scores);
        let rest: Vec<f64> = order.iter().skip(1).map(|&i| f32_of(scores[i]) as f64).collect();
        let p_slip = (f64_of(e.params.p_slip) * f64_of(sky.gains.slip)).clamp(0.0, 1.0);
        let p_interject = (f64_of(e.params.interject_rate) * f64_of(sky.gains.interject)).clamp(0.0, 1.0);
        let weights = Weights {
            topic_scores,
            scores,
            slip_table: alias_table(&softmax(&rest, f64_of(e.params.tau_slip))),
            p_slip: p_slip.to_bits(),
            p_interject: p_interject.to_bits(),
            silent_score: cosine(&topic, &embed(&e.embedder, "…")).to_bits(),
        };
        let dials = DialNumbers {
            slip: fixed(f64_of(sky.gains.slip), 2),
            interject: fixed(f64_of(sky.gains.interject), 2),
            release: fixed(f64_of(sky.gains.release), 2),
        };
        let notes = Notes {
            trigger: made.trigger,
            steps: made.steps,
            route: Some(made.route),
            path_prior: self.prior.map(f32::to_bits),
            weather: report::weather_note(&e.params, &sky, &begun.care, &dials),
            elapsed_us: t0.elapsed().as_micros() as u64,
        };
        let answer = respond::answer(
            &e.memory,
            &e.params,
            &mut e.rng,
            e.seed,
            &begun,
            &made.pool,
            &weights,
            notes,
            now,
        );
        let drawn = Drawn { answer, chunks: begun.tok.chunks };
        drawn
    }

    /// Takes in a turn whose records are written.
    fn conclude(&mut self, d: Drawn) -> Reply {
        let Answer { tokens, trace, rec_user, rec_bot } = d.answer;
        let (milestone, touches) =
            self.engine.conclude(&rec_user, &rec_bot, &trace, &d.chunks, &tokens);
        self.warmth.feed(&touches);
        self.sim_sum += f32_of(trace.similarity);
        self.last_trace = Some(trace.clone());
        Reply {
            text: rec_bot.text,
            interject: trace.interject.clone(),
            milestone,
            trace,
        }
    }

    /// Lets every open source propose into one pool, in the fixed order.
    fn propose_all(&mut self, begun: &Begun, topic: &[f32]) -> Proposals {
        let e = &mut self.engine;
        let q = embed(&e.embedder, &begun.input);
        let trig_sims: Vec<u32> = e
            .triggers
            .entries
            .iter()
            .map(|t| cosine(&q, &embed(&e.embedder, &t.pattern)).to_bits())
            .collect();
        let hit = e.triggers.match_one(&trig_sims, e.params.theta_trig);
        let trig_sim = hit.as_ref().map_or(0.0, |(t, _)| f32_of(t.similarity));
        let start = munou::retrieve::scan_start(e.memory.bots.len(), e.params.n_retrieve_scan);
        let retr_sim = e.memory.bots.items[start..]
            .iter()
            .map(|b| cosine(topic, &unit(&b.bins)))
            .fold(0.0f32, f32::max);
        let g = gates(&e.params, e.memory.store.len(), e.memory.bots.len(), retr_sim, trig_sim);
        let shown = GateNumbers {
            trig: fixed(g.trig as f64, 2),
            retr: fixed(g.retr as f64, 2),
            mark: fixed(g.mark as f64, 2),
            echo: fixed(g.echo as f64, 2),
        };
        let scores: Vec<Vec<u64>> = match &hit {
            Some((_, responses)) => responses.iter().map(|r| cut_scores(&e.tokenizer, r)).collect(),
            None => Vec::new(),
        };
        let First { mut pool, trigger, plan, sources: open } = respond::propose_first(
            &mut e.memory,
            &e.params,
            &e.tokenizer,
            hit,
            &scores,
            g.n_retrieve,
            g.n_cand,
        );
        let mut steps = Vec::new();
        if open.retrieve {
            propose_retrieved(e, &mut pool, &begun.input, topic, plan.n_retrieve);
        }
        if open.adapt {
            let sims = |v: &[f32]| -> Vec<u32> {
                e.memory.pairs.items.iter().map(|p| cosine(v, &unit(&p.bins)).to_bits()).collect()
            };
            e.memory.pairs.propose(
                &mut pool,
                &e.memory.intern,
                &e.memory.store,
                &begun.input,
                &begun.tok.chunks,
                &sims(&q),
                &sims(topic),
                e.params.n_adapt,
                e.params.n_retrieve_scan,
            );
        }
        if open.n_cand > 0 {
            steps = propose_markov(e, &mut pool, begun, open.n_cand);
        }
        let pool = respond::propose_last(
            &e.memory,
            &e.params,
            &mut e.rng,
            open.echo,
            &begun.input,
            &begun.tok.chunks,
            pool,
        );
        let route = plan.explain_line(&shown);
        Proposals { pool, steps, trigger, route }
    }

    /// Records a preference for the last source; nothing before the first turn.
    fn feedback_record(&self, good: bool, now: u64) -> Option<Record> {
        report::feedback_record(self.last_trace.as_ref().map(|t| t.path), self.engine.last_path, good, now)
    }

    /// Takes in a preference that is written.
    fn take_feedback(&mut self, rec: Option<&Record>, good: bool) -> String {
        let Some(rec) = rec else {
            return report::feedback_text(None, good, "");
        };
        let mut shown = String::new();
        if let Some(path) = rec.path {
            apply_pref(&mut self.prior, path, good, &self.engine.params);
            shown = signed(self.prior[route::prior_index(path)], 2);
        }
        self.engine.digest.ingest(rec);
        report::feedback_text(rec.path, good, &shown)
    }

    fn stats(&self) -> Stats {
        report::stats(&self.engine)
    }

    fn rebuild(&mut self) {
        self.engine.rebuild();
    }

    /// Rebuilds tokenizer and index from the log.
    fn retokenize(&mut self, recs: &Vec<Record>) {
        let tokenizer = memory::train(&self.engine.params, recs);
        let scores: Vec<Vec<u64>> = recs.iter().map(|r| cut_scores(&tokenizer, &r.text)).collect();
        let touches = self.engine.retokenize(tokenizer, recs, &scores);
        self.warmth = Warmth::default();
        self.warmth.feed(&touches);
    }

    /// One Markov draw that leaves the conversation alone.
    fn markov_draw(&self) -> usize {
        let e = &self.engine;
        let (ctx, parrot) = e.draw_context();
        let base = Base::of(&e.memory.store, &e.params);
        let mut rng = Stream::at(e.seed, e.rng.pos);
        generate_one(&e.memory.store, &base, &e.params, e.params.max_gen_len, &ctx, &parrot, &mut rng).0.len()
    }

    fn eval_summary(&self) -> String {
        let (e, p) = (&self.engine.eval, &self.engine.params);
        let n = e.n as f32;
        let rote = if e.lcs_len_sum == 0 { 0.0 } else { e.lcs_sum as f32 / e.lcs_len_sum as f32 };
        e.summary(&EvalNumbers {
            band_lo: fixed(f32_of(p.band_lo) as f64, 2),
            band_hi: fixed(f32_of(p.band_hi) as f64, 2),
            band_percent: fixed((100.0 * e.band_hits as f32 / n) as f64, 1),
            mean_sim: fixed((self.sim_sum / n) as f64, 3),
            slip_percent: fixed((100.0 * e.slip_n as f32 / n) as f64, 1),
            rote: fixed(rote as f64, 2),
        })
    }

    fn ayumi_text(&self) -> String {
        let (m, p) = (&self.engine.memory, &self.engine.params);
        let mut ids = Vec::new();
        let mut scores = Vec::new();
        for id in m.interest.established(p.hearsay_min) {
            if let Some(s) = self.warmth.score(&m.interest, id, p.hearsay_min) {
                ids.push(id);
                scores.push(s.to_bits());
            }
        }
        let tops: Vec<TopWord> = report::top_words(&m.intern, &ids, &scores)
            .into_iter()
            .map(|i| TopWord {
                word: m.intern.get(ids[i]).to_string(),
                score: fixed(f32_of(scores[i]) as f64, 2),
            })
            .collect();
        report::ayumi_text(&self.engine, &tops)
    }

    fn why_text(&self) -> String {
        match &self.last_trace {
            Some(t) => report::why_text(Some((t, &trace_numbers(t))), None),
            None => report::why_text(None, self.last_bot.as_deref()),
        }
    }
}

/// 関心 and 気になる語: an additive term per candidate.
fn bonus(e: &Engine, warmth: &Warmth, care: &Option<String>, care_gain: f32, said: &str, tokens: &[TokenId]) -> f32 {
    let mut b = 0.0f32;
    let weight = f32_of(e.params.interest_weight);
    if weight != 0.0 {
        let best = tokens
            .iter()
            .filter(|id| !is_special(**id))
            .filter_map(|id| warmth.score(&e.memory.interest, *id, e.params.hearsay_min))
            .fold(0.0f32, f32::max);
        b += weight * best;
    }
    if let Some(word) = care {
        if care_gain != 0.0 && text::contains(said, word) {
            b += f32_of(e.params.care_bonus) * care_gain;
        }
    }
    b
}

/// Maximal marginal relevance over the past replies.
fn propose_retrieved(e: &Engine, pool: &mut Pool, input: &str, topic: &[f32], n: usize) {
    let bots = &e.memory.bots;
    let lambda = f32_of(e.params.mmr_lambda);
    let mut round = bots.candidates(pool, input, e.params.n_retrieve_scan);
    let embs: Vec<Vec<f32>> = round.cands.iter().map(|&i| unit(&bots.items[i].bins)).collect();
    let sims: Vec<f32> = embs.iter().map(|v| cosine(topic, v)).collect();
    let mut redundancy = vec![0.0f32; embs.len()];
    loop {
        let scores: Vec<u32> = (0..embs.len())
            .map(|c| (lambda * sims[c] - (1.0 - lambda) * redundancy[c]).to_bits())
            .collect();
        let Some(c) = round.next_pick(&scores, n) else { break };
        bots.propose_picked(pool, &round, c);
        for (r, v) in redundancy.iter_mut().zip(&embs) {
            *r = r.max(cosine(v, &embs[c]));
        }
    }
}

/// Markov candidates, half of them around an anchor where there is one.
fn propose_markov(e: &mut Engine, pool: &mut Pool, begun: &Begun, n_cand: usize) -> Vec<GenStep> {
    let chunks = &begun.tok.chunks;
    let mut source = Markov::begin(&e.memory, &e.params, pool, chunks, begun.release, n_cand);
    let base = Base::of(&e.memory.store, &e.params);
    let rev_base = Base::of(&e.memory.rev_store, &e.params);
    loop {
        let (tokens, steps) = match source.next(pool) {
            Attempt::Done => break,
            Attempt::Anchored(anchor) => anchored(e, &base, &rev_base, anchor),
            Attempt::Plain => generate_one(
                &e.memory.store,
                &base,
                &e.params,
                e.params.max_gen_len,
                &source.ctx_seed,
                &source.parrot,
                &mut e.rng,
            ),
        };
        let surprise = mean_surprise(&steps);
        source.offer(pool, &e.memory.intern, &tokens, steps, surprise);
    }
    propose::propose_parrot(&e.memory.intern, &e.params, pool, chunks, &mut e.rng);
    source.steps
}

/// One candidate around an anchor: forward on the store, then leftward on its mirror.
fn anchored(e: &mut Engine, base: &Base, rev_base: &Base, anchor: TokenId) -> (Vec<TokenId>, Vec<GenStep>) {
    let max = e.params.max_gen_len;
    let none = Vec::new();
    let (forward, mut steps) = generate_one(
        &e.memory.store,
        base,
        &e.params,
        generate::forward_budget(max),
        &vec![anchor],
        &none,
        &mut e.rng,
    );
    let budget = generate::backward_budget(max, forward.len());
    let mut backward = Vec::new();
    if budget > 0 {
        let ctx = generate::backward_context(anchor, &forward);
        let (b, more) =
            generate_one(&e.memory.rev_store, rev_base, &e.params, budget, &ctx, &none, &mut e.rng);
        backward = b;
        steps.extend(more);
    }
    (generate::assemble(anchor, &forward, &backward), steps)
}

#[test]
fn deterministic_given_seed() {
    let lines = ["こんにちは", "今日はいい天気だね", "そうだね", "また今度"];
    let mut a = Munou::new(Params::default(), 42);
    let mut b = Munou::new(Params::default(), 42);
    for line in lines {
        let ra = a.respond(line);
        let rb = b.respond(line);
        assert_eq!(ra.text, rb.text, "line={line}");
    }
}

#[test]
fn different_seeds_can_diverge() {
    let params = Params { weather: false, p_slip: b64(1.0), ..Params::default() };
    let mut a = Munou::new(params, 1);
    let mut b = Munou::new(params, 2);
    let mut same = 0;
    let mut n = 0;
    for line in ["こんにちは", "おはよう", "ねむい", "ごはん", "また"] {
        let ra = a.respond(line);
        let rb = b.respond(line);
        n += 1;
        if ra.text == rb.text {
            same += 1;
        }
    }
    assert!(same < n || n == 0);
}

#[test]
fn log_survives_reopen() {
    let mut e = Munou::new(Params::default(), 9);
    e.respond("こんにちは");
    assert!(e.reopen().stats().utterances >= 2);
}

#[test]
fn rng_position_matches_after_reopen() {
    let params = Params {
        p_learn: b64(0.0),
        p_slip: b64(0.0),
        weather: false,
        interject_rate: b64(0.0),
        ..Params::default()
    };
    let mut live = Munou::open(params, 1, fabricated(64, 1));
    live.respond("こんにちは");
    let live_pos = live.host.engine.rng.pos;
    let mut reopened = live.reopen();
    assert_eq!(reopened.host.engine.rng.pos, live_pos);
    let live_reply = live.respond("散歩しない？");
    let reopened_reply = reopened.respond("散歩しない？");
    assert_eq!(reopened_reply.text, live_reply.text);
    assert_eq!(reopened_reply.interject, live_reply.interject);
    assert_eq!(reopened_reply.trace.path, live_reply.trace.path);
    assert_eq!(reopened_reply.trace.learn_roll, live_reply.trace.learn_roll);
}

#[test]
fn markov_draw_does_not_advance_conversation_rng() {
    let mut e = Munou::new(Params::default(), 1);
    e.respond("こんにちは");
    let before = e.host.engine.rng.pos;
    let _ = e.host.markov_draw();
    assert_eq!(e.host.engine.rng.pos, before);
}

#[test]
fn latest_legacy_bot_does_not_reuse_stale_rng_position() {
    let mut e = Munou::new(Params::default(), 1);
    e.respond("こんにちは");
    let t = e.now;
    e.recs.push(Record::user("legacy user".into(), false, t));
    e.recs.push(Record::bot("legacy bot".into(), false, b32(0.0), false, PathKind::Echo, 0, 1, t));
    assert_eq!(e.reopen().host.engine.rng.pos, 0);
}

#[test]
fn exclusive_mode_has_no_adapt_candidates() {
    let mut e = Munou::new(Params { mix: MixMode::Exclusive, ..eager() }, 5);
    e.respond("コーヒー飲む？");
    e.respond("散歩しよう");
    let r = e.respond("紅茶飲む？");
    assert!(
        sources(&r).iter().all(|s| *s != PathKind::Adapt),
        "exclusive pool must not contain Adapt: {:?}",
        sources(&r)
    );
}

#[test]
fn max_gen_len_is_a_hard_cap() {
    let mut e = Munou::new(Params { max_gen_len: 3, ..eager() }, 17);
    for _ in 0..6 {
        e.respond("あか、あお、らくだ、みどり、きいろ");
    }
    for _ in 0..6 {
        let r = e.respond("らくだ");
        for c in &r.trace.candidates {
            if c.source == PathKind::Markov {
                assert!(
                    c.tokens.len() <= 3,
                    "markov candidate exceeds max_gen_len: {:?}",
                    c.tokens
                );
            }
        }
    }
}

#[test]
fn n_adapt_zero_disables_pair_store() {
    let mut e = Munou::new(Params { n_adapt: 0, ..eager() }, 3);
    for line in ["こんにちは", "散歩しよう", "猫かわいい"] {
        e.respond(line);
    }
    assert_eq!(e.host.engine.memory.pairs.len(), 0, "pair store must stay empty at n_adapt=0");
}

#[test]
fn empty_input_state_matches_after_reopen() {
    let mut e = Munou::new(eager(), 9);
    e.respond("");
    let live = (e.stats().tokens, e.host.engine.memory.bots.len());
    let e2 = e.reopen();
    assert_eq!(
        (e2.stats().tokens, e2.host.engine.memory.bots.len()),
        live,
        "reopen must not grow a corpus the live process never had"
    );
}

#[test]
fn adapt_proposes_and_rev_store_tracks() {
    let mut e = Munou::new(eager(), 21);
    e.respond("コーヒー飲む？");
    e.respond("散歩しよう");
    assert_eq!(
        e.host.engine.memory.rev_store.len(),
        e.host.engine.memory.store.len(),
        "reversed twin must mirror the forward store"
    );
    let r = e.respond("紅茶飲む？");
    assert!(
        sources(&r).iter().any(|s| *s == PathKind::Adapt),
        "pool should contain an Adapt candidate: {:?}",
        sources(&r)
    );
}

#[test]
fn anchored_generation_gives_anchor_left_context() {
    let mut e = Munou::new(Params { n_cand: 10, ..eager() }, 17);
    for _ in 0..6 {
        e.respond("あか、あお、らくだ、みどり");
    }
    let mut saw_left_context = false;
    for _ in 0..6 {
        let r = e.respond("らくだ");
        for c in &r.trace.candidates {
            if c.source == PathKind::Markov
                && c.text.contains("らくだ")
                && !c.text.starts_with("らくだ")
            {
                saw_left_context = true;
            }
        }
    }
    assert!(saw_left_context, "some markov candidate should contain the anchor mid-text");
}

#[test]
fn no_exact_self_repeat_within_window() {
    let mut e = Munou::new(eager(), 13);
    let inputs = ["こんにちは", "散歩しよう", "猫かわいい"];
    let mut said: Vec<(String, PathKind)> = Vec::new();
    for i in 0..12 {
        let r = e.respond(inputs[i % inputs.len()]);
        let recent: Vec<&String> = said.iter().rev().take(3).map(|(t, _)| t).collect();
        if r.trace.path != PathKind::Trigger && r.trace.path != PathKind::Echo {
            assert!(!recent.contains(&&r.text), "turn {i}: repeated own reply {:?}", r.text);
        }
        said.push((r.text, r.trace.path));
    }
}

#[test]
fn markov_candidates_never_start_with_punctuation() {
    let mut e = Munou::new(Params { n_cand: 8, ..eager() }, 6);
    let lines = [
        "うん、散歩しよう",
        "ね、コーヒー飲む？",
        "え、猫かわいいね",
        "あ、仕事わすれてた",
        "うん、そうだね",
        "ね、ゲームしよう",
    ];
    for line in lines.iter().chain(lines.iter()) {
        let r = e.respond(line);
        for c in &r.trace.candidates {
            if c.source == PathKind::Markov {
                let first = c.text.chars().next().unwrap_or('x');
                assert!(
                    !matches!(first, '、' | '。' | '！' | '？' | '…' | '・'),
                    "markov candidate starts with punctuation: {}",
                    c.text
                );
            }
        }
    }
}

#[test]
fn topic_window_matches_after_reopen() {
    let mut e = Munou::new(eager(), 7);
    e.respond("こんにちは");
    e.respond("散歩しよう");
    let e2 = e.reopen();
    assert_eq!(
        e2.stats().topic_window,
        e.stats().topic_window,
        "replayed topic window must match the live one (user inputs only)"
    );
    assert_eq!(e2.host.engine.memory.topic.window, e.host.engine.memory.topic.window);
}

#[test]
fn interject_beat_fires_and_matches_between_same_seeds() {
    let params = Params { interject_rate: b64(1.0), weather: false, ..eager() };
    let mut a = Munou::new(params, 11);
    let mut b = Munou::new(params, 11);
    let lines = [
        "はい",
        "うん",
        "おお",
        "今日はとてもいい天気だね",
        "散歩にいこうよ",
        "コーヒーのむ？",
    ];
    let mut fired = false;
    for l in lines.iter().chain(lines.iter()) {
        let ra = a.respond(l);
        let rb = b.respond(l);
        assert_eq!(ra.text, rb.text, "l={l}");
        assert_eq!(ra.interject, rb.interject, "l={l}");
        if ra.interject.is_some() {
            fired = true;
        }
    }
    assert!(fired, "rate=1 with a live bank must produce an interjection");
}

#[test]
fn milestone_fires_on_learned_crossing() {
    let mut e = Munou::new(eager(), 5);
    let mut got = Vec::new();
    for i in 0..6 {
        let r = e.respond(&format!("こんにちは{i}"));
        if let Some(m) = r.milestone {
            got.push((i, m));
        }
    }
    assert_eq!(got, vec![(4usize, "節目 吸収10".to_string())]);
}

#[test]
fn interject_bank_survives_reopen() {
    let mut e = Munou::new(eager(), 9);
    for l in ["はい", "うん", "おお", "はい"] {
        e.respond(l);
    }
    let live = e.host.engine.memory.interjects.entries();
    assert!(!live.is_empty());
    assert_eq!(e.reopen().host.engine.memory.interjects.entries(), live);
}

#[test]
fn hearsay_gate_controls_anchoring() {
    let mut m = Munou::new(Params { hearsay_release: b64(0.0), ..eager() }, 17);
    m.respond("あか、あお、らくだ、みどり");
    let e = &mut m.host.engine;
    let scores = cut_scores(&e.tokenizer, "らくだ");
    let tok = e.tokenizer.tokenize(&mut e.memory.intern, "らくだ", &scores);
    let id = *tok.chunks.first().expect("らくだ tokenises");
    assert!(e.memory.store.count_of(id) > 0);
    let hearsay = e.memory.interest.is_hearsay(id, e.params.hearsay_min);
    let gated = propose::pick_anchor(&e.memory, &e.params, &tok.chunks, false);
    if hearsay {
        assert_eq!(gated, None, "hearsay chunk must not anchor");
    }
    assert!(
        propose::pick_anchor(&e.memory, &e.params, &tok.chunks, true).is_some(),
        "release must let an in-corpus chunk anchor"
    );
}

#[test]
fn ayumi_reports_birth_and_first_word() {
    let mut e = Munou::new(eager(), 7);
    assert!(e.host.ayumi_text().contains("まだ記録なし"));
    e.respond("はじめてのあいさつ");
    let a = e.host.ayumi_text();
    assert!(a.contains("うまれた日"), "{a}");
    assert!(a.contains("初語"), "{a}");
    assert!(a.contains("はじめてのあいさつ"), "{a}");
    assert!(a.contains("発話 2"), "{a}");
}

#[test]
fn feedback_is_meta_not_corpus_and_survives_reopen() {
    let mut e = Munou::new(eager(), 9);
    let r = e.respond("こんにちは");
    let path = r.trace.path;
    let tokens_after = e.stats().tokens;
    let utterances_after = e.stats().utterances;
    let msg = e.feedback(true);
    assert!(msg.contains("good"), "{msg}");
    assert_eq!(e.stats().tokens, tokens_after);
    assert_eq!(e.stats().utterances, utterances_after);
    assert_eq!(e.stats().meta, 1);
    assert!(e.host.prior[route::prior_index(path)] > 0.0);
    let e2 = e.reopen();
    assert_eq!(e2.stats().tokens, tokens_after);
    assert_eq!(e2.stats().utterances, utterances_after);
    assert_eq!(e2.stats().learned, utterances_after);
    assert_eq!(e2.stats().meta, 1);
    assert_eq!(e2.host.prior, e.host.prior);
}

#[test]
fn never_panics_on_weird_inputs() {
    let mut e = Munou::new(Params::default(), 1);
    let long_ja = "あ".repeat(400);
    let long_ascii = "A".repeat(800);
    let inputs = vec![
        "",
        "   ",
        "\t\n",
        "a",
        "あ",
        "😊",
        "👨‍👩‍👧‍👦",
        "hello世界123",
        "‏RTL ערב",
        "ゼロ幅\u{200b}スペース",
        "「引用」と『二重』",
        "??!!。。、、",
        "http://example.invalid/foo?x=1",
        "line1\nline2",
        "null\0inside",
        long_ja.as_str(),
        long_ascii.as_str(),
        "<script>alert(1)</script>",
        "{\"role\":\"user\"}",
        "/good",
        "/observe",
        "量子力学の話をしよう",
        "おはよう",
        "　　全角空白　　",
    ];
    for s in inputs {
        let r = e.respond(s);
        assert!(
            !r.text.is_empty() || s.trim().is_empty(),
            "empty reply for non-empty input {s:?}"
        );
        assert!(r.trace.candidates.iter().any(|c| c.chosen) || r.trace.candidates.is_empty());
        let _ = r.trace.explain_text(&trace_numbers(&r.trace));
    }
}

#[test]
fn empty_and_whitespace_do_not_crash_and_are_named() {
    let mut e = Munou::new(Params::default(), 2);
    let a = e.respond("");
    let b = e.respond("   \t");
    assert!(!a.text.is_empty(), "empty input should still emit a fallback");
    assert!(!b.text.is_empty());
    assert!(e.stats().utterances >= 4);
}

#[test]
fn param_corners_respond() {
    let corners = [
        Params {
            n_cand: 1,
            n_retrieve: 0,
            n_echo: 1,
            p_slip: b64(0.0),
            p_learn: b64(0.0),
            tau_gen: b64(1e-3),
            tau_slip: b64(1e-3),
            p_nucleus: b64(0.0),
            k_top: 1,
            max_gen_len: 1,
            merge_threshold: 32,
            ..Params::default()
        },
        Params {
            n_cand: 32,
            n_retrieve: 12,
            n_echo: 2,
            p_slip: b64(1.0),
            p_learn: b64(1.0),
            tau_gen: b64(2.5),
            p_nucleus: b64(0.5),
            k_top: 3,
            smoothing: SmoothingKind::Kn,
            kn_discount: b64(0.0),
            mix: MixMode::Pool,
            mmr_lambda: b32(0.0),
            band_penalty: b32(0.0),
            rote_penalty: b32(0.0),
            ..Params::default()
        },
        Params { mix: MixMode::Exclusive, n_cand: 4, ..eager() },
        Params {
            theta_trig: b32(0.0),
            pref_step: b32(1.0),
            pref_clip: b32(0.01),
            embed_dim: 8,
            k_topic: 1,
            l_max: 1,
            chunk_morphs: 1,
            entropy_n: 2,
            ..Params::default()
        },
    ];
    for (i, p) in corners.into_iter().enumerate() {
        let mut e = Munou::new(p, 11 + i as u64);
        for line in ["こんにちは", "今日は晴れ", "ね", "量子"] {
            let r = e.respond(line);
            assert!(!r.text.is_empty(), "corner {i} empty reply");
        }
        e.host.rebuild();
        let recs = e.recs.clone();
        e.host.retokenize(&recs);
        e.respond("再分割のあと");
        let _ = e.feedback(true);
        let _ = e.feedback(false);
        let _ = e.feedback(true);
    }
}

#[test]
fn good_after_reopen_uses_last_bot_path() {
    let mut e = Munou::new(eager(), 8);
    assert_eq!(e.feedback(true), "no turn yet");
    let path = e.respond("ありがとう").trace.path;
    assert_ne!(e.feedback(true), "no turn yet");
    let mut e2 = e.reopen();
    let msg = e2.feedback(true);
    assert_ne!(msg, "no turn yet", "reopen must remember last path for /good");
    assert!(
        e2.host.prior[route::prior_index(path)] > 0.0,
        "prior should accumulate across reopen: {msg}"
    );
}

#[test]
fn trigger_dict_edges() {
    assert!(TriggerDict { entries: Vec::new() }.is_empty());
    let mut e = Munou::new(Params::default(), 1);
    e.teach(&[("x", &[]), ("", &["y"])]);
    assert!(!e.respond("x").text.is_empty());
    assert!(!e.respond("").text.is_empty());
}

#[test]
fn nucleus_does_not_kill_interpolation_when_off() {
    let params =
        Params { p_nucleus: b64(1.0), k_top: 0, mix: MixMode::Exclusive, ..eager() };
    let mut e = Munou::new(params, 2);
    for line in ["赤青黄", "赤青黄", "赤青黄", "赤青緑", "赤青緑", "赤青緑", "赤青"] {
        e.respond(line);
    }
    assert!(!e.respond("赤青").text.is_empty());
}

#[test]
fn many_turns_stay_fast_and_deterministic() {
    let params = Params { merge_threshold: 64, n_cand: 6, ..eager() };
    let prompts = [
        "こんにちは",
        "今日はいい天気",
        "コーヒー飲む？",
        "猫かわいい",
        "ゲームしない？",
        "ねむい",
        "また今度",
        "ありがとう",
    ];
    let t0 = Instant::now();
    let mut a = Munou::new(params, 99);
    let mut b = Munou::new(params, 99);
    let mut texts = Vec::new();
    for i in 0..40 {
        let line = prompts[i % prompts.len()];
        let ra = a.respond(line);
        let rb = b.respond(line);
        assert_eq!(ra.text, rb.text, "turn {i}");
        texts.push(ra.text);
        assert!(ra.trace.elapsed_us < 50_000, "slow turn {}us", ra.trace.elapsed_us);
    }
    let dt = t0.elapsed();
    assert!(dt.as_millis() < 8_000, "40+40 turns took {dt:?}");
    a.host.rebuild();
    assert!(a.stats().tokens > 0);
    assert_eq!(texts.len(), 40);
}

#[test]
fn chatty_unicode_roundtrip_log() {
    let mut e = Munou::new(Params { p_learn: b64(1.0), ..Params::default() }, 5);
    e.respond("絵文字😊と漢字とカタカナミックス");
    e.respond("café naïve");
    assert!(e.recs.iter().any(|r| r.text.contains("😊")));
    assert!(e.reopen().stats().utterances >= 4);
}

#[test]
fn why_after_reopen_uses_last_bot_line() {
    let mut e = Munou::new(eager(), 3);
    assert!(e.host.why_text().contains("no trace yet"));
    e.respond("こんにちは");
    assert!(e.host.why_text().contains("path="));
    assert!(!e.host.why_text().contains("reopened"));
    let why = e.reopen().host.why_text();
    assert!(!why.contains("no trace yet"), "{why}");
    assert!(why.contains("reopened") || why.contains("path="), "{why}");
}

#[test]
fn fabricated_thousands_are_dense_and_closed() {
    let recs = fabricated(400, 1);
    assert_eq!(recs.len(), 800);
    let mut e = Munou::open(Params { p_slip: b64(0.0), ..Params::default() }, 1, recs);
    e.teach(&[("おはよう", &["おはよ"])]);
    let st = e.stats();
    assert_eq!(st.utterances, 800);
    assert_eq!(st.learned, 800);
    assert!(st.tokens >= 400, "tokens={}", st.tokens);
    let hi = e.respond("おはよう");
    assert_eq!(hi.trace.path, PathKind::Trigger);
    let ood = e.respond("量子力学の話をしよう");
    assert_ne!(ood.trace.path, PathKind::Trigger);
}

#[test]
fn trigger_wins_greeting_when_nothing_slips() {
    let mut e = Munou::new(Params { p_slip: b64(0.0), ..Params::default() }, 3);
    e.teach(&[("おはよう", &["おはよ・テスト応答"])]);
    let r = e.respond("おはよう");
    assert_eq!(r.trace.path, PathKind::Trigger);
    assert_eq!(r.text, "おはよ・テスト応答");
    assert!(r.trace.trigger.is_some());
    assert!(
        sources(&r).iter().any(|s| *s == PathKind::Echo),
        "pool should still list echo, not XOR it away"
    );
}

#[test]
fn exclusive_trigger_skips_echo_and_markov() {
    let mut e = Munou::new(Params { mix: MixMode::Exclusive, ..Params::default() }, 3);
    e.teach(&[("おはよう", &["おはよ・テスト応答"])]);
    let r = e.respond("おはよう");
    assert_eq!(r.trace.path, PathKind::Trigger);
    assert!(
        !sources(&r).iter().any(|s| *s == PathKind::Markov || *s == PathKind::Echo),
        "exclusive XOR should not keep echo/markov beside a trigger hit"
    );
}

#[test]
fn empty_pool_engine_labels_echo_not_markov() {
    let params = Params { mix: MixMode::Pool, p_slip: b64(0.0), ..Params::default() };
    let mut e = Munou::new(params, 1);
    let r = e.respond("ありがとう");
    assert_eq!(r.trace.path, PathKind::Echo);
    assert_eq!(r.text, "ありがとう");
    assert!(
        !sources(&r).iter().any(|s| *s == PathKind::Markov),
        "pool mode must not parrot the user under a Markov label"
    );
}

#[test]
fn echo_is_the_exact_input() {
    let params = Params { mix: MixMode::Pool, p_slip: b64(0.0), ..Params::default() };
    let mut e = Munou::new(params, 1);
    let r = e.respond("  10  20 円 ");
    assert_eq!(r.trace.path, PathKind::Echo);
    assert_eq!(r.text, "10  20 円");
}

#[test]
fn zero_slip_never_selects_below_rank_one() {
    let mut e = Munou::new(Params { p_slip: b64(0.0), n_cand: 8, ..Params::default() }, 11);
    for line in ["こんにちは", "今日は晴れ", "散歩しよう", "ね"] {
        let r = e.respond(line);
        assert!(!r.trace.slipped, "slipped with p_slip=0");
        assert_eq!(r.trace.chosen_rank, 0);
    }
}

#[test]
fn full_slip_picks_non_top_when_multiple_candidates() {
    let params =
        Params { p_slip: b64(1.0), n_cand: 8, p_learn: b64(1.0), ..Params::default() };
    let mut e = Munou::new(params, 11);
    let mut slipped = false;
    for line in ["こんにちは世界", "今日はとても良い天気ですね", "また明日会いましょう"] {
        let r = e.respond(line);
        if r.trace.candidates.len() >= 2 && r.trace.slipped {
            slipped = true;
            assert!(r.trace.chosen_rank >= 1);
        }
    }
    assert!(slipped, "p_slip=1 should slip when ≥2 candidates exist");
}

#[test]
fn explain_chain_is_complete() {
    let mut e = Munou::new(Params::default(), 4);
    let r = e.respond("説明可能性のテスト");
    assert_eq!(r.trace.input, "説明可能性のテスト");
    assert!(!r.trace.morphemes.is_empty());
    assert!(!r.trace.chunks.is_empty());
    assert!(!r.trace.candidates.is_empty());
    assert!(r.trace.candidates.iter().any(|c| c.chosen));
    assert!(r.trace.elapsed_us > 0);
}

#[test]
fn jsonl_log_is_source_of_truth() {
    let mut e = Munou::new(Params::default(), 5);
    e.respond("第一声");
    e.respond("第二声");
    assert_eq!(e.recs.len(), 4, "user+bot × 2 turns");
    for r in &e.recs {
        assert_eq!(r.v, 1);
        assert!(r.text.chars().count() > 0);
    }
    assert_eq!(e.reopen().stats().utterances, 4);
}

#[test]
fn kn_smoothing_responds() {
    let mut e = Munou::new(Params { smoothing: SmoothingKind::Kn, ..Params::default() }, 8);
    assert!(!e.respond("ナイーブではない平滑化").text.is_empty());
}

#[test]
fn user_chunks_enter_generation_context() {
    let mut e = Munou::new(Params::default(), 2);
    let r = e.respond("これは文脈に入るはず");
    if r.trace.path == PathKind::Markov && !r.trace.steps.is_empty() {
        assert!(
            r.trace.steps[0].ctx_len_requested >= r.trace.chunks.len(),
            "requested={} chunks={}",
            r.trace.steps[0].ctx_len_requested,
            r.trace.chunks.len()
        );
    }
}

#[test]
fn seed_log_grows_corpus_and_diverts_empty() {
    let params = Params { p_slip: b64(0.0), ..Params::default() };
    let mut empty = Munou::new(params, 1);
    let empty_st = empty.stats();
    let mut grown = Munou::open(params, 1, fabricated(25, 1));
    grown.teach(&[("おはよう", &["おはよ"])]);
    let grown_st = grown.stats();
    assert_eq!(grown_st.utterances, 50);
    assert!(
        grown_st.tokens > empty_st.tokens && grown_st.tokens >= 40,
        "tokens empty={} seed={}",
        empty_st.tokens,
        grown_st.tokens
    );
    assert!(
        grown_st.vocab > empty_st.vocab,
        "vocab empty={} seed={}",
        empty_st.vocab,
        grown_st.vocab
    );
    let prompts = ["散歩しない？", "コーヒー飲む？", "猫みて", "ゲームしない？"];
    let mut differ = 0;
    for p in prompts {
        if empty.respond(p).text != grown.respond(p).text {
            differ += 1;
        }
    }
    assert!(differ >= 1, "seeded engine should not parrot like empty; differ={differ}");
    let hi = grown.respond("おはよう");
    assert_eq!(hi.trace.path, PathKind::Trigger);
    let walk = grown.respond("散歩しない？");
    let tags: BTreeSet<&str> = sources(&walk).iter().map(|s| s.tag()).collect();
    assert!(tags.len() >= 2, "hybrid pool should mix sources; got {tags:?}");
    let ood = grown.respond("量子力学の話をしよう");
    assert_ne!(
        ood.trace.path,
        PathKind::Trigger,
        "unknown topics must not fall into the greeting dict"
    );
}

#[test]
fn p_learn_zero_skips_corpus() {
    let params = Params { p_learn: b64(0.0), p_slip: b64(0.0), ..Params::default() };
    let mut e = Munou::new(params, 1);
    let r = e.respond("ありがとう");
    assert!(!r.trace.learned);
    e.respond("まだ覚えなくていい");
    let st = e.stats();
    assert_eq!(st.tokens, 0);
    assert_eq!(st.learned, 0);
    assert!(st.utterances >= 4);
}

#[test]
fn p_learn_one_absorbs_and_reopens() {
    let mut e = Munou::new(eager(), 4);
    let r = e.respond("hello kitty");
    assert!(r.trace.learned);
    assert!(e.stats().tokens > 0);
    assert_eq!(e.stats().learned, e.stats().utterances);
    let e2 = e.reopen();
    assert!(e2.stats().tokens > 0);
    assert_eq!(e2.stats().learned, e2.stats().utterances);
}

#[test]
fn p_learn_skip_survives_reopen() {
    let mut e = Munou::new(Params { p_learn: b64(0.0), ..Params::default() }, 4);
    e.respond("残るけど覚えない");
    assert!(e.recs.iter().all(|r| !r.learned), "live skip must be written to the log");
    let e2 = e.reopen();
    assert_eq!(e2.stats().tokens, 0);
    assert_eq!(e2.stats().learned, 0);
    assert!(e2.stats().utterances >= 2);
}

#[test]
fn observe_learn_ticks_and_path_survives_reopen() {
    let mut e = Munou::new(eager(), 4);
    assert_eq!(e.host.engine.digest.learned, 0);
    let r = e.respond("hello kitty");
    assert!(r.trace.learned);
    assert!(e.host.engine.digest.learned >= 2);
    assert!(e.host.engine.digest.path_known >= 1);
    assert_eq!(e.host.engine.last_path, Some(r.trace.path));
    assert!(e.recs[1].path.is_some(), "bot path must be written");
    let e2 = e.reopen();
    assert_eq!(e2.host.engine.last_path, Some(r.trace.path));
    assert_eq!(e2.host.engine.digest.paths, e.host.engine.digest.paths);
}

/// A reopened memory is the live one: corpus, pairs, replies, ledger and bank.
#[test]
fn reopened_memory_equals_the_live_one() {
    let mut e = Munou::new(eager(), 31);
    for line in ["はい", "うん、散歩しよう", "おお", "コーヒー飲む？", "はい"] {
        e.respond(line);
    }
    let e2 = e.reopen();
    let (a, b) = (&e.host.engine.memory, &e2.host.engine.memory);
    assert_eq!(a.bots.items.iter().map(|x| &x.text).collect::<Vec<_>>(), b.bots.items.iter().map(|x| &x.text).collect::<Vec<_>>());
    assert_eq!(a.recent_bot, b.recent_bot);
    assert_eq!(a.interjects.entries(), b.interjects.entries());
    assert_eq!(e.host.engine.digest.learned, e2.host.engine.digest.learned);
    assert_eq!(e.host.engine.eval.n, e2.host.engine.eval.n);
    assert_eq!(e.host.engine.eval.band_hits, e2.host.engine.eval.band_hits);
    assert_eq!(e.host.engine.rng.pos, e2.host.engine.rng.pos);
}

/// A retokenized engine holds the whole log, and stays the same when retokenized again.
#[test]
fn retokenize_again_changes_nothing() {
    let mut e = Munou::open(eager(), 4, fabricated(40, 2));
    e.respond("散歩しない？");
    let recs = e.recs.clone();
    e.host.retokenize(&recs);
    let once = (e.host.engine.memory.store.text.clone(), e.stats().vocab, e.stats().hist);
    e.host.retokenize(&recs);
    assert_eq!(once, (e.host.engine.memory.store.text.clone(), e.stats().vocab, e.stats().hist));
    assert_eq!(once.0, e.reopen().host.engine.memory.store.text);
}

#[test]
fn eval_counts_every_turn() {
    let mut e = Munou::new(eager(), 4);
    assert_eq!(e.host.eval_summary(), "eval: no turns yet");
    e.respond("こんにちは");
    e.respond("散歩しよう");
    assert_eq!(e.host.engine.eval.n, 2);
    assert!(e.host.eval_summary().starts_with("eval n=2  band[0.25,0.85]="));
    assert_eq!(e.reopen().host.eval_summary(), e.host.eval_summary());
}

#[test]
fn traces_name_route_weather_and_candidates() {
    let mut e = Munou::new(eager(), 4);
    e.respond("こんにちは");
    let r = e.respond("散歩しよう");
    let shown = r.trace.explain_text(&trace_numbers(&r.trace));
    assert!(shown.contains("route g[trig="), "{shown}");
    assert!(shown.contains("日和 "), "{shown}");
    assert!(shown.contains(" > #1"), "{shown}");
    let compact = r.trace.explain_compact(&trace_numbers(&r.trace));
    assert!(compact.starts_with(&format!("path={:?} learned=true sim=", r.trace.path)), "{compact}");
}

#[test]
fn alias_matches_weights_roughly() {
    let w = [1.0, 2.0, 3.0, 4.0];
    let table = alias_table(&w);
    let mut rng = Stream::new(7);
    let mut hist = [0u32; 4];
    let n = 40_000u32;
    for _ in 0..n {
        hist[table.sample(&mut rng)] += 1;
    }
    let total: f64 = w.iter().sum();
    for i in 0..4 {
        let got = hist[i] as f64 / n as f64;
        let exp = w[i] / total;
        assert!((got - exp).abs() < 0.02, "i={i} got={got} exp={exp}");
    }
}

#[test]
fn longest_match_continues_observed_ngram() {
    let mut store = Store::new(32);
    let (a, b, c) = (20, 21, 22);
    for _ in 0..8 {
        store.push_utterance(&[a, b, c]);
    }
    store.merge();
    let params =
        Params { f_min: 3, l_max: 8, max_gen_len: 1, tau_gen: b64(1.0), ..Params::default() };
    let base = Base::of(&store, &params);
    let mut rng = Stream::new(1);
    let mut hit = 0;
    for _ in 0..40 {
        let g = generate_one(&store, &base, &params, 1, &vec![a, b], &vec![], &mut rng);
        if g.0.first() == Some(&c) {
            hit += 1;
        }
    }
    assert!(hit >= 36, "expected continuation 黄 after 赤青; hit={hit}/40");
    let g = generate_one(&store, &base, &params, 1, &vec![a, b], &vec![], &mut rng);
    assert!(!g.1.is_empty());
    assert!(g.1[0].ctx_len_used >= 2);
    assert!(g.1[0].freq >= 3);
}

/// Sampling follows the distribution: explicit support and tail.
#[test]
fn sparse_sample_follows_distribution() {
    let mut store = Store::new(64);
    for _ in 0..30 {
        store.push_utterance(&[20, 21]);
    }
    for _ in 0..10 {
        store.push_utterance(&[20, 22]);
    }
    for i in 0..40u32 {
        store.push_utterance(&[30 + i, 30 + ((i + 1) % 40)]);
    }
    store.merge();
    let params = Params { f_min: 3, l_max: 8, ..Params::default() };
    let base = Base::of(&store, &params);
    let dist = SparseDist::built(&generate::evidence(&store, &params, &vec![20]), &params, &base);
    let z = dist.explicit_mass() + dist.tail_mass(&base);
    let mut rng = Stream::new(11);
    let n = 60_000usize;
    let mut hist: HashMap<TokenId, u32> = HashMap::new();
    for _ in 0..n {
        let (id, _) = dist.sample(&base, &mut rng).expect("non-empty");
        *hist.entry(id).or_insert(0) += 1;
    }
    for &id in &base.ids {
        let p = dist.current(&base, id).max(0.0) / z;
        if p < 0.01 {
            continue;
        }
        let got = hist.get(&id).copied().unwrap_or(0) as f64 / n as f64;
        let sigma = (p * (1.0 - p) / n as f64).sqrt();
        assert!((got - p).abs() <= 5.0 * sigma + 1e-4, "id={id} p={p} got={got}");
    }
}

fn gates_and_plan(p: &Params, tokens: usize, bots: usize, retr: f32, trig: f32) -> RoutePlan {
    let g = gates(p, tokens, bots, retr, trig);
    route::plan(p, tokens, bots, g.n_retrieve, g.n_cand)
}

#[test]
fn empty_store_skips_markov_capacity() {
    let p = Params::default();
    let r = gates_and_plan(&p, 0, 0, 0.0, 0.0);
    assert_eq!(r.n_cand, 0);
    assert_eq!(r.n_retrieve, 0);
    assert!(r.run_echo);
}

#[test]
fn high_retrieve_sim_allocates_retrieve_slots() {
    let p = Params::default();
    let cold = gates_and_plan(&p, 100, 20, 0.05, 0.0);
    let hot = gates_and_plan(&p, 100, 20, 0.9, 0.0);
    assert!(hot.n_retrieve >= cold.n_retrieve);
    assert!(hot.n_retrieve >= 1);
    assert!(hot.n_cand >= 1);
}

/// Slow and direct: retain every occurrence and recompute redundancy from all previous picks.
fn reference(
    bots: &BotStore,
    pool: &mut Pool,
    input: &str,
    topic: &[f32],
    n: usize,
    lambda: f32,
    cap: usize,
) {
    let mut picked: Vec<usize> = Vec::new();
    for _ in 0..n {
        let mut best = None;
        let mut best_score = f32::NEG_INFINITY;
        let start = munou::retrieve::scan_start(bots.len(), cap);
        for (i, b) in bots.items.iter().enumerate().skip(start) {
            if b.text == input || picked.contains(&i) || pool.items.iter().any(|p| p.text == b.text) {
                continue;
            }
            let redundancy = picked
                .iter()
                .map(|&j| cosine(&unit(&b.bins), &unit(&bots.items[j].bins)))
                .fold(0.0f32, f32::max);
            let score = lambda * cosine(topic, &unit(&b.bins)) - (1.0 - lambda) * redundancy;
            if score > best_score {
                best_score = score;
                best = Some(i);
            }
        }
        let Some(i) = best else { break };
        picked.push(i);
        let b = &bots.items[i];
        pool.push(PathKind::Retrieve, b.text.clone(), b.toks.clone());
    }
}

#[test]
fn mmr_matches_reference_across_duplicate_and_scan_boundaries() {
    let embedder = HashEmbedder::new(64);
    for cap in [0, 1, 7] {
        for lambda in [0.0f32, 0.75, 1.0] {
            for n in [0, 1, 4, 20] {
                let mut m = Munou::new(
                    Params {
                        embed_dim: 64,
                        mmr_lambda: b32(lambda),
                        n_retrieve_scan: cap,
                        ..Params::default()
                    },
                    1,
                );
                let e = &mut m.host.engine;
                for (i, text) in [
                    "猫かわいい",
                    "散歩しよう",
                    "",
                    "猫かわいい",
                    "コーヒー飲もう",
                    " ",
                    "猫かわいい",
                    "",
                    "散歩しよう",
                    "ゲームしよう",
                ]
                .iter()
                .enumerate()
                {
                    e.memory.bots.push_raw((*text).into(), vec![i as TokenId + 10]);
                }
                e.memory.bots.finish(&embedder, 0);
                let topic = embed(&embedder, "猫と散歩");
                let mut actual = Pool::new();
                let mut expected = Pool::new();
                for pool in [&mut actual, &mut expected] {
                    pool.push(PathKind::Trigger, "コーヒー飲もう".into(), vec![99]);
                }
                propose_retrieved(e, &mut actual, "ゲームしよう", &topic, n);
                reference(&e.memory.bots, &mut expected, "ゲームしよう", &topic, n, lambda, cap);
                let proposals = |pool: &Pool| {
                    pool.items
                        .iter()
                        .map(|p| (p.source, p.text.clone(), p.tokens.clone()))
                        .collect::<Vec<_>>()
                };
                assert_eq!(
                    proposals(&actual),
                    proposals(&expected),
                    "cap={cap} lambda={lambda} n={n}"
                );
            }
        }
    }
}

fn pick(
    topic: Result<&str, f32>,
    cands: &[(&str, Vec<TokenId>, PathKind)],
    input_tokens: &[TokenId],
    recent: Vec<String>,
    trigger_match: f32,
    params: Params,
    seed: u64,
) -> select::Ranked {
    let e = HashEmbedder::new(64);
    let texts: Vec<String> = cands.iter().map(|c| c.0.to_string()).collect();
    let tokens: Vec<Vec<TokenId>> = cands.iter().map(|c| c.1.clone()).collect();
    let sources: Vec<PathKind> = cands.iter().map(|c| c.2).collect();
    let surprises = vec![None; cands.len()];
    let mut topic_scores = Vec::new();
    let mut scores = Vec::new();
    for (text, toks, source) in cands {
        let t = match topic {
            Ok(topic) => cosine(&embed(&e, topic), &embed(&e, text)),
            Err(given) => given,
        };
        let c = Scored { text, tokens: toks, source: *source, surprise: None, bonus: 0.0 };
        topic_scores.push(t.to_bits());
        scores.push(
            candidate_score(&params, &c, t, input_tokens, &recent, trigger_match, &[0.0; 5])
                .to_bits(),
        );
    }
    let table = AliasTable::level();
    select::rank_and_pick(
        &RankInput {
            texts: &texts,
            tokens: &tokens,
            sources: &sources,
            surprises: &surprises,
            topic_scores: &topic_scores,
            scores: &scores,
        },
        params.p_slip,
        &table,
        &mut Stream::new(seed),
    )
}

#[test]
fn top_rank_without_slip() {
    let r = pick(
        Ok("天気は晴れ"),
        &[
            ("今日は晴れだね", vec![1], PathKind::Markov),
            ("xml hashing", vec![2], PathKind::Markov),
        ],
        &[],
        vec![],
        0.0,
        Params { p_slip: b64(0.0), rote_penalty: b32(0.0), ..Params::default() },
        1,
    );
    assert!(!r.slipped);
    assert_eq!(r.traces[0].text, "今日は晴れだね");
}

#[test]
fn echo_loses_to_on_topic_despite_copying_input() {
    let r = pick(
        Ok("おはよう"),
        &[
            ("おはよう", vec![7, 8], PathKind::Echo),
            ("おはよ・テスト応答", vec![9], PathKind::Trigger),
        ],
        &[7, 8],
        vec![],
        1.0,
        Params { p_slip: b64(0.0), ..Params::default() },
        1,
    );
    assert_eq!(r.traces.iter().find(|c| c.chosen).unwrap().source, PathKind::Trigger);
}

/// A candidate identical to a recent own reply loses to a fresh one of equal topic score.
#[test]
fn repeating_own_recent_reply_loses_at_equal_topic() {
    let r = pick(
        Err(0.3),
        &[
            ("散歩しよう", vec![21], PathKind::Markov),
            ("公園まで歩こうか", vec![22, 23], PathKind::Markov),
        ],
        &[],
        vec!["散歩しよう".into()],
        0.0,
        Params { p_slip: b64(0.0), ..Params::default() },
        2,
    );
    let chosen = r.traces.iter().find(|c| c.chosen).unwrap();
    assert_eq!(
        chosen.text, "公園まで歩こうか",
        "exact repeat of a recent reply must not win"
    );
}

#[test]
fn heat_halves_after_half_life() {
    let mut intern = munou::intern::Interner::new();
    for i in 0..100 {
        intern.intern(&format!("語{i}"));
    }
    let mut l = InterestLedger::new();
    let mut w = Warmth::default();
    w.feed(&[l.learn(&vec![70], &intern)]);
    let s0 = w.score(&l, 70, 1).unwrap();
    w.feed(&[l.learn(&vec![80; 300], &intern)]);
    let s1 = w.score(&l, 70, 1).unwrap();
    assert!(s1 < s0, "interest must decay: {s0} -> {s1}");
    assert!(s1 > s0 * 0.3, "root must survive the fast half-life");
}

#[test]
fn an_ephemeral_engine_has_heard_nothing() {
    let e = Engine::ephemeral(eager(), 12);
    assert_eq!(e.seed(), 12);
    assert_eq!(e.params().l_max, 8);
    assert_eq!(e.rng.pos, 0);
    assert!(e.memory.store.is_empty() && e.triggers.is_empty());
    assert_eq!(report::stats(&e).utterances, 0);
    assert_eq!(HashEmbedder::from_params(e.params()).dim, 256);
}

/// Preferences change the prior of a reopened engine, and nothing of its memory.
#[test]
fn preferences_stay_out_of_the_memory() {
    let mut e = Munou::new(eager(), 6);
    e.respond("散歩しよう");
    let before = e.reopen();
    e.feedback(false);
    e.feedback(true);
    e.feedback(true);
    let after = e.reopen();
    let (a, b) = (&before.host.engine, &after.host.engine);
    assert_eq!(a.memory.store.text, b.memory.store.text);
    assert_eq!(a.memory.history, b.memory.history);
    assert_eq!(a.tokenizer.model.total_chars, b.tokenizer.model.total_chars);
    assert_eq!(a.rng.pos, b.rng.pos);
    assert_eq!(a.eval.n, b.eval.n);
    assert_eq!((a.digest.meta, b.digest.meta), (0, 3));
    assert_ne!(before.host.prior, after.host.prior);
}

/// A pool without a proposal is answered with an ellipsis, which is not absorbed.
#[test]
fn an_empty_pool_is_answered_with_an_ellipsis() {
    let mut m = Munou::new(eager(), 6);
    let e = &mut m.host.engine;
    let sky = turn::sky(&e.params, &e.digest, e.seed);
    let begun = turn::begin(
        &mut e.memory,
        &e.params,
        &e.embedder,
        &e.tokenizer,
        &mut e.rng,
        e.seed,
        &sky,
        " ",
        &vec![],
        0,
    );
    let w = Weights {
        topic_scores: vec![],
        scores: vec![],
        slip_table: AliasTable::level(),
        p_slip: b64(1.0),
        p_interject: 0,
        silent_score: b32(0.25),
    };
    let notes = Notes {
        trigger: None,
        steps: vec![],
        route: None,
        path_prior: [0; 5],
        weather: None,
        elapsed_us: 1,
    };
    let a = respond::answer(&e.memory, &e.params, &mut e.rng, e.seed, &begun, &Pool::new(), &w, notes, 7);
    assert_eq!(a.rec_bot.text, "…");
    assert_eq!(a.rec_bot.path, Some(PathKind::Markov));
    assert_eq!((a.rec_user.learned, a.rec_bot.learned, a.trace.learned), (false, false, false));
    assert_eq!(a.trace.similarity, b32(0.25));
    assert!(a.trace.band_hit && !a.trace.slipped);
    assert_eq!(a.rec_bot.saved_rng_word_pos(), Some(e.rng.pos));
}

#[test]
fn mkn_discounts_increase_with_count_bin() {
    let mut s = Store::new(32);
    for i in 0..40u32 {
        s.push_utterance(&[100, 200 + i]);
    }
    for _ in 0..8 {
        s.push_utterance(&[10, 11]);
    }
    for _ in 0..3 {
        s.push_utterance(&[12, 13]);
    }
    for _ in 0..2 {
        s.push_utterance(&[14, 15]);
    }
    s.merge();
    let (n1, n2, n3, n4) = s.bigram_count_of_counts();
    assert!(n1 > 0 && n2 > 0, "n1={n1} n2={n2} n3={n3} n4={n4}");
    let (d1, d2, d3) = discounts((n1, n2, n3, n4), 0.75);
    assert!((0.05..=0.95).contains(&d1), "d1={d1}");
    assert!((0.05..=1.95).contains(&d2), "d2={d2}");
    assert!((0.05..=2.95).contains(&d3), "d3={d3}");
}

#[test]
fn score_is_bounded() {
    let mut intern = munou::intern::Interner::new();
    for i in 0..100 {
        intern.intern(&format!("語{i}"));
    }
    let mut l = InterestLedger::new();
    let mut w = Warmth::default();
    for _ in 0..200 {
        w.feed(&[l.learn(&vec![70], &intern)]);
    }
    let s = w.score(&l, 70, 1).unwrap();
    assert!((0.0..=1.0).contains(&s), "score out of range: {s}");
}
