//! Tunable knobs.
//!
//! Fields that are floating-point numbers hold their IEEE 754 bit patterns: 64 bits for
//! probabilities, temperatures and mixture weights, 32 bits for what is added to scores.
use crate::bits;
use vstd::prelude::*;

verus! {

#[derive(Debug, Clone, Copy, PartialEq, Eq, Structural)]
pub enum SmoothingKind {
    Naive,
    Kn,
}

/// Candidate mixing. `Pool` is the intended architecture; `Exclusive` is the older either-or.
#[derive(Debug, Clone, Copy, PartialEq, Eq, Structural)]
pub enum MixMode {
    /// Trigger hit replaces the pool; otherwise Markov (+ silent parrot fallback).
    Exclusive,
    /// Trigger, Markov, retrieve, and echo all propose; the selector picks.
    Pool,
}

#[derive(Debug, Clone, Copy)]
pub struct Params {
    /// Markov candidate count `N_cand`.
    pub n_cand: usize,
    /// Generation temperature `τ_gen`.
    pub tau_gen: u64,
    /// Longest-match context cap `L_max` (chunks).
    pub l_max: usize,
    /// Backoff frequency threshold `f_min`.
    pub f_min: u32,
    /// Topic moving-average window `k_topic`.
    pub k_topic: usize,
    /// Trigger cosine threshold `θ_trig` — kept intentionally loose.
    pub theta_trig: u32,
    /// Slip injection rate `p_slip`.
    pub p_slip: u64,
    /// Probability of absorbing a live turn into the corpus (`p_learn`).
    /// The JSONL log always appends; this only gates tokenizer / SA / retrieve.
    pub p_learn: u64,
    /// Hard cap on generated chunks.
    pub max_gen_len: usize,
    /// Generation-buffer size (tokens) that triggers a full SA rebuild.
    pub merge_threshold: usize,
    /// Character n-gram order for branching-entropy training.
    pub entropy_n: usize,
    /// Minimum entropy/AV score to cut inside a script run.
    pub entropy_cut: u64,
    /// Target morphemes per statistical chunk.
    pub chunk_morphs: usize,
    /// Embedding dimension for the closed hash embedder.
    pub embed_dim: usize,
    /// Similarity band `[a, b]`. Eval metric and selector hinge.
    pub band_lo: u32,
    pub band_hi: u32,
    /// Hinge weight for sim outside the band. 0 restores pure cosine max.
    pub band_penalty: u32,
    /// Boltzmann temperature for p_slip sampling of ranks ≥ 2.
    pub tau_slip: u64,
    /// Smoothing: `"naive"` (Witten-Bell) or `"kn"` (modified Kneser-Ney).
    pub smoothing: SmoothingKind,
    /// Fallback absolute discount when bigram n1/n2 are too small. 0 disables MKN discounts.
    pub kn_discount: u64,
    /// Mix weight for a gapped (skip-gram) context. Applied only when the contiguous match is sparse.
    pub lambda_skip: u64,
    /// Mix weight for a recency unigram cache (Kuhn & De Mori analog). Sparse contexts only.
    pub lambda_cache: u64,
    /// PPM-C exclusion on Witten-Bell interpolation. Modified KN already excludes.
    pub ppm_exclude: bool,
    /// How candidate sources are combined.
    pub mix: MixMode,
    /// Max retrieved past bot utterances in the pool.
    pub n_retrieve: usize,
    /// How many recent bot utterances to scan for retrieve / route sim.
    /// 0 = scan all. Default keeps seed-scale logs unchanged and caps huge logs.
    pub n_retrieve_scan: usize,
    /// Echo proposals: 1 = exact user text, 2+ adds a mild shuffle.
    pub n_echo: usize,
    /// Subtracted from topic cosine when the source is Echo.
    pub echo_penalty: u32,
    /// Subtracted × (token longest-common-substring with the *input* / len).
    pub rote_penalty: u32,
    /// Subtracted × (longest run shared with a recent *own* reply / len).
    /// Breaks the retrieve→absorb→retrieve lock-in loop; the input-side
    /// rote penalty never saw the bot's own repetition.
    pub self_penalty: u32,
    /// How many recent bot replies the self-repetition penalty looks at.
    pub self_window: usize,
    /// Added to topic cosine when the source is Trigger.
    pub trigger_bonus: u32,
    /// Extra Trigger score × pattern-input cosine (strong hits beat retrieve).
    pub trigger_match_weight: u32,
    /// Subtracted when the source is Retrieve (slightly prefer recombination).
    pub retrieve_penalty: u32,
    /// Subtracted when the source is Adapt (modified copy sits between
    /// Markov recombination and Retrieve verbatim).
    pub adapt_penalty: u32,
    /// Max Adapt proposals: 1 = adapted reply, 2 = + a quoted past user line.
    pub n_adapt: usize,
    /// Keyword-anchored bidirectional generation (MegaHAL analog) on a
    /// reversed-stream twin store. Costs a second SA (memory and merge time
    /// roughly double on the store side).
    pub bidir: bool,
    /// Experimental selection term: score += weight × mean −ln p of the
    /// candidate's generation steps. 0 = record surprise in /why only.
    pub surprise_weight: u32,
    /// MMR λ for retrieve: λ·sim − (1−λ)·max redundancy. 1 = top-k cosine.
    pub mmr_lambda: u32,
    /// Nucleus mass `p`. 1 = keep the full distribution.
    pub p_nucleus: u64,
    /// Decode top-k. 0 = off.
    pub k_top: usize,
    /// `/good` `/bad` step on the last path prior.
    pub pref_step: u32,
    /// Clamp on each path prior.
    pub pref_clip: u32,
    /// 日和: deterministic per-day modulation of slip / 合いの手 / 口をつく,
    /// derived from (seed, day of the previous log record). Off = なぎ every day.
    pub weather: bool,
    /// 合いの手 base probability per reply (weather-scaled). 0 disables.
    pub interject_rate: u64,
    /// 関心 selection term: score += weight × max chunk interest. 0 disables.
    pub interest_weight: u32,
    /// Bonus for candidates containing the day's 気になる語 (weather-scaled).
    pub care_bonus: u32,
    /// 聞きかじり threshold: chunks in fewer distinct learned utterances carry
    /// no interest and are skipped as anchors.
    pub hearsay_min: u32,
    /// 口をつく: per-turn probability that hearsay chunks may anchor anyway.
    pub hearsay_release: u64,
}

/// The knobs as they are shipped.
pub open spec fn shipped() -> Params {
    Params {
        n_cand: 10,
        tau_gen: 0x3ff0_0000_0000_0000,
        l_max: 8,
        f_min: 3,
        k_topic: 5,
        theta_trig: 0x3ed7_0a3d,
        p_slip: 0x3fc3_3333_3333_3333,
        p_learn: 0x3fd6_6666_6666_6666,
        max_gen_len: 24,
        merge_threshold: 4096,
        entropy_n: 5,
        entropy_cut: 0x3fe9_9999_9999_999a,
        chunk_morphs: 3,
        embed_dim: 256,
        band_lo: 0x3e80_0000,
        band_hi: 0x3f59_999a,
        band_penalty: 0x3f00_0000,
        tau_slip: 0x3fdc_cccc_cccc_cccd,
        smoothing: SmoothingKind::Naive,
        kn_discount: 0x3fe8_0000_0000_0000,
        lambda_skip: 0x3fbe_b851_eb85_1eb8,
        lambda_cache: 0x3fb9_9999_9999_999a,
        ppm_exclude: false,
        mix: MixMode::Pool,
        n_retrieve: 4,
        n_retrieve_scan: 1024,
        n_echo: 1,
        echo_penalty: 0x3e80_0000,
        rote_penalty: 0x3f00_0000,
        self_penalty: 0x3f19_999a,
        self_window: 8,
        trigger_bonus: 0x3dcc_cccd,
        trigger_match_weight: 0x3f80_0000,
        retrieve_penalty: 0x3e4c_cccd,
        adapt_penalty: 0x3dcc_cccd,
        n_adapt: 2,
        bidir: true,
        surprise_weight: 0x0000_0000,
        mmr_lambda: 0x3f40_0000,
        p_nucleus: 0x3ff0_0000_0000_0000,
        k_top: 0,
        pref_step: 0x3da3_d70a,
        pref_clip: 0x3eb3_3333,
        weather: true,
        interject_rate: 0x3fd3_3333_3333_3333,
        interest_weight: 0x3da3_d70a,
        care_bonus: 0x3d4c_cccd,
        hearsay_min: 2,
        hearsay_release: 0x3fc3_3333_3333_3333,
    }
}

impl Default for Params {
    fn default() -> (r: Self)
        ensures
            r == shipped(),
    {
        Params {
            n_cand: 10,
            tau_gen: 0x3ff0_0000_0000_0000,
            l_max: 8,
            f_min: 3,
            k_topic: 5,
            theta_trig: 0x3ed7_0a3d,
            p_slip: 0x3fc3_3333_3333_3333,
            p_learn: 0x3fd6_6666_6666_6666,
            max_gen_len: 24,
            merge_threshold: 4096,
            entropy_n: 5,
            entropy_cut: 0x3fe9_9999_9999_999a,
            chunk_morphs: 3,
            embed_dim: 256,
            band_lo: 0x3e80_0000,
            band_hi: 0x3f59_999a,
            band_penalty: 0x3f00_0000,
            tau_slip: 0x3fdc_cccc_cccc_cccd,
            smoothing: SmoothingKind::Naive,
            kn_discount: 0x3fe8_0000_0000_0000,
            lambda_skip: 0x3fbe_b851_eb85_1eb8,
            lambda_cache: 0x3fb9_9999_9999_999a,
            ppm_exclude: false,
            mix: MixMode::Pool,
            n_retrieve: 4,
            n_retrieve_scan: 1024,
            n_echo: 1,
            echo_penalty: 0x3e80_0000,
            rote_penalty: 0x3f00_0000,
            self_penalty: 0x3f19_999a,
            self_window: 8,
            trigger_bonus: 0x3dcc_cccd,
            trigger_match_weight: 0x3f80_0000,
            retrieve_penalty: 0x3e4c_cccd,
            adapt_penalty: 0x3dcc_cccd,
            n_adapt: 2,
            bidir: true,
            surprise_weight: 0x0000_0000,
            mmr_lambda: 0x3f40_0000,
            p_nucleus: 0x3ff0_0000_0000_0000,
            k_top: 0,
            pref_step: 0x3da3_d70a,
            pref_clip: 0x3eb3_3333,
            weather: true,
            interject_rate: 0x3fd3_3333_3333_3333,
            interest_weight: 0x3da3_d70a,
            care_bonus: 0x3d4c_cccd,
            hearsay_min: 2,
            hearsay_release: 0x3fc3_3333_3333_3333,
        }
    }
}

impl Params {
    /// Effective context cap: `l_max` as given, minimum 1.
    pub open spec fn context_cap(&self) -> usize {
        if self.l_max == 0 {
            1
        } else {
            self.l_max
        }
    }

    /// Effective context cap: `l_max` as given, minimum 1.
    pub fn l_max_capped(&self) -> (r: usize)
        ensures
            r == self.context_cap(),
    {
        if self.l_max == 0 {
            1
        } else {
            self.l_max
        }
    }
}

/// A context holds one token at least, and else what was asked for.
pub proof fn law_contexts_hold_a_token(p: Params)
    ensures
        p.context_cap() >= 1,
        p.l_max >= 1 ==> p.context_cap() == p.l_max,
{
}

/// The knobs are shipped at round numbers: each floating-point one is the number of its
/// precision that is closest to so many hundredths.
pub proof fn law_knobs_are_shipped_at_round_numbers()
    ensures
        ({
            let p = shipped();
            &&& bits::closest64(p.tau_gen, 100, 100)
            &&& bits::closest64(p.p_slip, 15, 100)
            &&& bits::closest64(p.p_learn, 35, 100)
            &&& bits::closest64(p.entropy_cut, 80, 100)
            &&& bits::closest64(p.tau_slip, 45, 100)
            &&& bits::closest64(p.kn_discount, 75, 100)
            &&& bits::closest64(p.lambda_skip, 12, 100)
            &&& bits::closest64(p.lambda_cache, 10, 100)
            &&& bits::closest64(p.p_nucleus, 100, 100)
            &&& bits::closest64(p.interject_rate, 30, 100)
            &&& bits::closest64(p.hearsay_release, 15, 100)
            &&& bits::closest32(p.theta_trig, 42, 100)
            &&& bits::closest32(p.band_lo, 25, 100)
            &&& bits::closest32(p.band_hi, 85, 100)
            &&& bits::closest32(p.band_penalty, 50, 100)
            &&& bits::closest32(p.echo_penalty, 25, 100)
            &&& bits::closest32(p.rote_penalty, 50, 100)
            &&& bits::closest32(p.self_penalty, 60, 100)
            &&& bits::closest32(p.trigger_bonus, 10, 100)
            &&& bits::closest32(p.trigger_match_weight, 100, 100)
            &&& bits::closest32(p.retrieve_penalty, 20, 100)
            &&& bits::closest32(p.adapt_penalty, 10, 100)
            &&& bits::closest32(p.mmr_lambda, 75, 100)
            &&& bits::closest32(p.pref_step, 8, 100)
            &&& bits::closest32(p.pref_clip, 35, 100)
            &&& bits::closest32(p.interest_weight, 8, 100)
            &&& bits::closest32(p.care_bonus, 5, 100)
            &&& p.n_cand == 10
            &&& p.l_max == 8
            &&& p.f_min == 3
            &&& p.k_topic == 5
            &&& p.max_gen_len == 24
            &&& p.merge_threshold == 4096
            &&& p.entropy_n == 5
            &&& p.chunk_morphs == 3
            &&& p.embed_dim == 256
            &&& p.n_retrieve == 4
            &&& p.n_retrieve_scan == 1024
            &&& p.n_echo == 1
            &&& p.self_window == 8
            &&& p.n_adapt == 2
            &&& p.k_top == 0
            &&& p.hearsay_min == 2
            &&& p.surprise_weight == 0
            &&& p.mix is Pool && p.smoothing is Naive && p.bidir && p.weather && !p.ppm_exclude
        }),
{
    vstd::arithmetic::power2::lemma2_to64();
    vstd::arithmetic::power2::lemma2_to64_rest();
}

} // verus!
