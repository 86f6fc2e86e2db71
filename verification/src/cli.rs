//! What the command line decides: knobs from flags, chat commands, probe tallies and check
//! verdicts. Printing and timing are the host's.
use crate::bits;
use crate::explain::GenStep;
use crate::explain::PathKind;
use crate::params;
use crate::params::MixMode;
use crate::params::Params;
use crate::params::SmoothingKind;
use crate::report::Stats;
use crate::sort;
use crate::text;
use vstd::prelude::*;

verus! {

/// Bits of 0.001 in 64-bit precision.
pub const MILLI_64: u64 = 0x3f50_624d_d2f1_a9fc;

/// Flags that change a knob. Numbers with a fraction come as bit patterns.
#[derive(Debug)]
pub struct Overrides {
    pub n_cand: Option<usize>,
    pub p_slip: Option<u64>,
    pub p_learn: Option<u64>,
    pub tau: Option<u64>,
    pub tau_slip: Option<u64>,
    pub band_penalty: Option<u32>,
    pub self_penalty: Option<u32>,
    pub no_bidir: bool,
    pub n_adapt: Option<usize>,
    pub surprise_weight: Option<u32>,
    pub smoothing: Option<String>,
    pub lambda_skip: Option<u64>,
    pub lambda_cache: Option<u64>,
    pub ppm: bool,
    pub mix: Option<String>,
    pub mmr: Option<u32>,
    pub p_nucleus: Option<u64>,
    pub k_top: Option<usize>,
    pub retrieve_scan: Option<usize>,
    pub no_weather: bool,
    pub interject_rate: Option<u64>,
    pub interest_weight: Option<u32>,
}

/// A probability from a flag: held to [0, 1]. A NaN stays one.
pub open spec fn unit_or(o: Option<u64>, d: u64) -> u64 {
    match o {
        Some(b) => if bits::nan64(b) {
            b
        } else {
            bits::clamped(b)
        },
        None => d,
    }
}

fn unit(o: Option<u64>, d: u64) -> (r: u64)
    ensures
        r == unit_or(o, d),
{
    match o {
        Some(b) => if bits::is_nan64(b) {
            b
        } else {
            bits::clamp_unit(b)
        },
        None => d,
    }
}

/// A temperature from a flag: at least 0.001, as for a NaN.
pub open spec fn tau_or(o: Option<u64>, d: u64) -> u64 {
    match o {
        Some(b) => if bits::nan64(b) || bits::key64(b) < bits::key64(MILLI_64) {
            MILLI_64
        } else {
            b
        },
        None => d,
    }
}

fn tau(o: Option<u64>, d: u64) -> (r: u64)
    ensures
        r == tau_or(o, d),
{
    match o {
        Some(b) => if bits::is_nan64(b) || bits::order64(b) < bits::order64(MILLI_64) {
            MILLI_64
        } else {
            b
        },
        None => d,
    }
}

/// A weight from a flag: at least zero, as for a NaN.
pub open spec fn weight_or(o: Option<u32>, d: u32) -> u32 {
    match o {
        Some(b) => if bits::positive32(b) {
            b
        } else {
            0
        },
        None => d,
    }
}

fn weight(o: Option<u32>, d: u32) -> (r: u32)
    ensures
        r == weight_or(o, d),
{
    match o {
        Some(b) => if bits::is_positive32(b) {
            b
        } else {
            0
        },
        None => d,
    }
}

/// Bits of 1.0 in 32-bit precision.
pub const ONE_32: u32 = 0x3f80_0000;

/// A share from a flag: held to [0, 1]. A NaN stays one.
pub open spec fn share_or(o: Option<u32>, d: u32) -> u32 {
    match o {
        Some(b) => if bits::nan32(b) {
            b
        } else if bits::key32(b) <= 0 {
            0
        } else if bits::key32(b) > bits::key32(ONE_32) {
            ONE_32
        } else {
            b
        },
        None => d,
    }
}

fn share(o: Option<u32>, d: u32) -> (r: u32)
    ensures
        r == share_or(o, d),
{
    match o {
        Some(b) => if bits::is_nan32(b) {
            b
        } else if bits::order32(b) <= 0 {
            0
        } else if bits::order32(b) > bits::order32(ONE_32) {
            ONE_32
        } else {
            b
        },
        None => d,
    }
}

/// ASCII letters made small.
pub open spec fn small(c: char) -> char {
    if 65 <= c as int <= 90 {
        ((c as int) + 32) as char
    } else {
        c
    }
}

/// A text with its ASCII letters made small.
pub open spec fn lowered(s: Seq<char>) -> Seq<char> {
    s.map_values(|c: char| small(c))
}

fn small_letter(c: char) -> (r: char)
    ensures
        r == small(c),
{
    let u: u32 = text::code(c);
    if 65 <= u && u <= 90 {
        let b: u8 = (u + 32) as u8;
        b as char
    } else {
        c
    }
}

fn lower(s: &str) -> (r: Vec<char>)
    ensures
        r@ == lowered(s@),
{
    let cs = text::chars_of(s);
    let mut r: Vec<char> = Vec::new();
    let mut i: usize = 0;
    while i < cs.len()
        invariant
            i <= cs.len(),
            cs@ == s@,
            r.len() == i,
            forall|k: int| 0 <= k < i ==> #[trigger] r[k] == small(s@[k]),
        decreases cs.len() - i,
    {
        r.push(small_letter(cs[i]));
        i += 1;
    }
    proof {
        assert(r@ =~= lowered(s@));
    }
    r
}

fn is(v: &Vec<char>, s: &str) -> (r: bool)
    ensures
        r == (v@ == s@),
{
    text::same_chars(v, &text::chars_of(s))
}

/// The kind of smoothing that a flag names.
pub open spec fn smoothing_named(s: Seq<char>) -> SmoothingKind {
    let l = lowered(s);
    if l == "kn"@ || l == "kneser-ney"@ || l == "kneserney"@ || l == "mkn"@ || l
        == "modified-kn"@ {
        SmoothingKind::Kn
    } else {
        SmoothingKind::Naive
    }
}

fn smoothing_of(s: &str) -> (r: SmoothingKind)
    ensures
        r == smoothing_named(s@),
{
    let l = lower(s);
    if is(&l, "kn") || is(&l, "kneser-ney") || is(&l, "kneserney") || is(&l, "mkn") || is(
        &l,
        "modified-kn",
    ) {
        SmoothingKind::Kn
    } else {
        SmoothingKind::Naive
    }
}

/// The mixing that a flag names.
pub open spec fn mix_named(s: Seq<char>) -> MixMode {
    let l = lowered(s);
    if l == "exclusive"@ || l == "xor"@ {
        MixMode::Exclusive
    } else {
        MixMode::Pool
    }
}

fn mix_of(s: &str) -> (r: MixMode)
    ensures
        r == mix_named(s@),
{
    let l = lower(s);
    if is(&l, "exclusive") || is(&l, "xor") {
        MixMode::Exclusive
    } else {
        MixMode::Pool
    }
}

/// The knobs with the flags applied to the shipped ones.
pub open spec fn overridden(o: Overrides) -> Params {
    let d = params::shipped();
    Params {
        n_cand: match o.n_cand {
            Some(n) => if n < 1 {
                1
            } else {
                n
            },
            None => d.n_cand,
        },
        p_slip: unit_or(o.p_slip, d.p_slip),
        p_learn: unit_or(o.p_learn, d.p_learn),
        tau_gen: tau_or(o.tau, d.tau_gen),
        tau_slip: tau_or(o.tau_slip, d.tau_slip),
        band_penalty: weight_or(o.band_penalty, d.band_penalty),
        self_penalty: weight_or(o.self_penalty, d.self_penalty),
        bidir: !o.no_bidir,
        n_adapt: match o.n_adapt {
            Some(n) => n,
            None => d.n_adapt,
        },
        surprise_weight: match o.surprise_weight {
            Some(w) => w,
            None => d.surprise_weight,
        },
        smoothing: match o.smoothing {
            Some(s) => smoothing_named(s@),
            None => d.smoothing,
        },
        lambda_skip: unit_or(o.lambda_skip, d.lambda_skip),
        lambda_cache: unit_or(o.lambda_cache, d.lambda_cache),
        ppm_exclude: o.ppm,
        mix: match o.mix {
            Some(s) => mix_named(s@),
            None => d.mix,
        },
        mmr_lambda: share_or(o.mmr, d.mmr_lambda),
        p_nucleus: unit_or(o.p_nucleus, d.p_nucleus),
        k_top: match o.k_top {
            Some(k) => k,
            None => d.k_top,
        },
        n_retrieve_scan: match o.retrieve_scan {
            Some(s) => s,
            None => d.n_retrieve_scan,
        },
        weather: !o.no_weather,
        interject_rate: unit_or(o.interject_rate, d.interject_rate),
        interest_weight: weight_or(o.interest_weight, d.interest_weight),
        ..d
    }
}

pub fn params_from(o: &Overrides) -> (r: Params)
    ensures
        r == overridden(*o),
{
    let d: Params = Params::default();
    let mut p: Params = Params::default();
    match o.n_cand {
        Some(n) => {
            p.n_cand = if n < 1 {
                1
            } else {
                n
            };
        },
        None => {},
    }
    p.p_slip = unit(o.p_slip, d.p_slip);
    p.p_learn = unit(o.p_learn, d.p_learn);
    p.tau_gen = tau(o.tau, d.tau_gen);
    p.tau_slip = tau(o.tau_slip, d.tau_slip);
    p.band_penalty = weight(o.band_penalty, d.band_penalty);
    p.self_penalty = weight(o.self_penalty, d.self_penalty);
    if o.no_bidir {
        p.bidir = false;
    }
    match o.n_adapt {
        Some(n) => {
            p.n_adapt = n;
        },
        None => {},
    }
    match o.surprise_weight {
        Some(w) => {
            p.surprise_weight = w;
        },
        None => {},
    }
    match &o.smoothing {
        Some(s) => {
            p.smoothing = smoothing_of(s.as_str());
        },
        None => {},
    }
    p.lambda_skip = unit(o.lambda_skip, d.lambda_skip);
    p.lambda_cache = unit(o.lambda_cache, d.lambda_cache);
    if o.ppm {
        p.ppm_exclude = true;
    }
    match &o.mix {
        Some(s) => {
            p.mix = mix_of(s.as_str());
        },
        None => {},
    }
    p.mmr_lambda = share(o.mmr, d.mmr_lambda);
    p.p_nucleus = unit(o.p_nucleus, d.p_nucleus);
    match o.k_top {
        Some(k) => {
            p.k_top = k;
        },
        None => {},
    }
    match o.retrieve_scan {
        Some(s) => {
            p.n_retrieve_scan = s;
        },
        None => {},
    }
    if o.no_weather {
        p.weather = false;
    }
    p.interject_rate = unit(o.interject_rate, d.interject_rate);
    p.interest_weight = weight(o.interest_weight, d.interest_weight);
    p
}

// ---- chat ----
#[derive(Debug, Clone, Copy, PartialEq, Eq, Structural)]
pub enum ChatCommand {
    /// A blank line.
    Nothing,
    Quit,
    Observe,
    Why,
    Ayumi,
    Good,
    Bad,
    Stats,
    Eval,
    Rebuild,
    Retok,
    Explain,
    /// Anything else is said to the bot.
    Say,
}

/// What a trimmed line asks for.
pub open spec fn asked(t: Seq<char>) -> ChatCommand {
    if t.len() == 0 {
        ChatCommand::Nothing
    } else if t == "/quit"@ || t == "/exit"@ {
        ChatCommand::Quit
    } else if t == "/observe"@ {
        ChatCommand::Observe
    } else if t == "/why"@ {
        ChatCommand::Why
    } else if t == "/ayumi"@ {
        ChatCommand::Ayumi
    } else if t == "/good"@ {
        ChatCommand::Good
    } else if t == "/bad"@ {
        ChatCommand::Bad
    } else if t == "/stats"@ {
        ChatCommand::Stats
    } else if t == "/eval"@ {
        ChatCommand::Eval
    } else if t == "/rebuild"@ {
        ChatCommand::Rebuild
    } else if t == "/retok"@ {
        ChatCommand::Retok
    } else if t == "/explain"@ {
        ChatCommand::Explain
    } else {
        ChatCommand::Say
    }
}

/// What a line of a chat asks for, with the line trimmed.
pub fn chat_command(line: &str) -> (r: (ChatCommand, String))
    ensures
        r.1@ == text::trimmed(line@),
        r.0 == asked(r.1@),
{
    let s = text::trim(line);
    let t = text::chars_of(s.as_str());
    let c: ChatCommand = if t.len() == 0 {
        ChatCommand::Nothing
    } else if is(&t, "/quit") || is(&t, "/exit") {
        ChatCommand::Quit
    } else if is(&t, "/observe") {
        ChatCommand::Observe
    } else if is(&t, "/why") {
        ChatCommand::Why
    } else if is(&t, "/ayumi") {
        ChatCommand::Ayumi
    } else if is(&t, "/good") {
        ChatCommand::Good
    } else if is(&t, "/bad") {
        ChatCommand::Bad
    } else if is(&t, "/stats") {
        ChatCommand::Stats
    } else if is(&t, "/eval") {
        ChatCommand::Eval
    } else if is(&t, "/rebuild") {
        ChatCommand::Rebuild
    } else if is(&t, "/retok") {
        ChatCommand::Retok
    } else if is(&t, "/explain") {
        ChatCommand::Explain
    } else {
        ChatCommand::Say
    };
    (c, s)
}

/// The counters of a stats line.
pub open spec fn stats_head(s: Stats) -> Seq<char> {
    "utterances="@ + text::digits(s.utterances as nat) + " learned="@ + text::digits(
        s.learned as nat,
    ) + " tokens="@ + text::digits(s.tokens as nat) + " vocab="@ + text::digits(s.vocab as nat)
        + " buf="@ + text::digits(s.buf as nat)
}

fn stats_chars(s: &Stats) -> (out: Vec<char>)
    ensures
        out@ == stats_head(*s),
{
    let mut out = text::chars_of("utterances=");
    text::put(&mut out, &text::decimal(s.utterances as u64));
    text::put_str(&mut out, " learned=");
    text::put(&mut out, &text::decimal(s.learned as u64));
    text::put_str(&mut out, " tokens=");
    text::put(&mut out, &text::decimal(s.tokens as u64));
    text::put_str(&mut out, " vocab=");
    text::put(&mut out, &text::decimal(s.vocab as u64));
    text::put_str(&mut out, " buf=");
    text::put(&mut out, &text::decimal(s.buf as u64));
    out
}

/// The stats line of a chat.
pub fn stats_line(s: &Stats) -> (r: String)
    ensures
        r@ == stats_head(*s) + " meta="@ + text::digits(s.meta as nat),
{
    let mut out = stats_chars(s);
    text::put_str(&mut out, " meta=");
    text::put(&mut out, &text::decimal(s.meta as u64));
    text::string_of(&out)
}

/// The stats line of the command.
pub fn full_stats_line(s: &Stats) -> (r: String)
    ensures
        r@ == stats_head(*s) + " topic_k="@ + text::digits(s.topic_window as nat) + " meta="@
            + text::digits(s.meta as nat) + " hist="@ + text::digits(s.hist as nat),
{
    let mut out = stats_chars(s);
    text::put_str(&mut out, " topic_k=");
    text::put(&mut out, &text::decimal(s.topic_window as u64));
    text::put_str(&mut out, " meta=");
    text::put(&mut out, &text::decimal(s.meta as u64));
    text::put_str(&mut out, " hist=");
    text::put(&mut out, &text::decimal(s.hist as u64));
    text::string_of(&out)
}

/// A text cut to a width, with an ellipsis for what is cut.
pub open spec fn truncated(s: Seq<char>, max: int) -> Seq<char> {
    if s.len() <= max {
        s
    } else {
        s.take(if max > 0 {
            max - 1
        } else {
            0
        }) + "…"@
    }
}

pub fn trunc(s: &str, max_chars: usize) -> (r: String)
    ensures
        r@ == truncated(s@, max_chars as int),
{
    let cs = text::chars_of(s);
    if cs.len() <= max_chars {
        return s.to_owned();
    }
    let n: usize = if max_chars > 0 {
        max_chars - 1
    } else {
        0
    };
    let mut out = text::slice_of(&cs, 0, n);
    proof {
        assert(cs@.subrange(0, n as int) =~= s@.take(n as int));
    }
    text::put_str(&mut out, "…");
    text::string_of(&out)
}

// ---- synthetic tokens ----
/// The state of the token generator after `k` steps.
pub open spec fn lcg(k: nat) -> u64
    decreases k,
{
    if k == 0 {
        0xC0FF_EE00
    } else {
        lcg((k - 1) as nat).wrapping_mul(6364136223846793005).wrapping_add(1)
    }
}

/// Synthetic tokens to index.
pub fn synthetic_tokens(n: usize) -> (r: Vec<u32>)
    ensures
        r.len() == n,
        forall|i: int|
            0 <= i < n ==> #[trigger] r[i] == (lcg((i + 1) as nat) / 0x2_0000_0000) % 1024 + 16,
{
    let mut r: Vec<u32> = Vec::new();
    let mut x: u64 = 0xC0FF_EE00;
    while r.len() < n
        invariant
            r.len() <= n,
            x == lcg(r.len() as nat),
            forall|i: int|
                0 <= i < r.len() ==> #[trigger] r[i] == (lcg((i + 1) as nat) / 0x2_0000_0000)
                    % 1024 + 16,
        decreases n - r.len(),
    {
        x = x.wrapping_mul(6364136223846793005).wrapping_add(1);
        let t: u64 = (x / 0x2_0000_0000) % 1024 + 16;
        r.push(t as u32);
    }
    r
}

// ---- timings ----
/// `order` lists the timings from short to long.
pub open spec fn is_slow_order(times: Seq<u64>, order: Seq<usize>) -> bool {
    sort::sorted_indices(rising(times), order, 0, times.len() as int)
}

/// Sorting by these puts short timings first.
pub open spec fn rising(times: Seq<u64>) -> Seq<i64> {
    times.map_values(|t: u64| (t - 0x8000_0000_0000_0000) as i64)
}

/// Timings from short to long.
pub fn slow_order(times: &Vec<u64>) -> (r: Vec<usize>)
    ensures
        is_slow_order(times@, r@),
{
    let mut keys: Vec<i64> = Vec::new();
    let mut i: usize = 0;
    while i < times.len()
        invariant
            i <= times.len(),
            keys.len() == i,
            forall|k: int| 0 <= k < i ==> #[trigger] keys[k] == rising(times@)[k],
        decreases times.len() - i,
    {
        let t: u64 = times[i];
        let key: i64 = (t as i128 - 0x8000_0000_0000_0000i128) as i64;
        keys.push(key);
        i += 1;
    }
    proof {
        assert(keys@ =~= rising(times@));
    }
    sort::sort_indices(&keys)
}

/// Where the 99th percentile stands among `n` sorted timings: 0.99 of the way from the first
/// to the last, rounded.
pub open spec fn percentile_place(n: int) -> int {
    (99 * (n - 1) + 50) / 100
}

/// The 99th percentile of timings, 0 without one.
pub fn percentile_us(times: &Vec<u64>) -> (r: u64)
    requires
        times.len() < 0x100_0000_0000_0000,
    ensures
        times.len() == 0 ==> r == 0,
        times.len() > 0 ==> exists|order: Seq<usize>|
            #[trigger] is_slow_order(times@, order) && r == times[order[percentile_place(
                times.len() as int,
            )] as int],
{
    if times.len() == 0 {
        return 0;
    }
    let order = slow_order(times);
    let n: u64 = times.len() as u64;
    let at: usize = ((99 * (n - 1) + 50) / 100) as usize;
    proof {
        assert(is_slow_order(times@, order@));
        assert(at == percentile_place(times.len() as int));
        assert(at < order.len());
    }
    times[order[at]]
}

/// Median, 99th percentile and maximum of a run.
pub fn run_timings(times: &Vec<u64>) -> (r: (u64, u64, u64))
    requires
        0 < times.len() < 0x100_0000_0000_0000,
    ensures
        exists|order: Seq<usize>|
            {
                let n = times.len() as int;
                &&& #[trigger] is_slow_order(times@, order)
                &&& r.0 == times[order[n / 2] as int]
                &&& r.1 == times[order[n * 99 / 100] as int]
                &&& r.2 == times[order[n - 1] as int]
            },
{
    let order = slow_order(times);
    let n: usize = times.len();
    let mid: usize = n / 2;
    let late: usize = ((n as u64) * 99 / 100) as usize;
    proof {
        assert(is_slow_order(times@, order@));
        assert(mid < order.len());
        assert(late < order.len());
    }
    (times[order[mid]], times[order[late]], times[order[n - 1]])
}

// ---- closed dependencies ----
/// A crate that would open the engine to a network or a language model.
pub open spec fn banned(s: Seq<char>) -> bool {
    s == "async-openai"@ || s == "burn"@ || s == "candle"@ || s == "candle-core"@ || s
        == "candle-nn"@ || s == "candle-transformers"@ || s == "hf-hub"@ || s == "hyper"@ || s
        == "hyper-util"@ || s == "llama-cpp-2"@ || s == "llm"@ || s == "ort"@ || s == "reqwest"@
        || s == "rust-bert"@ || s == "tch"@ || s == "tokenizers"@ || s == "tokio"@ || s
        == "tokio-tungstenite"@ || s == "tract-core"@ || s == "tungstenite"@ || s == "ureq"@
}

fn is_banned(v: &Vec<char>) -> (r: bool)
    ensures
        r == banned(v@),
{
    is(v, "async-openai") || is(v, "burn") || is(v, "candle") || is(v, "candle-core") || is(
        v,
        "candle-nn",
    ) || is(v, "candle-transformers") || is(v, "hf-hub") || is(v, "hyper") || is(v, "hyper-util")
        || is(v, "llama-cpp-2") || is(v, "llm") || is(v, "ort") || is(v, "reqwest") || is(
        v,
        "rust-bert",
    ) || is(v, "tch") || is(v, "tokenizers") || is(v, "tokio") || is(v, "tokio-tungstenite")
        || is(v, "tract-core") || is(v, "tungstenite") || is(v, "ureq")
}

/// What stands in front of a crate's name in a lock file: `name = "`.
pub open spec fn name_prefix() -> Seq<char> {
    seq!['n', 'a', 'm', 'e', ' ', '=', ' ', '"']
}

/// The crate that a line of a lock file names, if it names one.
pub open spec fn named(line: Seq<char>) -> Option<Seq<char>> {
    let t = text::trimmed(line);
    if t.len() >= 9 && t.take(8) == name_prefix() && t.last() == '"' {
        Some(t.subrange(8, t.len() - 1))
    } else {
        None
    }
}

fn crate_of(line: &Vec<char>) -> (r: Option<Vec<char>>)
    ensures
        match r {
            Some(v) => named(line@) == Some(v@),
            None => named(line@) is None,
        },
{
    let t = text::trim_chars(line);
    if t.len() < 9 {
        return None;
    }
    let head = text::slice_of(&t, 0, 8);
    let want: Vec<char> = vec!['n', 'a', 'm', 'e', ' ', '=', ' ', '"'];
    proof {
        assert(want@ =~= name_prefix());
        assert(t@.take(8) =~= t@.subrange(0, 8));
    }
    if !text::same_chars(&head, &want) || t[t.len() - 1] != '"' {
        return None;
    }
    Some(text::slice_of(&t, 8, t.len() - 1))
}

/// Banned crates that the first `k` lines name.
pub open spec fn banned_in(lines: Seq<Seq<char>>, k: int) -> Seq<Seq<char>>
    decreases k,
{
    if k <= 0 {
        Seq::empty()
    } else {
        match named(lines[k - 1]) {
            Some(c) if banned(c) => banned_in(lines, k - 1).push(c),
            _ => banned_in(lines, k - 1),
        }
    }
}

/// The banned crates that a lock file names, in order; nothing where it is clean.
pub fn lockfile_banned(lines: &Vec<String>) -> (r: Vec<String>)
    ensures
        text::texts(r@) == banned_in(text::texts(lines@), lines.len() as int),
{
    let ghost ls = text::texts(lines@);
    let mut r: Vec<String> = Vec::new();
    let mut i: usize = 0;
    proof {
        assert(text::texts(r@) =~= banned_in(ls, 0));
    }
    while i < lines.len()
        invariant
            i <= lines.len(),
            ls == text::texts(lines@),
            text::texts(r@) == banned_in(ls, i as int),
        decreases lines.len() - i,
    {
        proof {
            assert(ls[i as int] == lines[i as int]@);
        }
        match crate_of(&text::chars_of(lines[i].as_str())) {
            Some(c) => {
                if is_banned(&c) {
                    let ghost before = text::texts(r@);
                    r.push(text::string_of(&c));
                    proof {
                        assert(text::texts(r@) =~= before.push(c@));
                    }
                }
            },
            None => {},
        }
        i += 1;
    }
    r
}

// ---- probe ----
/// One prompt's outcome.
#[derive(Debug)]
pub struct Row {
    pub prompt: String,
    pub path: PathKind,
    pub band_hit: bool,
    pub slipped: bool,
    pub ctx_used: usize,
    pub text: String,
    /// Distinct sources in the pool.
    pub n_sources: usize,
}

/// What two runs over the same prompts come to.
#[derive(Debug, Clone, Copy)]
pub struct Tallies {
    /// Prompts with different replies.
    pub diverge: usize,
    pub trig_empty: usize,
    pub trig_seed: usize,
    /// Band hits of the seeded run.
    pub band: usize,
    /// Slips of the seeded run.
    pub slip: usize,
}

/// The number of the first `k` rows of two runs that fulfil a condition.
pub open spec fn rows_where(
    a: Seq<Row>,
    b: Seq<Row>,
    p: spec_fn(Row, Row) -> bool,
    k: int,
) -> int
    decreases k,
{
    if k <= 0 {
        0
    } else {
        rows_where(a, b, p, k - 1) + (if p(a[k - 1], b[k - 1]) {
            1int
        } else {
            0
        })
    }
}

/// The replies differ.
pub open spec fn differ() -> spec_fn(Row, Row) -> bool {
    |x: Row, y: Row| x.text@ != y.text@
}

/// The first run's reply came from a trigger.
pub open spec fn first_triggers() -> spec_fn(Row, Row) -> bool {
    |x: Row, y: Row| x.path == PathKind::Trigger
}

/// The second run's reply came from a trigger.
pub open spec fn second_triggers() -> spec_fn(Row, Row) -> bool {
    |x: Row, y: Row| y.path == PathKind::Trigger
}

/// The second run's reply lies in the band.
pub open spec fn second_in_band() -> spec_fn(Row, Row) -> bool {
    |x: Row, y: Row| y.band_hit
}

/// The second run slipped.
pub open spec fn second_slips() -> spec_fn(Row, Row) -> bool {
    |x: Row, y: Row| y.slipped
}

fn is_trigger(p: PathKind) -> (r: bool)
    ensures
        r == (p == PathKind::Trigger),
{
    match p {
        PathKind::Trigger => true,
        _ => false,
    }
}

/// Compares an empty run with a seeded one.
pub fn compare_runs(empty: &Vec<Row>, seeded: &Vec<Row>) -> (r: Tallies)
    ensures
        ({
            let n = if empty.len() < seeded.len() {
                empty.len() as int
            } else {
                seeded.len() as int
            };
            &&& r.diverge == rows_where(empty@, seeded@, differ(), n)
            &&& r.trig_empty == rows_where(empty@, seeded@, first_triggers(), n)
            &&& r.trig_seed == rows_where(empty@, seeded@, second_triggers(), n)
            &&& r.band == rows_where(empty@, seeded@, second_in_band(), n)
            &&& r.slip == rows_where(empty@, seeded@, second_slips(), n)
        }),
{
    let mut t = Tallies { diverge: 0, trig_empty: 0, trig_seed: 0, band: 0, slip: 0 };
    let n: usize = if empty.len() < seeded.len() {
        empty.len()
    } else {
        seeded.len()
    };
    let mut i: usize = 0;
    while i < n
        invariant
            i <= n,
            n <= empty.len(),
            n <= seeded.len(),
            t.diverge <= i,
            t.trig_empty <= i,
            t.trig_seed <= i,
            t.band <= i,
            t.slip <= i,
            t.diverge == rows_where(empty@, seeded@, differ(), i as int),
            t.trig_empty == rows_where(empty@, seeded@, first_triggers(), i as int),
            t.trig_seed == rows_where(empty@, seeded@, second_triggers(), i as int),
            t.band == rows_where(empty@, seeded@, second_in_band(), i as int),
            t.slip == rows_where(empty@, seeded@, second_slips(), i as int),
        decreases n - i,
    {
        let a = &empty[i];
        let b = &seeded[i];
        if !(a.text == b.text) {
            t.diverge = t.diverge + 1;
        }
        if is_trigger(a.path) {
            t.trig_empty = t.trig_empty + 1;
        }
        if is_trigger(b.path) {
            t.trig_seed = t.trig_seed + 1;
        }
        if b.band_hit {
            t.band = t.band + 1;
        }
        if b.slipped {
            t.slip = t.slip + 1;
        }
        i += 1;
    }
    t
}

/// Two runs gave the same replies from the same sources, as far as both go.
pub open spec fn agree(a: Seq<Row>, b: Seq<Row>) -> bool {
    forall|i: int|
        0 <= i < a.len() && i < b.len() ==> (#[trigger] a[i]).text@ == b[i].text@ && a[i].path
            == b[i].path
}

/// Whether two runs gave the same replies from the same sources.
pub fn runs_agree(a: &Vec<Row>, b: &Vec<Row>) -> (r: bool)
    ensures
        r == agree(a@, b@),
{
    let mut i: usize = 0;
    while i < a.len() && i < b.len()
        invariant
            i <= a.len(),
            i <= b.len(),
            forall|k: int|
                0 <= k < i ==> (#[trigger] a[k]).text@ == b[k].text@ && a[k].path == b[k].path,
        decreases a.len() - i,
    {
        let same: bool = a[i].text == b[i].text && a[i].path == b[i].path;
        if !same {
            proof {
                assert(a@[i as int].text@ != b@[i as int].text@ || a@[i as int].path
                    != b@[i as int].path);
            }
            return false;
        }
        i += 1;
    }
    true
}

/// A prompt that is answered from a dictionary and says nothing of the pool.
pub open spec fn is_greeting(s: Seq<char>) -> bool {
    s == "おはよう"@ || s == "ありがとう"@
}

/// The largest number of sources that met over another prompt than a greeting.
pub fn most_sources(rows: &Vec<Row>) -> (r: usize)
    ensures
        forall|i: int|
            0 <= i < rows.len() && !is_greeting((#[trigger] rows[i]).prompt@) ==> rows[i].n_sources
                <= r,
        r == 0 || exists|i: int|
            0 <= i < rows.len() && !is_greeting((#[trigger] rows[i]).prompt@) && rows[i].n_sources
                == r,
{
    let ohayo = "おはよう".to_owned();
    let thanks = "ありがとう".to_owned();
    let mut best: usize = 0;
    let mut i: usize = 0;
    while i < rows.len()
        invariant
            i <= rows.len(),
            ohayo@ == "おはよう"@,
            thanks@ == "ありがとう"@,
            forall|k: int|
                0 <= k < i && !is_greeting((#[trigger] rows[k]).prompt@) ==> rows[k].n_sources
                    <= best,
            best == 0 || exists|k: int|
                0 <= k < i && !is_greeting((#[trigger] rows[k]).prompt@) && rows[k].n_sources
                    == best,
        decreases rows.len() - i,
    {
        let greeting: bool = rows[i].prompt == ohayo || rows[i].prompt == thanks;
        if !greeting && rows[i].n_sources > best {
            best = rows[i].n_sources;
            proof {
                assert(!is_greeting(rows@[i as int].prompt@));
            }
        }
        i += 1;
    }
    best
}

/// How many of the five sources occur.
pub open spec fn sources_in(ps: Seq<PathKind>) -> int {
    (if ps.contains(PathKind::Trigger) {
        1int
    } else {
        0
    }) + (if ps.contains(PathKind::Markov) {
        1int
    } else {
        0
    }) + (if ps.contains(PathKind::Retrieve) {
        1int
    } else {
        0
    }) + (if ps.contains(PathKind::Echo) {
        1int
    } else {
        0
    }) + (if ps.contains(PathKind::Adapt) {
        1int
    } else {
        0
    })
}

fn has_source(ps: &Vec<PathKind>, p: PathKind) -> (r: bool)
    ensures
        r == ps@.contains(p),
{
    let mut i: usize = 0;
    while i < ps.len()
        invariant
            i <= ps.len(),
            forall|k: int| 0 <= k < i ==> ps@[k] != p,
        decreases ps.len() - i,
    {
        if ps[i] == p {
            proof {
                assert(ps@[i as int] == p);
            }
            return true;
        }
        i += 1;
    }
    false
}

fn one_if(b: bool) -> (r: usize)
    ensures
        r == (if b {
            1int
        } else {
            0
        }),
{
    if b {
        1
    } else {
        0
    }
}

/// How many different sources a pool has.
pub fn distinct_sources(ps: &Vec<PathKind>) -> (r: usize)
    ensures
        r == sources_in(ps@),
{
    one_if(has_source(ps, PathKind::Trigger)) + one_if(has_source(ps, PathKind::Markov)) + one_if(
        has_source(ps, PathKind::Retrieve),
    ) + one_if(has_source(ps, PathKind::Echo)) + one_if(has_source(ps, PathKind::Adapt))
}

/// The context that the first step rested on.
pub fn first_ctx_used(steps: &Vec<GenStep>) -> (r: usize)
    ensures
        steps.len() == 0 ==> r == 0,
        steps.len() > 0 ==> r == steps[0].ctx_len_used,
{
    if steps.len() > 0 {
        steps[0].ctx_len_used
    } else {
        0
    }
}

/// Four letters for a source in a probe table.
pub fn path_tag(p: PathKind) -> (r: &'static str)
    ensures
        r@ == (match p {
            PathKind::Trigger => "Trig"@,
            PathKind::Markov => "Mark"@,
            PathKind::Retrieve => "Retr"@,
            PathKind::Echo => "Echo"@,
            PathKind::Adapt => "Adpt"@,
        }),
{
    match p {
        PathKind::Trigger => "Trig",
        PathKind::Markov => "Mark",
        PathKind::Retrieve => "Retr",
        PathKind::Echo => "Echo",
        PathKind::Adapt => "Adpt",
    }
}

/// Corpus sizes of a run.
#[derive(Debug, Clone, Copy)]
pub struct Corpus {
    pub utterances: usize,
    pub tokens: usize,
    pub vocab: usize,
}

/// The probe's verdicts that rest on counts.
#[derive(Debug, Clone, Copy)]
pub struct ProbeVerdicts {
    pub grow_tokens: bool,
    pub grow_vocab: bool,
    pub grow_utterances: bool,
    pub diverge: bool,
    pub trigger_ohayo: bool,
    pub ood_closed: bool,
    pub hybrid_pool: bool,
    pub zero_slip: bool,
}

/// Judges a probe: a seeded engine has grown, answers otherwise than an empty one, knows its
/// greeting, and mixes its sources.
pub fn judge_probe(
    empty: &Corpus,
    seeded: &Corpus,
    t: &Tallies,
    ohayo: PathKind,
    unknown: PathKind,
    mixed: usize,
) -> (r: ProbeVerdicts)
    ensures
        r.grow_tokens == (seeded.tokens > empty.tokens && seeded.tokens >= 40),
        r.grow_vocab == (seeded.vocab > empty.vocab && seeded.vocab >= 16),
        r.grow_utterances == (seeded.utterances == 50),
        r.diverge == (t.diverge >= 3),
        r.trigger_ohayo == (ohayo == PathKind::Trigger),
        r.ood_closed == (unknown != PathKind::Trigger),
        r.hybrid_pool == (mixed >= 2),
        r.zero_slip == (t.slip == 0),
{
    ProbeVerdicts {
        grow_tokens: seeded.tokens > empty.tokens && seeded.tokens >= 40,
        grow_vocab: seeded.vocab > empty.vocab && seeded.vocab >= 16,
        grow_utterances: seeded.utterances == 50,
        diverge: t.diverge >= 3,
        trigger_ohayo: is_trigger(ohayo),
        ood_closed: !is_trigger(unknown),
        hybrid_pool: mixed >= 2,
        zero_slip: t.slip == 0,
    }
}

// ---- checks ----
#[derive(Debug, Clone, Copy, PartialEq, Eq, Structural)]
pub enum Status {
    Pass,
    Fail,
    Skip,
}

/// Passed or failed.
pub open spec fn status_if(ok: bool) -> Status {
    if ok {
        Status::Pass
    } else {
        Status::Fail
    }
}

pub fn status(ok: bool) -> (r: Status)
    ensures
        r == status_if(ok),
{
    if ok {
        Status::Pass
    } else {
        Status::Fail
    }
}

/// The user's chunks are part of the context: the first step asked for at least as many, where
/// the reply was generated.
pub fn context_holds_input(path: PathKind, steps: &Vec<GenStep>, chunks: usize) -> (r: bool)
    ensures
        r == (path != PathKind::Markov || steps.len() == 0 || steps[0].ctx_len_requested >= chunks),
{
    let generated: bool = match path {
        PathKind::Markov => true,
        _ => false,
    };
    !generated || steps.len() == 0 || steps[0].ctx_len_requested >= chunks
}

/// The index check: whole, and within two seconds from ten million tokens on.
pub fn index_status(n: usize, indexed: usize, nanos: u64) -> (r: Status)
    ensures
        r == status_if(indexed == n && (n < 10_000_000 || nanos <= 2_000_000_000)),
{
    status(indexed == n && (n < 10_000_000 || nanos <= 2_000_000_000))
}

/// The resident-memory check: 256 MB, measured from ten million tokens on.
pub fn resident_status(n: usize, resident_kb: u64) -> (r: Status)
    ensures
        r == (if n >= 10_000_000 {
            status_if(resident_kb <= 262_144)
        } else {
            Status::Skip
        }),
{
    if n >= 10_000_000 {
        status(resident_kb <= 262_144)
    } else {
        Status::Skip
    }
}

/// Failed and skipped checks so far.
#[derive(Debug, Clone, Copy)]
pub struct Score {
    pub failed: usize,
    pub skipped: usize,
}

impl Score {
    /// Counts a check and names its status.
    pub fn count(&mut self, s: Status) -> (r: &'static str)
        requires
            old(self).failed < usize::MAX,
            old(self).skipped < usize::MAX,
        ensures
            final(self).failed == old(self).failed + (if s == Status::Fail {
                1int
            } else {
                0
            }),
            final(self).skipped == old(self).skipped + (if s == Status::Skip {
                1int
            } else {
                0
            }),
            r@ == (match s {
                Status::Pass => "PASS"@,
                Status::Fail => "FAIL"@,
                Status::Skip => "SKIP"@,
            }),
    {
        match s {
            Status::Pass => "PASS",
            Status::Fail => {
                self.failed = self.failed + 1;
                "FAIL"
            },
            Status::Skip => {
                self.skipped = self.skipped + 1;
                "SKIP"
            },
        }
    }
}

/// A flag that is not given leaves the knob as it was. A chance or a share is held to the range
/// from zero to one, a weight to what is not negative, a temperature to a thousandth or more;
/// what lies in the range is taken as it is.
pub proof fn law_flags_are_held_to_their_range(o: u64, d: u64, w: u32, e: u32)
    ensures
        unit_or(None, d) == d,
        tau_or(None, d) == d,
        weight_or(None, e) == e,
        share_or(None, e) == e,
        !bits::nan64(o) ==> {
            &&& 0 <= bits::key64(unit_or(Some(o), d)) <= bits::key64(bits::ONE_64)
            &&& 0 < bits::key64(o) <= bits::key64(bits::ONE_64) ==> unit_or(Some(o), d) == o
            &&& bits::key64(o) >= bits::key64(bits::ONE_64) ==> unit_or(Some(o), d) == bits::ONE_64
            &&& bits::key64(o) <= 0 ==> unit_or(Some(o), d) == 0
        },
        bits::nan64(o) ==> unit_or(Some(o), d) == o,
        !bits::nan64(tau_or(Some(o), d)),
        bits::key64(tau_or(Some(o), d)) >= bits::key64(MILLI_64),
        !bits::nan64(o) && bits::key64(o) >= bits::key64(MILLI_64) ==> tau_or(Some(o), d) == o,
        !bits::nan64(o) && bits::key64(o) <= bits::key64(MILLI_64) ==> tau_or(Some(o), d)
            == MILLI_64,
        !bits::nan32(weight_or(Some(w), e)),
        bits::key32(weight_or(Some(w), e)) >= 0,
        !bits::nan32(w) && bits::key32(w) > 0 ==> weight_or(Some(w), e) == w,
        !bits::nan32(w) && bits::key32(w) <= 0 ==> weight_or(Some(w), e) == 0,
        !bits::nan32(w) ==> {
            &&& 0 <= bits::key32(share_or(Some(w), e)) <= bits::key32(ONE_32)
            &&& 0 < bits::key32(w) <= bits::key32(ONE_32) ==> share_or(Some(w), e) == w
            &&& bits::key32(w) >= bits::key32(ONE_32) ==> share_or(Some(w), e) == ONE_32
            &&& bits::key32(w) <= 0 ==> share_or(Some(w), e) == 0
        },
        bits::nan32(w) ==> share_or(Some(w), e) == w,
        bits::closest64(MILLI_64, 1, 1000),
        bits::closest64(bits::ONE_64, 1, 1),
        bits::closest32(ONE_32, 1, 1),
{
    vstd::arithmetic::power2::lemma2_to64();
    vstd::arithmetic::power2::lemma2_to64_rest();
}

/// Every flag turns its own knob: what it names is taken, within its range, and without it the
/// knob stands as shipped. At least one candidate is asked for.
pub proof fn law_every_flag_turns_its_knob(o: Overrides)
    ensures
        ({
            let d = params::shipped();
            let p = overridden(o);
            &&& p.n_cand >= 1 || (o.n_cand is None && d.n_cand < 1)
            &&& o.n_cand matches Some(n) ==> n >= 1 ==> p.n_cand == n
            &&& o.n_cand is None ==> p.n_cand == d.n_cand
            &&& p.p_slip == unit_or(o.p_slip, d.p_slip)
            &&& p.p_learn == unit_or(o.p_learn, d.p_learn)
            &&& p.tau_gen == tau_or(o.tau, d.tau_gen)
            &&& p.tau_slip == tau_or(o.tau_slip, d.tau_slip)
            &&& p.band_penalty == weight_or(o.band_penalty, d.band_penalty)
            &&& p.self_penalty == weight_or(o.self_penalty, d.self_penalty)
            &&& p.lambda_skip == unit_or(o.lambda_skip, d.lambda_skip)
            &&& p.lambda_cache == unit_or(o.lambda_cache, d.lambda_cache)
            &&& p.p_nucleus == unit_or(o.p_nucleus, d.p_nucleus)
            &&& p.interject_rate == unit_or(o.interject_rate, d.interject_rate)
            &&& p.interest_weight == weight_or(o.interest_weight, d.interest_weight)
            &&& p.mmr_lambda == share_or(o.mmr, d.mmr_lambda)
            &&& p.bidir != o.no_bidir
            &&& p.weather != o.no_weather
            &&& p.ppm_exclude == o.ppm
            &&& o.n_adapt matches Some(n) ==> p.n_adapt == n
            &&& o.n_adapt is None ==> p.n_adapt == d.n_adapt
            &&& o.k_top matches Some(n) ==> p.k_top == n
            &&& o.k_top is None ==> p.k_top == d.k_top
            &&& o.retrieve_scan matches Some(n) ==> p.n_retrieve_scan == n
            &&& o.retrieve_scan is None ==> p.n_retrieve_scan == d.n_retrieve_scan
            &&& o.surprise_weight matches Some(n) ==> p.surprise_weight == n
            &&& o.surprise_weight is None ==> p.surprise_weight == d.surprise_weight
            &&& o.smoothing is None ==> p.smoothing == d.smoothing
            &&& o.mix is None ==> p.mix == d.mix
        }),
{
}

/// Names of kinds are read in any case: only ASCII capitals change, each into its small letter.
/// What names no kind is the naive smoothing and the pool.
pub proof fn law_names_are_read_in_any_case(s: Seq<char>, t: Seq<char>)
    ensures
        lowered(s).len() == s.len(),
        forall|i: int|
            0 <= i < s.len() ==> (if 'A' as int <= s[i] as int <= 'Z' as int {
                #[trigger] lowered(s)[i] as int - 'a' as int == s[i] as int - 'A' as int
            } else {
                lowered(s)[i] == s[i]
            }),
        lowered(s) == lowered(t) ==> smoothing_named(s) == smoothing_named(t) && mix_named(s)
            == mix_named(t),
        smoothing_named(s) == SmoothingKind::Kn <==> lowered(s) == "kn"@ || lowered(s) == "mkn"@
            || lowered(s) == "kneserney"@ || lowered(s) == "kneser-ney"@ || lowered(s)
            == "modified-kn"@,
        mix_named(s) == MixMode::Exclusive <==> lowered(s) == "xor"@ || lowered(s) == "exclusive"@,
{
    assert forall|i: int| 0 <= i < s.len() implies (if 'A' as int <= s[i] as int <= 'Z' as int {
        #[trigger] lowered(s)[i] as int - 'a' as int == s[i] as int - 'A' as int
    } else {
        lowered(s)[i] == s[i]
    }) by {
        if 65 <= s[i] as int <= 90 {
            assert(((s[i] as int) + 32) as char as int == s[i] as int + 32);
        }
    }
}

/// What does not start with a slash is said to the bot, unless it is empty; every command is
/// asked for by its own word.
pub proof fn law_commands_start_with_a_slash(t: Seq<char>)
    ensures
        t.len() == 0 <==> asked(t) == ChatCommand::Nothing,
        t.len() > 0 && t[0] != '/' ==> asked(t) == ChatCommand::Say,
        asked(t) == ChatCommand::Quit <==> t == "/quit"@ || t == "/exit"@,
        asked(t) == ChatCommand::Observe <==> t == "/observe"@,
        asked(t) == ChatCommand::Why <==> t == "/why"@,
        asked(t) == ChatCommand::Ayumi <==> t == "/ayumi"@,
        asked(t) == ChatCommand::Good <==> t == "/good"@,
        asked(t) == ChatCommand::Bad <==> t == "/bad"@,
        asked(t) == ChatCommand::Stats <==> t == "/stats"@,
        asked(t) == ChatCommand::Eval <==> t == "/eval"@,
        asked(t) == ChatCommand::Rebuild <==> t == "/rebuild"@,
        asked(t) == ChatCommand::Retok <==> t == "/retok"@,
        asked(t) == ChatCommand::Explain <==> t == "/explain"@,
{
    reveal_strlit("/quit");
    reveal_strlit("/exit");
    reveal_strlit("/observe");
    reveal_strlit("/why");
    reveal_strlit("/ayumi");
    reveal_strlit("/good");
    reveal_strlit("/bad");
    reveal_strlit("/stats");
    reveal_strlit("/eval");
    reveal_strlit("/rebuild");
    reveal_strlit("/retok");
    reveal_strlit("/explain");
    assert("/quit"@[1] == 'q' && "/exit"@[1] == 'e' && "/exit"@[2] == 'x' && "/exit"@.len() == 5);
    assert("/observe"@[1] == 'o' && "/why"@[1] == 'w' && "/ayumi"@[1] == 'a');
    assert("/good"@[1] == 'g' && "/bad"@[1] == 'b' && "/stats"@[1] == 's');
    assert("/eval"@[1] == 'e' && "/eval"@[2] == 'v' && "/rebuild"@.len() == 8 && "/rebuild"@[1] == 'r');
    assert("/retok"@[1] == 'r' && "/retok"@.len() == 6 && "/explain"@.len() == 8 && "/explain"@[1] == 'e');
}

/// A text that fits is shown whole; of a longer one the start is shown, and an ellipsis in the
/// last place.
pub proof fn law_long_texts_end_in_an_ellipsis(s: Seq<char>, max: int)
    requires
        0 <= max,
    ensures
        s.len() <= max ==> truncated(s, max) == s,
        s.len() > max >= 1 ==> truncated(s, max).len() == max && truncated(s, max).drop_last()
            == s.take(max - 1) && truncated(s, max).last() == '…',
        s.len() > 0 && max == 0 ==> truncated(s, max) == seq!['…'],
{
    reveal_strlit("…");
    if s.len() > max {
        assert("…"@ =~= seq!['…']);
        if max >= 1 {
            assert(truncated(s, max).drop_last() =~= s.take(max - 1));
        } else {
            assert(truncated(s, max) =~= seq!['…']);
        }
    }
}

/// Timings are ordered from short to long, and the place of the 99th percentile is the closest
/// to 99 hundredths of the way.
pub proof fn law_percentiles_are_of_sorted_timings(times: Seq<u64>, order: Seq<usize>, i: int, j: int)
    requires
        is_slow_order(times, order),
        0 <= i <= j < order.len(),
    ensures
        order.len() == times.len(),
        times[order[i] as int] <= times[order[j] as int],
        0 <= percentile_place(times.len() as int) < times.len(),
        -50 <= 100 * percentile_place(times.len() as int) - 99 * (times.len() - 1) <= 50,
{
    let keys = rising(times);
    if i < j {
        sort::law_small_keys_come_first(keys, order, i, j, 0);
        assert(keys[order[i] as int] <= keys[order[j] as int]);
    }
}

/// A line of a lock file names the crate between its quotes, whatever white space stands around
/// the line.
pub proof fn law_lock_lines_name_their_crate(line: Seq<char>, c: Seq<char>)
    ensures
        text::trimmed(line) == seq!['n', 'a', 'm', 'e', ' ', '=', ' ', '"'] + c + seq!['"'] <==> named(
            line,
        ) == Some(c),
{
    let t = text::trimmed(line);
    let whole = name_prefix() + c + seq!['"'];
    if t == whole {
        assert(t.take(8) =~= name_prefix());
        assert(t.subrange(8, t.len() - 1) =~= c);
    }
    if named(line) == Some(c) {
        assert(t =~= t.take(8) + t.subrange(8, t.len() - 1) + seq![t.last()]);
    }
}

/// The banned crates are those of the named ones that are banned, in the order of the lines.
pub proof fn law_banned_crates_are_told(lines: Seq<Seq<char>>, k: int)
    requires
        0 <= k <= lines.len(),
    ensures
        banned_in(lines, k) == lines.take(k).filter(
            |l: Seq<char>|
                match named(l) {
                    Some(c) => banned(c),
                    None => false,
                },
        ).map_values(|l: Seq<char>| named(l)->0),
    decreases k,
{
    reveal(Seq::filter);
    let bad = |l: Seq<char>|
        match named(l) {
            Some(c) => banned(c),
            None => false,
        };
    let name = |l: Seq<char>| named(l)->0;
    if k > 0 {
        law_banned_crates_are_told(lines, k - 1);
        assert(lines.take(k).drop_last() =~= lines.take(k - 1));
        assert(lines.take(k).last() == lines[k - 1]);
        if bad(lines[k - 1]) {
            assert(lines.take(k).filter(bad) == lines.take(k - 1).filter(bad).push(lines[k - 1]));
        } else {
            assert(lines.take(k).filter(bad) == lines.take(k - 1).filter(bad));
        }
    }
    assert(banned_in(lines, k) =~= lines.take(k).filter(bad).map_values(name));
}

proof fn lemma_rows(a: Seq<Row>, b: Seq<Row>, p: spec_fn(Row, Row) -> bool, k: int)
    requires
        0 <= k,
    ensures
        rows_where(a, b, p, k) == Seq::new(k as nat, |i: int| i).filter(
            |i: int| p(a[i], b[i]),
        ).len(),
    decreases k,
{
    reveal(Seq::filter);
    let all = Seq::new(k as nat, |i: int| i);
    if k > 0 {
        lemma_rows(a, b, p, k - 1);
        assert(all.drop_last() =~= Seq::new((k - 1) as nat, |i: int| i));
        assert(all.last() == k - 1);
    }
}

/// Two runs are compared prompt by prompt: the divergences are the prompts with different
/// replies, and triggers, band hits and slips are those of the run they are told of.
pub proof fn law_runs_are_compared_row_by_row(a: Seq<Row>, b: Seq<Row>, k: int)
    requires
        0 <= k <= a.len(),
        k <= b.len(),
    ensures
        rows_where(a, b, differ(), k) == Seq::new(k as nat, |i: int| i).filter(
            |i: int| a[i].text@ != b[i].text@,
        ).len(),
        rows_where(a, b, first_triggers(), k) == Seq::new(k as nat, |i: int| i).filter(
            |i: int| a[i].path == PathKind::Trigger,
        ).len(),
        rows_where(a, b, second_triggers(), k) == Seq::new(k as nat, |i: int| i).filter(
            |i: int| b[i].path == PathKind::Trigger,
        ).len(),
        rows_where(a, b, second_in_band(), k) == Seq::new(k as nat, |i: int| i).filter(
            |i: int| b[i].band_hit,
        ).len(),
        rows_where(a, b, second_slips(), k) == Seq::new(k as nat, |i: int| i).filter(
            |i: int| b[i].slipped,
        ).len(),
{
    lemma_rows(a, b, differ(), k);
    lemma_rows(a, b, first_triggers(), k);
    lemma_rows(a, b, second_triggers(), k);
    lemma_rows(a, b, second_in_band(), k);
    lemma_rows(a, b, second_slips(), k);
    assert((|i: int| differ()(a[i], b[i])) =~= (|i: int| a[i].text@ != b[i].text@));
    assert((|i: int| first_triggers()(a[i], b[i])) =~= (|i: int| a[i].path == PathKind::Trigger));
    assert((|i: int| second_triggers()(a[i], b[i])) =~= (|i: int| b[i].path == PathKind::Trigger));
    assert((|i: int| second_in_band()(a[i], b[i])) =~= (|i: int| b[i].band_hit));
    assert((|i: int| second_slips()(a[i], b[i])) =~= (|i: int| b[i].slipped));
}

/// The sources in a pool are counted once each.
pub proof fn law_sources_count_once(ps: Seq<PathKind>)
    ensures
        sources_in(ps) == ps.to_set().len(),
{
    let s = ps.to_set();
    vstd::seq_lib::seq_to_set_is_finite(ps);
    let a = s.remove(PathKind::Trigger);
    let b = a.remove(PathKind::Markov);
    let c = b.remove(PathKind::Retrieve);
    let d = c.remove(PathKind::Echo);
    let e = d.remove(PathKind::Adapt);
    assert forall|p: PathKind| !e.contains(p) by {
        match p {
            PathKind::Trigger => {},
            PathKind::Markov => {},
            PathKind::Retrieve => {},
            PathKind::Echo => {},
            PathKind::Adapt => {},
        }
    }
    assert(e =~= Set::empty());
    assert(s.finite() && a.finite() && b.finite() && c.finite() && d.finite());
    assert(e.len() == 0);
    assert(d.len() == e.len() + (if d.contains(PathKind::Adapt) {
        1int
    } else {
        0
    }));
    assert(c.len() == d.len() + (if c.contains(PathKind::Echo) {
        1int
    } else {
        0
    }));
    assert(b.len() == c.len() + (if b.contains(PathKind::Retrieve) {
        1int
    } else {
        0
    }));
    assert(a.len() == b.len() + (if a.contains(PathKind::Markov) {
        1int
    } else {
        0
    }));
    assert(s.len() == a.len() + (if s.contains(PathKind::Trigger) {
        1int
    } else {
        0
    }));
    assert(s.contains(PathKind::Trigger) == ps.contains(PathKind::Trigger));
    assert(a.contains(PathKind::Markov) == ps.contains(PathKind::Markov));
    assert(b.contains(PathKind::Retrieve) == ps.contains(PathKind::Retrieve));
    assert(c.contains(PathKind::Echo) == ps.contains(PathKind::Echo));
    assert(d.contains(PathKind::Adapt) == ps.contains(PathKind::Adapt));
}

/// The counters of a stats line stand each behind its name.
pub proof fn law_stats_stand_behind_their_names(s: Stats)
    ensures
        text::holds(stats_head(s), "utterances="@ + text::digits(s.utterances as nat)),
        text::holds(stats_head(s), " learned="@ + text::digits(s.learned as nat)),
        text::holds(stats_head(s), " tokens="@ + text::digits(s.tokens as nat)),
        text::holds(stats_head(s), " vocab="@ + text::digits(s.vocab as nat)),
        text::holds(stats_head(s), " buf="@ + text::digits(s.buf as nat)),
{
    let a = "utterances="@ + text::digits(s.utterances as nat);
    let b = " learned="@ + text::digits(s.learned as nat);
    let c = " tokens="@ + text::digits(s.tokens as nat);
    let d = " vocab="@ + text::digits(s.vocab as nat);
    let e = " buf="@ + text::digits(s.buf as nat);
    let w = stats_head(s);
    assert(w =~= a + b + c + d + e);
    text::lemma_holds_part(Seq::empty(), a, b + c + d + e);
    assert(Seq::empty() + a + (b + c + d + e) =~= w);
    text::lemma_holds_part(a, b, c + d + e);
    assert(a + b + (c + d + e) =~= w);
    text::lemma_holds_part(a + b, c, d + e);
    assert(a + b + c + (d + e) =~= w);
    text::lemma_holds_part(a + b + c, d, e);
    text::lemma_holds_part(a + b + c + d, e, Seq::empty());
    assert(a + b + c + d + e + Seq::empty() =~= w);
}

} // verus!
