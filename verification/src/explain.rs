//! What a turn leaves behind for `/why`.
//!
//! Scores and probabilities are kept as bit patterns. Where they are shown, the host hands
//! in how they are written.
use crate::bits;
use crate::ids::TokenId;
use crate::text;
use vstd::prelude::*;

verus! {

#[derive(Debug, Clone, Copy, PartialEq, Eq, Structural)]
pub enum PathKind {
    Trigger,
    Markov,
    Retrieve,
    Echo,
    /// The reply that once followed a similar utterance, with content
    /// chunks substituted from the current input — plus quoted past user
    /// lines.
    Adapt,
}

pub open spec fn tag_of(p: PathKind) -> Seq<char> {
    match p {
        PathKind::Trigger => "trig"@,
        PathKind::Markov => "mark"@,
        PathKind::Retrieve => "retr"@,
        PathKind::Echo => "echo"@,
        PathKind::Adapt => "adpt"@,
    }
}

pub open spec fn name_of(p: PathKind) -> Seq<char> {
    match p {
        PathKind::Trigger => "Trigger"@,
        PathKind::Markov => "Markov"@,
        PathKind::Retrieve => "Retrieve"@,
        PathKind::Echo => "Echo"@,
        PathKind::Adapt => "Adapt"@,
    }
}

impl PathKind {
    /// Four letters for the source.
    pub fn tag(self) -> (r: &'static str)
        ensures
            r@ == tag_of(self),
    {
        match self {
            PathKind::Trigger => "trig",
            PathKind::Markov => "mark",
            PathKind::Retrieve => "retr",
            PathKind::Echo => "echo",
            PathKind::Adapt => "adpt",
        }
    }

    /// The source's name.
    pub fn name(self) -> (r: &'static str)
        ensures
            r@ == name_of(self),
    {
        match self {
            PathKind::Trigger => "Trigger",
            PathKind::Markov => "Markov",
            PathKind::Retrieve => "Retrieve",
            PathKind::Echo => "Echo",
            PathKind::Adapt => "Adapt",
        }
    }
}

#[derive(Debug, Clone, Copy)]
pub struct GenStep {
    pub ctx_len_requested: usize,
    pub ctx_len_used: usize,
    pub freq: u32,
    pub sampled: TokenId,
    pub temperature: u32,
    /// Sampling probability after temperature + nucleus (decode analog of logprobs).
    pub p: u32,
    pub logp: u32,
}

#[derive(Debug, Clone)]
pub struct CandidateTrace {
    pub rank: usize,
    pub source: PathKind,
    pub text: String,
    pub tokens: Vec<TokenId>,
    /// Topic cosine before source/rote adjustments.
    pub topic_score: u32,
    /// Ranking score (topic ± source prior − input-LCS penalty).
    pub score: u32,
    pub chosen: bool,
    /// Mean per-token information −ln p of the generation (generated candidates only).
    pub surprise: Option<u32>,
}

#[derive(Debug, Clone)]
pub struct TriggerTrace {
    pub pattern: String,
    pub similarity: u32,
    pub threshold: u32,
}

#[derive(Debug, Clone)]
pub struct Trace {
    pub seed: u64,
    pub path: PathKind,
    pub input: String,
    pub morphemes: Vec<String>,
    pub chunks: Vec<String>,
    pub topic_hits: usize,
    pub trigger: Option<TriggerTrace>,
    pub candidates: Vec<CandidateTrace>,
    pub chosen_rank: usize,
    pub slipped: bool,
    /// In units of 2^-53.
    pub slip_roll: u64,
    pub p_slip: u64,
    pub learned: bool,
    /// In units of 2^-53.
    pub learn_roll: u64,
    pub p_learn: u64,
    pub steps: Vec<GenStep>,
    pub elapsed_us: u64,
    pub novelty_lcs: usize,
    pub similarity: u32,
    pub band_hit: bool,
    /// Closed analog of a tool trace. None where routing was skipped.
    pub route: Option<String>,
    /// Path prior from `/good` `/bad`.
    pub path_prior: [u32; 5],
    /// 日和 line for this turn (name + effective dials). None when weather is off.
    pub weather: Option<String>,
    /// 合いの手 spoken before the reply this turn (display only).
    pub interject: Option<String>,
}

/// How the numbers of one candidate are written.
pub struct CandidateNumbers {
    pub score: String,
    pub topic: String,
    pub surprise: String,
}

/// How the numbers of a trace are written.
pub struct TraceNumbers {
    pub p_slip: String,
    pub slip_roll: String,
    pub p_learn: String,
    pub learn_roll: String,
    pub similarity: String,
    pub prior: [String; 5],
    pub trigger_similarity: String,
    pub trigger_threshold: String,
    pub candidates: Vec<CandidateNumbers>,
    pub steps: Vec<String>,
}

pub open spec fn bool_text(b: bool) -> Seq<char> {
    if b {
        "true"@
    } else {
        "false"@
    }
}

/// Writes a truth value.
pub fn put_bool(out: &mut Vec<char>, b: bool)
    ensures
        final(out)@ == old(out)@ + bool_text(b),
{
    if b {
        text::put_str(out, "true");
    } else {
        text::put_str(out, "false");
    }
}

/// Writes a number.
pub fn put_number(out: &mut Vec<char>, n: u64)
    ensures
        final(out)@ == old(out)@ + text::digits(n as nat),
{
    text::put(out, &text::decimal(n));
}

/// First two lines: path and learning.
pub open spec fn head_text(t: Trace, n: TraceNumbers) -> Seq<char> {
    "path="@ + name_of(t.path) + "  elapsed="@ + text::digits(t.elapsed_us as nat) + "us  slipped="@
        + bool_text(t.slipped) + " (p_slip="@ + n.p_slip@ + " roll="@ + n.slip_roll@ + ")\n"@
        + "learned="@ + bool_text(t.learned) + " (p_learn="@ + n.p_learn@ + " roll="@
        + n.learn_roll@ + ")\n"@
}

/// A line that is there only with a value.
pub open spec fn optional_line(o: Option<String>, before: Seq<char>, after: Seq<char>) -> Seq<char> {
    match o {
        Some(s) => before + s@ + after,
        None => Seq::empty(),
    }
}

/// Path priors, where one is not zero.
pub open spec fn prior_text(t: Trace, n: TraceNumbers) -> Seq<char> {
    if exists|i: int| 0 <= i < 5 && bits::key32(#[trigger] t.path_prior[i]) != 0 {
        "pref trig="@ + n.prior[0]@ + " mark="@ + n.prior[1]@ + " retr="@ + n.prior[2]@ + " echo="@
            + n.prior[3]@ + " adpt="@ + n.prior[4]@ + "\n"@
    } else {
        Seq::empty()
    }
}

/// How the input was cut.
pub open spec fn cut_text(t: Trace) -> Seq<char> {
    "morph=["@ + text::joined(text::texts(t.morphemes@), " / "@) + "]  chunk=["@ + text::joined(
        text::texts(t.chunks@),
        " / "@,
    ) + "]\n"@
}

pub open spec fn trigger_text(t: Trace, n: TraceNumbers) -> Seq<char> {
    match t.trigger {
        Some(tr) => "trigger \""@ + tr.pattern@ + "\" sim="@ + n.trigger_similarity@ + " θ="@
            + n.trigger_threshold@ + "\n"@,
        None => Seq::empty(),
    }
}

pub open spec fn outcome_text(t: Trace, n: TraceNumbers) -> Seq<char> {
    "sim="@ + n.similarity@ + " band_hit="@ + bool_text(t.band_hit) + " novelty_lcs="@
        + text::digits(t.novelty_lcs as nat) + "\n"@
}

/// A number at the left of a field of two.
pub open spec fn left_of_two(n: nat) -> Seq<char> {
    if text::digits(n).len() < 2 {
        text::digits(n) + " "@
    } else {
        text::digits(n)
    }
}

pub open spec fn candidate_text(c: CandidateTrace, n: CandidateNumbers) -> Seq<char> {
    " "@ + (if c.chosen {
        ">"@
    } else {
        " "@
    }) + " #"@ + left_of_two((c.rank + 1) as nat) + " "@ + n.score@ + " ["@ + tag_of(c.source)
        + "] topic="@ + n.topic@ + (if c.surprise is Some {
        " surp="@ + n.surprise@
    } else {
        Seq::empty()
    }) + "  "@ + c.text@ + "\n"@
}

pub open spec fn candidates_text(
    cs: Seq<CandidateTrace>,
    ns: Seq<CandidateNumbers>,
    k: int,
) -> Seq<char>
    decreases k,
{
    if k <= 0 {
        Seq::empty()
    } else {
        candidates_text(cs, ns, k - 1) + candidate_text(cs[k - 1], ns[k - 1])
    }
}

pub open spec fn step_text(s: GenStep, p: Seq<char>) -> Seq<char> {
    "  ctx "@ + text::digits(s.ctx_len_requested as nat) + "→"@ + text::digits(
        s.ctx_len_used as nat,
    ) + " f="@ + text::digits(s.freq as nat) + " tok="@ + text::digits(s.sampled as nat) + " p="@
        + p
}

pub open spec fn steps_text(ss: Seq<GenStep>, ps: Seq<String>, k: int) -> Seq<char>
    decreases k,
{
    if k <= 0 {
        Seq::empty()
    } else {
        steps_text(ss, ps, k - 1) + step_text(ss[k - 1], ps[k - 1]@)
    }
}

/// The whole of `/why`.
pub open spec fn why_text(t: Trace, n: TraceNumbers) -> Seq<char> {
    head_text(t, n) + optional_line(t.route, Seq::empty(), "\n"@) + optional_line(
        t.weather,
        "日和 "@,
        "\n"@,
    ) + optional_line(t.interject, "合いの手 「"@, "」\n"@) + prior_text(t, n) + cut_text(t)
        + trigger_text(t, n) + outcome_text(t, n) + candidates_text(
        t.candidates@,
        n.candidates@,
        t.candidates.len() as int,
    ) + (if t.steps.len() > 0 {
        "gen:"@ + steps_text(t.steps@, n.steps@, t.steps.len() as int) + "\n"@
    } else {
        Seq::empty()
    })
}

/// One candidate's line.
fn candidate_line(c: &CandidateTrace, m: &CandidateNumbers) -> (out: Vec<char>)
    requires
        c.rank < usize::MAX,
    ensures
        out@ == candidate_text(*c, *m),
{
    let mut num = text::decimal((c.rank + 1) as u64);
    if num.len() < 2 {
        text::put_str(&mut num, " ");
    }
    let mut surp: Vec<char> = Vec::new();
    if c.surprise.is_some() {
        text::put_str(&mut surp, " surp=");
        text::put_str(&mut surp, m.surprise.as_str());
        proof {
            assert(surp@ =~= " surp="@ + m.surprise@);
        }
    }
    let mut out = text::chars_of(" ");
    if c.chosen {
        text::put_str(&mut out, ">");
    } else {
        text::put_str(&mut out, " ");
    }
    text::put_str(&mut out, " #");
    text::put(&mut out, &num);
    text::put_str(&mut out, " ");
    text::put_str(&mut out, m.score.as_str());
    text::put_str(&mut out, " [");
    text::put_str(&mut out, c.source.tag());
    text::put_str(&mut out, "] topic=");
    text::put_str(&mut out, m.topic.as_str());
    text::put(&mut out, &surp);
    text::put_str(&mut out, "  ");
    text::put_str(&mut out, c.text.as_str());
    text::put_str(&mut out, "\n");
    out
}

/// One step of the generation chain.
fn step_line(st: &GenStep, p: &str) -> (out: Vec<char>)
    ensures
        out@ == step_text(*st, p@),
{
    let mut out = text::chars_of("  ctx ");
    put_number(&mut out, st.ctx_len_requested as u64);
    text::put_str(&mut out, "→");
    put_number(&mut out, st.ctx_len_used as u64);
    text::put_str(&mut out, " f=");
    put_number(&mut out, st.freq as u64);
    text::put_str(&mut out, " tok=");
    put_number(&mut out, st.sampled as u64);
    text::put_str(&mut out, " p=");
    text::put_str(&mut out, p);
    out
}

fn put_optional(out: &mut Vec<char>, o: &Option<String>, before: &str, after: &str)
    ensures
        final(out)@ == old(out)@ + optional_line(*o, before@, after@),
{
    match o {
        Some(s) => {
            text::put_str(out, before);
            text::put_str(out, s.as_str());
            text::put_str(out, after);
            proof {
                assert(out@ =~= old(out)@ + optional_line(*o, before@, after@));
            }
        },
        None => {
            proof {
                assert(out@ =~= old(out)@ + optional_line(*o, before@, after@));
            }
        },
    }
}

impl Trace {
    /// The numbers fit the trace.
    pub open spec fn fits(&self, n: TraceNumbers) -> bool {
        &&& n.candidates.len() == self.candidates.len()
        &&& n.steps.len() == self.steps.len()
        &&& forall|i: int|
            0 <= i < self.candidates.len() ==> (#[trigger] self.candidates[i]).rank < usize::MAX
    }

    fn put_head(&self, out: &mut Vec<char>, n: &TraceNumbers)
        ensures
            final(out)@ == old(out)@ + head_text(*self, *n),
    {
        text::put_str(out, "path=");
        text::put_str(out, self.path.name());
        text::put_str(out, "  elapsed=");
        put_number(out, self.elapsed_us);
        text::put_str(out, "us  slipped=");
        put_bool(out, self.slipped);
        text::put_str(out, " (p_slip=");
        text::put_str(out, n.p_slip.as_str());
        text::put_str(out, " roll=");
        text::put_str(out, n.slip_roll.as_str());
        text::put_str(out, ")\n");
        text::put_str(out, "learned=");
        put_bool(out, self.learned);
        text::put_str(out, " (p_learn=");
        text::put_str(out, n.p_learn.as_str());
        text::put_str(out, " roll=");
        text::put_str(out, n.learn_roll.as_str());
        text::put_str(out, ")\n");
        proof {
            assert(out@ =~= old(out)@ + head_text(*self, *n));
        }
    }

    fn put_prior(&self, out: &mut Vec<char>, n: &TraceNumbers)
        ensures
            final(out)@ == old(out)@ + prior_text(*self, *n),
    {
        let p = &self.path_prior;
        if bits::order32(p[0]) != 0 || bits::order32(p[1]) != 0 || bits::order32(p[2]) != 0
            || bits::order32(p[3]) != 0 || bits::order32(p[4]) != 0 {
            text::put_str(out, "pref trig=");
            text::put_str(out, n.prior[0].as_str());
            text::put_str(out, " mark=");
            text::put_str(out, n.prior[1].as_str());
            text::put_str(out, " retr=");
            text::put_str(out, n.prior[2].as_str());
            text::put_str(out, " echo=");
            text::put_str(out, n.prior[3].as_str());
            text::put_str(out, " adpt=");
            text::put_str(out, n.prior[4].as_str());
            text::put_str(out, "\n");
            proof {
                assert(exists|i: int| 0 <= i < 5 && bits::key32(#[trigger] self.path_prior[i]) != 0);
                assert(out@ =~= old(out)@ + prior_text(*self, *n));
            }
        } else {
            proof {
                assert(out@ =~= old(out)@ + prior_text(*self, *n));
            }
        }
    }

    fn put_middle(&self, out: &mut Vec<char>, n: &TraceNumbers)
        ensures
            final(out)@ == old(out)@ + cut_text(*self) + trigger_text(*self, *n) + outcome_text(
                *self,
                *n,
            ),
    {
        text::put_str(out, "morph=[");
        text::put_joined(out, &self.morphemes, " / ");
        text::put_str(out, "]  chunk=[");
        text::put_joined(out, &self.chunks, " / ");
        text::put_str(out, "]\n");
        proof {
            assert(out@ =~= old(out)@ + cut_text(*self));
        }
        let ghost one = out@;
        match &self.trigger {
            Some(t) => {
                text::put_str(out, "trigger \"");
                text::put_str(out, t.pattern.as_str());
                text::put_str(out, "\" sim=");
                text::put_str(out, n.trigger_similarity.as_str());
                text::put_str(out, " θ=");
                text::put_str(out, n.trigger_threshold.as_str());
                text::put_str(out, "\n");
            },
            None => {},
        }
        proof {
            assert(out@ =~= one + trigger_text(*self, *n));
        }
        let ghost two = out@;
        text::put_str(out, "sim=");
        text::put_str(out, n.similarity.as_str());
        text::put_str(out, " band_hit=");
        put_bool(out, self.band_hit);
        text::put_str(out, " novelty_lcs=");
        put_number(out, self.novelty_lcs as u64);
        text::put_str(out, "\n");
        proof {
            assert(out@ =~= two + outcome_text(*self, *n));
        }
    }

    fn put_candidates(&self, out: &mut Vec<char>, n: &TraceNumbers)
        requires
            self.fits(*n),
        ensures
            final(out)@ == old(out)@ + candidates_text(
                self.candidates@,
                n.candidates@,
                self.candidates.len() as int,
            ),
    {
        let mut i: usize = 0;
        proof {
            assert(out@ =~= out@ + candidates_text(self.candidates@, n.candidates@, 0));
        }
        while i < self.candidates.len()
            invariant
                self.fits(*n),
                i <= self.candidates.len(),
                out@ == old(out)@ + candidates_text(self.candidates@, n.candidates@, i as int),
            decreases self.candidates.len() - i,
        {
            assert(self.candidates@[i as int].rank < usize::MAX);
            let line = candidate_line(&self.candidates[i], &n.candidates[i]);
            text::put(out, &line);
            proof {
                assert(out@ =~= old(out)@ + candidates_text(
                    self.candidates@,
                    n.candidates@,
                    i + 1,
                ));
            }
            i += 1;
        }
    }

    fn put_steps(&self, out: &mut Vec<char>, n: &TraceNumbers)
        requires
            self.fits(*n),
        ensures
            final(out)@ == old(out)@ + (if self.steps.len() > 0 {
                "gen:"@ + steps_text(self.steps@, n.steps@, self.steps.len() as int) + "\n"@
            } else {
                Seq::empty()
            }),
    {
        if self.steps.len() == 0 {
            proof {
                assert(out@ =~= old(out)@ + Seq::<char>::empty());
            }
            return ;
        }
        text::put_str(out, "gen:");
        let mut i: usize = 0;
        proof {
            assert(out@ =~= old(out)@ + ("gen:"@ + steps_text(self.steps@, n.steps@, 0)));
        }
        while i < self.steps.len()
            invariant
                self.fits(*n),
                i <= self.steps.len(),
                out@ == old(out)@ + ("gen:"@ + steps_text(self.steps@, n.steps@, i as int)),
            decreases self.steps.len() - i,
        {
            let line = step_line(&self.steps[i], n.steps[i].as_str());
            text::put(out, &line);
            proof {
                assert(out@ =~= old(out)@ + ("gen:"@ + steps_text(self.steps@, n.steps@, i + 1)));
            }
            i += 1;
        }
        text::put_str(out, "\n");
        proof {
            assert(out@ =~= old(out)@ + ("gen:"@ + steps_text(
                self.steps@,
                n.steps@,
                self.steps.len() as int,
            ) + "\n"@));
        }
    }

    /// One line: path, learning, similarity and slip.
    pub fn explain_compact(&self, n: &TraceNumbers) -> (r: String)
        ensures
            r@ == "path="@ + name_of(self.path) + " learned="@ + bool_text(self.learned) + " sim="@
                + n.similarity@ + " slipped="@ + bool_text(self.slipped),
    {
        let mut out: Vec<char> = Vec::new();
        text::put_str(&mut out, "path=");
        text::put_str(&mut out, self.path.name());
        text::put_str(&mut out, " learned=");
        put_bool(&mut out, self.learned);
        text::put_str(&mut out, " sim=");
        text::put_str(&mut out, n.similarity.as_str());
        text::put_str(&mut out, " slipped=");
        put_bool(&mut out, self.slipped);
        proof {
            assert(out@ =~= "path="@ + name_of(self.path) + " learned="@ + bool_text(self.learned)
                + " sim="@ + n.similarity@ + " slipped="@ + bool_text(self.slipped));
        }
        text::string_of(&out)
    }

    /// The whole account of a turn.
    pub fn explain_text(&self, n: &TraceNumbers) -> (r: String)
        requires
            self.fits(*n),
        ensures
            r@ == why_text(*self, *n),
    {
        let mut out: Vec<char> = Vec::new();
        self.put_head(&mut out, n);
        proof {
            assert(out@ =~= head_text(*self, *n));
        }
        put_optional(&mut out, &self.route, "", "\n");
        proof {
            reveal_strlit("");
            assert(""@ =~= Seq::<char>::empty());
        }
        put_optional(&mut out, &self.weather, "日和 ", "\n");
        put_optional(&mut out, &self.interject, "合いの手 「", "」\n");
        self.put_prior(&mut out, n);
        self.put_middle(&mut out, n);
        self.put_candidates(&mut out, n);
        self.put_steps(&mut out, n);
        text::string_of(&out)
    }
}

/// Every source has a tag of four letters and a name of its own.
pub proof fn law_sources_have_names_of_their_own(p: PathKind, q: PathKind)
    ensures
        tag_of(p).len() == 4,
        tag_of(p) == tag_of(q) ==> p == q,
        name_of(p) == name_of(q) ==> p == q,
{
    reveal_strlit("trig");
    reveal_strlit("mark");
    reveal_strlit("retr");
    reveal_strlit("echo");
    reveal_strlit("adpt");
    reveal_strlit("Trigger");
    reveal_strlit("Markov");
    reveal_strlit("Retrieve");
    reveal_strlit("Echo");
    reveal_strlit("Adapt");
    assert(tag_of(p)[0] == tag_of(q)[0] ==> p == q);
    assert(name_of(p)[0] == name_of(q)[0] ==> p == q);
}

/// The candidates and the steps are listed one after the other.
pub proof fn law_lists_are_written_in_order(
    cs: Seq<CandidateTrace>,
    ns: Seq<CandidateNumbers>,
    ss: Seq<GenStep>,
    ps: Seq<String>,
    k: int,
)
    requires
        0 <= k,
    ensures
        candidates_text(cs, ns, k) == Seq::new(
            k as nat,
            |i: int| candidate_text(cs[i], ns[i]),
        ).flatten(),
        steps_text(ss, ps, k) == Seq::new(k as nat, |i: int| step_text(ss[i], ps[i]@)).flatten(),
    decreases k,
{
    let a = Seq::new(k as nat, |i: int| candidate_text(cs[i], ns[i]));
    let b = Seq::new(k as nat, |i: int| step_text(ss[i], ps[i]@));
    a.lemma_flatten_and_flatten_alt_are_equivalent();
    b.lemma_flatten_and_flatten_alt_are_equivalent();
    if k > 0 {
        law_lists_are_written_in_order(cs, ns, ss, ps, k - 1);
        let fa = Seq::new((k - 1) as nat, |i: int| candidate_text(cs[i], ns[i]));
        let fb = Seq::new((k - 1) as nat, |i: int| step_text(ss[i], ps[i]@));
        fa.lemma_flatten_and_flatten_alt_are_equivalent();
        fb.lemma_flatten_and_flatten_alt_are_equivalent();
        assert(a.drop_last() =~= fa);
        assert(b.drop_last() =~= fb);
    } else {
        assert(a =~= Seq::empty());
        assert(b =~= Seq::empty());
    }
}

/// A rank is shown at the left of a field of two, and in full where it needs more.
pub proof fn law_ranks_stand_at_the_left(n: nat)
    ensures
        left_of_two(n).len() >= 2,
        left_of_two(n).take(text::digits(n).len() as int) == text::digits(n),
        n < 10 ==> left_of_two(n).len() == 2 && left_of_two(n)[1] == ' ',
        n >= 10 ==> left_of_two(n) == text::digits(n),
{
    reveal_strlit(" ");
    text::law_digits_read_back(n);
    if n >= 10 {
        text::law_digits_read_back(n / 10);
    }
    assert(left_of_two(n).take(text::digits(n).len() as int) =~= text::digits(n));
}

/// The priors are shown where one of them is not zero, and only there; a line without a value
/// is left out.
pub proof fn law_what_is_empty_is_left_out(t: Trace, n: TraceNumbers, before: Seq<char>, after: Seq<char>)
    ensures
        (forall|i: int| 0 <= i < 5 ==> bits::key32(#[trigger] t.path_prior[i]) == 0) ==> prior_text(
            t,
            n,
        ).len() == 0,
        (exists|i: int| 0 <= i < 5 && bits::key32(#[trigger] t.path_prior[i]) != 0) ==> prior_text(
            t,
            n,
        ).len() > 0,
        optional_line(None, before, after).len() == 0,
        t.trigger is None ==> trigger_text(t, n).len() == 0,
        t.trigger is Some ==> trigger_text(t, n).len() > 0,
{
    reveal_strlit("pref trig=");
    reveal_strlit("trigger \"");
}

/// The first lines of a trace tell its path, whether it slipped, and whether it was absorbed,
/// each behind its name.
pub proof fn law_traces_tell_what_happened(t: Trace, n: TraceNumbers)
    ensures
        text::holds(head_text(t, n), "path="@ + name_of(t.path)),
        text::holds(head_text(t, n), "us  slipped="@ + bool_text(t.slipped)),
        text::holds(head_text(t, n), "learned="@ + bool_text(t.learned)),
        bool_text(true) != bool_text(false),
{
    reveal_strlit("true");
    reveal_strlit("false");
    assert(bool_text(true).len() == 4 && bool_text(false).len() == 5);
    let path = "path="@ + name_of(t.path);
    let slipped = "us  slipped="@ + bool_text(t.slipped);
    let learned = "learned="@ + bool_text(t.learned);
    let a = path + "  elapsed="@ + text::digits(t.elapsed_us as nat);
    let b = a + "us  slipped="@ + bool_text(t.slipped);
    let c = b + " (p_slip="@ + n.p_slip@ + " roll="@;
    let d = c + n.slip_roll@ + ")\n"@;
    let e = d + "learned="@ + bool_text(t.learned);
    let f = e + " (p_learn="@ + n.p_learn@ + " roll="@;
    assert(head_text(t, n) == f + n.learn_roll@ + ")\n"@);
    text::lemma_holds_end(Seq::empty(), path);
    text::lemma_holds_more(path, "  elapsed="@, path);
    text::lemma_holds_more(path + "  elapsed="@, text::digits(t.elapsed_us as nat), path);
    text::lemma_holds_more(a, "us  slipped="@, path);
    text::lemma_holds_more(a + "us  slipped="@, bool_text(t.slipped), path);
    text::lemma_holds_two(a, "us  slipped="@, bool_text(t.slipped));
    lemma_goes_on(b, n, t.learned, path);
    lemma_goes_on(b, n, t.learned, slipped);
    text::lemma_holds_two(d, "learned="@, bool_text(t.learned));
    lemma_ends(e, n, path);
    lemma_ends(e, n, slipped);
    lemma_ends(e, n, learned);
}

proof fn lemma_goes_on(b: Seq<char>, n: TraceNumbers, learned: bool, pat: Seq<char>)
    requires
        text::holds(b, pat),
    ensures
        text::holds(
            b + " (p_slip="@ + n.p_slip@ + " roll="@ + n.slip_roll@ + ")\n"@ + "learned="@
                + bool_text(learned),
            pat,
        ),
{
    let c = b + " (p_slip="@ + n.p_slip@ + " roll="@;
    text::lemma_holds_more3(b, " (p_slip="@, n.p_slip@, " roll="@, pat);
    text::lemma_holds_more3(c, n.slip_roll@, ")\n"@, "learned="@, pat);
    text::lemma_holds_more(c + n.slip_roll@ + ")\n"@ + "learned="@, bool_text(learned), pat);
}

proof fn lemma_ends(e: Seq<char>, n: TraceNumbers, pat: Seq<char>)
    requires
        text::holds(e, pat),
    ensures
        text::holds(
            e + " (p_learn="@ + n.p_learn@ + " roll="@ + n.learn_roll@ + ")\n"@,
            pat,
        ),
{
    let f = e + " (p_learn="@ + n.p_learn@ + " roll="@;
    text::lemma_holds_more3(e, " (p_learn="@, n.p_learn@, " roll="@, pat);
    text::lemma_holds_more(f, n.learn_roll@, pat);
    text::lemma_holds_more(f + n.learn_roll@, ")\n"@, pat);
}

/// The outcome tells similarity, band and repetition, each behind its name.
pub proof fn law_the_outcome_is_told(t: Trace, n: TraceNumbers)
    ensures
        text::holds(outcome_text(t, n), "sim="@ + n.similarity@),
        text::holds(outcome_text(t, n), " band_hit="@ + bool_text(t.band_hit)),
        text::holds(outcome_text(t, n), " novelty_lcs="@ + text::digits(t.novelty_lcs as nat)),
{
    let o = "sim="@ + n.similarity@;
    let hit = " band_hit="@ + bool_text(t.band_hit);
    let lcs = " novelty_lcs="@ + text::digits(t.novelty_lcs as nat);
    let h = o + " band_hit="@ + bool_text(t.band_hit);
    let v = h + " novelty_lcs="@ + text::digits(t.novelty_lcs as nat);
    assert(outcome_text(t, n) == v + "\n"@);
    text::lemma_holds_end(Seq::empty(), o);
    text::lemma_holds_more(o, " band_hit="@, o);
    text::lemma_holds_more(o + " band_hit="@, bool_text(t.band_hit), o);
    text::lemma_holds_two(o, " band_hit="@, bool_text(t.band_hit));
    text::lemma_holds_two(h, " novelty_lcs="@, text::digits(t.novelty_lcs as nat));
    text::lemma_holds_more3(
        h,
        " novelty_lcs="@,
        text::digits(t.novelty_lcs as nat),
        "\n"@,
        o,
    );
    text::lemma_holds_more3(
        h,
        " novelty_lcs="@,
        text::digits(t.novelty_lcs as nat),
        "\n"@,
        hit,
    );
    text::lemma_holds_more(v, "\n"@, lcs);
}

/// A candidate's line tells its rank, counted from one, and its source; a mark shows the chosen
/// one.
pub proof fn law_candidates_are_listed_by_rank(c: CandidateTrace, m: CandidateNumbers)
    ensures
        text::holds(candidate_text(c, m), " #"@ + left_of_two((c.rank + 1) as nat)),
        text::holds(candidate_text(c, m), " ["@ + tag_of(c.source)),
        candidate_text(c, m).len() > 1,
        candidate_text(c, m)[1] == (if c.chosen {
            '>'
        } else {
            ' '
        }),
{
    reveal_strlit(" ");
    reveal_strlit(">");
    let star = " "@ + (if c.chosen {
        ">"@
    } else {
        " "@
    });
    let surp = if c.surprise is Some {
        " surp="@ + m.surprise@
    } else {
        Seq::empty()
    };
    let rank = " #"@ + left_of_two((c.rank + 1) as nat);
    let tag = " ["@ + tag_of(c.source);
    let a = star + " #"@ + left_of_two((c.rank + 1) as nat);
    let b = a + " "@ + m.score@;
    let d = b + " ["@ + tag_of(c.source);
    let e = d + "] topic="@ + m.topic@ + surp;
    assert(candidate_text(c, m) == e + "  "@ + c.text@ + "\n"@);
    text::lemma_holds_two(star, " #"@, left_of_two((c.rank + 1) as nat));
    text::lemma_holds_more3(a, " "@, m.score@, " ["@, rank);
    text::lemma_holds_more(b + " ["@, tag_of(c.source), rank);
    text::lemma_holds_two(b, " ["@, tag_of(c.source));
    text::lemma_holds_more3(d, "] topic="@, m.topic@, surp, rank);
    text::lemma_holds_more3(d, "] topic="@, m.topic@, surp, tag);
    text::lemma_holds_more3(e, "  "@, c.text@, "\n"@, rank);
    text::lemma_holds_more3(e, "  "@, c.text@, "\n"@, tag);
    assert(a[1] == star[1]);
    assert(b[1] == a[1]);
    assert(d[1] == b[1]);
    assert(e[1] == d[1]);
}

/// A trace shows all of its parts.
pub proof fn law_traces_show_all_parts(t: Trace, n: TraceNumbers)
    ensures
        text::holds(why_text(t, n), head_text(t, n)),
        text::holds(why_text(t, n), prior_text(t, n)),
        text::holds(why_text(t, n), cut_text(t)),
        text::holds(why_text(t, n), trigger_text(t, n)),
        text::holds(why_text(t, n), outcome_text(t, n)),
{
    let head = head_text(t, n);
    let route = optional_line(t.route, Seq::empty(), "\n"@);
    let sky = optional_line(t.weather, "日和 "@, "\n"@);
    let beat = optional_line(t.interject, "合いの手 「"@, "」\n"@);
    let prior = prior_text(t, n);
    let cut = cut_text(t);
    let hit = trigger_text(t, n);
    let out = outcome_text(t, n);
    let cands = candidates_text(t.candidates@, n.candidates@, t.candidates.len() as int);
    let steps = if t.steps.len() > 0 {
        "gen:"@ + steps_text(t.steps@, n.steps@, t.steps.len() as int) + "\n"@
    } else {
        Seq::empty()
    };
    let a = head + route + sky + beat;
    let b = a + prior + cut + hit;
    assert(why_text(t, n) == b + out + cands + steps);
    text::lemma_holds_end(Seq::empty(), head);
    text::lemma_holds_more3(head, route, sky, beat, head);
    text::lemma_holds_more3(a, prior, cut, hit, head);
    text::lemma_holds_more3(b, out, cands, steps, head);
    text::lemma_holds_end(a, prior);
    text::lemma_holds_more(a + prior, cut, prior);
    text::lemma_holds_more(a + prior + cut, hit, prior);
    text::lemma_holds_more3(b, out, cands, steps, prior);
    text::lemma_holds_end(a + prior, cut);
    text::lemma_holds_more(a + prior + cut, hit, cut);
    text::lemma_holds_more3(b, out, cands, steps, cut);
    text::lemma_holds_end(a + prior + cut, hit);
    text::lemma_holds_more3(b, out, cands, steps, hit);
    text::lemma_holds_end(b, out);
    text::lemma_holds_more(b + out, cands, out);
    text::lemma_holds_more(b + out + cands, steps, out);
}

} // verus!
