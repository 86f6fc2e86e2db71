//! Unsupervised Japanese-oriented tokenizer.
//!
//! Two layers:
//! 1. **Morphemes** — Unicode script runs, then branching-entropy / accessor-variety
//!    cuts inside CJK runs (no dictionary, no labelled data).
//! 2. **Statistical chunks** — adjacent morphemes grouped into Markov units.
//!    We do not insist on bunsetsu; chunks exist to keep Markov slightly grammatical.
//!
//! The entropy scores are computed by the host from the counts of the model, and come in as
//! bit patterns.
use crate::bits;
use crate::charclass;
use crate::charclass::Class;
use crate::entropy;
use crate::entropy::EntropyModel;
use crate::ids;
use crate::ids::TokenId;
use crate::intern;
use crate::intern::Interner;
use crate::params::Params;
use crate::text;
use vstd::prelude::*;

verus! {

/// Two neighbours in one CJK script: only between such does a score count.
pub open spec fn same_script(chars: Seq<char>, i: int) -> bool {
    &&& 0 <= i < chars.len() - 1
    &&& charclass::class_of(chars[i]) == charclass::class_of(chars[i + 1])
    &&& charclass::cjk(charclass::class_of(chars[i]))
}

/// The score of a cut behind `i`.
pub open spec fn score_of(chars: Seq<char>, scores: Seq<u64>, i: int) -> int {
    if same_script(chars, i) && i < scores.len() {
        bits::key64(scores[i])
    } else {
        0
    }
}

/// A text with what decides where it is cut.
pub struct Cutting {
    pub chars: Seq<char>,
    /// Bit patterns of the scores of a cut behind each character.
    pub scores: Seq<u64>,
    /// Bit pattern of the score that a cut needs.
    pub cut: u64,
    /// Whether scores decide, or every CJK character stands alone.
    pub ready: bool,
}

impl Cutting {
    /// The score behind `i` is high enough and no lower than its neighbours.
    pub open spec fn peak(self, i: int) -> bool {
        let here = score_of(self.chars, self.scores, i);
        &&& here >= bits::key64(self.cut)
        &&& here >= score_of(self.chars, self.scores, i - 1)
        &&& here >= score_of(self.chars, self.scores, i + 1)
    }

    /// There is a cut in front of `i`.
    pub open spec fn cuts(self, i: int) -> bool {
        ||| i <= 0
        ||| i >= self.chars.len()
        ||| charclass::class_of(self.chars[i - 1]) != charclass::class_of(self.chars[i])
        ||| self.ready && self.peak(i - 1)
        ||| !self.ready && (charclass::cjk(charclass::class_of(self.chars[i - 1]))
            || charclass::cjk(charclass::class_of(self.chars[i])))
    }

    /// The last cut up to `i`.
    pub open spec fn last_cut(self, i: int) -> int
        decreases i,
    {
        if i <= 0 || self.cuts(i) {
            i
        } else {
            self.last_cut(i - 1)
        }
    }

    /// Nothing but white space.
    pub open spec fn blank(self, lo: int, hi: int) -> bool {
        forall|k: int|
            lo <= k < hi ==> charclass::class_of(#[trigger] self.chars[k]) == Class::Ws
    }

    /// The stretches between cuts up to `k`, but for blank ones.
    pub open spec fn spans(self, k: int) -> Seq<(int, int)>
        decreases k,
    {
        if k <= 0 {
            Seq::empty()
        } else {
            let before = self.spans(k - 1);
            let lo = self.last_cut(k - 1);
            if self.cuts(k) && !self.blank(lo, k) {
                before.push((lo, k))
            } else {
                before
            }
        }
    }

    /// The morphemes.
    pub open spec fn morphs(self) -> Seq<Seq<char>> {
        self.spans(self.chars.len() as int).map_values(
            |s: (int, int)| self.chars.subrange(s.0, s.1),
        )
    }

    proof fn lemma_covered(self, k: int, i: int) -> (j: int)
        requires
            0 <= i < self.last_cut(k),
            0 <= k <= self.chars.len(),
            charclass::class_of(self.chars[i]) != Class::Ws,
        ensures
            0 <= j < self.spans(k).len(),
            self.spans(k)[j].0 <= i < self.spans(k)[j].1,
        decreases k,
    {
        self.lemma_spans(k - 1);
        if self.cuts(k) {
            let lo = self.last_cut(k - 1);
            if i >= lo {
                assert(!self.blank(lo, k));
                self.spans(k).len() - 1
            } else {
                self.lemma_covered(k - 1, i)
            }
        } else {
            self.lemma_covered(k - 1, i)
        }
    }

    proof fn lemma_spans(self, k: int)
        requires
            0 <= k <= self.chars.len(),
        ensures
            self.spans(k).len() <= k,
            0 <= self.last_cut(k) <= k,
            forall|j: int|
                0 <= j < self.spans(k).len() ==> 0 <= (#[trigger] self.spans(k)[j]).0 < self.spans(
                    k,
                )[j].1 <= k,
        decreases k,
    {
        if k > 0 {
            self.lemma_spans(k - 1);
        }
    }
}

/// Chunks of a list of morphemes: what is done, what is being gathered, and of how many.
pub struct Chunking {
    pub out: Seq<Seq<char>>,
    pub buf: Seq<char>,
    pub n: int,
}

/// The chunking after the first `j` morphemes: punctuation stands alone, other morphemes are
/// gathered by `k`.
pub open spec fn chunking(ms: Seq<Seq<char>>, k: int, j: int) -> Chunking
    decreases j,
{
    if j <= 0 {
        Chunking { out: Seq::empty(), buf: Seq::empty(), n: 0 }
    } else {
        let c = chunking(ms, k, j - 1);
        let m = ms[j - 1];
        if charclass::punct_only(m) {
            if c.buf.len() > 0 {
                Chunking { out: c.out.push(c.buf).push(m), buf: Seq::empty(), n: 0 }
            } else {
                Chunking { out: c.out.push(m), buf: c.buf, n: c.n }
            }
        } else if c.n + 1 >= k {
            Chunking { out: c.out.push(c.buf + m), buf: Seq::empty(), n: 0 }
        } else {
            Chunking { out: c.out, buf: c.buf + m, n: c.n + 1 }
        }
    }
}

/// The chunks of a list of morphemes.
pub open spec fn chunks_of(ms: Seq<Seq<char>>, k: int) -> Seq<Seq<char>> {
    let c = chunking(ms, k, ms.len() as int);
    if c.buf.len() > 0 {
        c.out.push(c.buf)
    } else {
        c.out
    }
}

proof fn lemma_chunking(ms: Seq<Seq<char>>, k: int, j: int)
    requires
        0 <= j <= ms.len(),
        forall|i: int| 0 <= i < ms.len() ==> (#[trigger] ms[i]).len() > 0,
    ensures
        chunking(ms, k, j).out.len() + (if chunking(ms, k, j).buf.len() > 0 {
            1int
        } else {
            0
        }) <= j,
        0 <= chunking(ms, k, j).n <= j,
        forall|i: int|
            0 <= i < chunking(ms, k, j).out.len() ==> (#[trigger] chunking(ms, k, j).out[i]).len()
                > 0,
    decreases j,
{
    if j > 0 {
        lemma_chunking(ms, k, j - 1);
        assert(ms[j - 1].len() > 0);
    }
}

/// The ids of a list of texts.
pub open spec fn ids_of(p: intern::Vocab, ss: Seq<Seq<char>>) -> Seq<u32> {
    ss.map_values(|s: Seq<char>| p.ids[s])
}

#[derive(Debug)]
pub struct Tokenized {
    pub morphemes: Vec<TokenId>,
    pub chunks: Vec<TokenId>,
}

pub struct Tokenizer {
    pub model: EntropyModel,
    /// Bit pattern of the score that a cut needs.
    pub cut: u64,
    pub chunk_morphs: usize,
}

impl Tokenizer {
    pub open spec fn wf(&self) -> bool {
        self.model.wf() && self.chunk_morphs >= 1
    }

    /// A text as this tokenizer cuts it.
    pub open spec fn cutting(&self, s: Seq<char>, scores: Seq<u64>) -> Cutting {
        Cutting { chars: s, scores, cut: self.cut, ready: self.model.total_chars >= 256 }
    }

    /// The morphemes of a text.
    pub open spec fn morphs(&self, s: Seq<char>, scores: Seq<u64>) -> Seq<Seq<char>> {
        self.cutting(s, scores).morphs()
    }

    /// The chunks of a text.
    pub open spec fn chunks(&self, s: Seq<char>, scores: Seq<u64>) -> Seq<Seq<char>> {
        chunks_of(self.morphs(s, scores), self.chunk_morphs as int)
    }

    pub fn new(params: &Params) -> (r: Self)
        ensures
            r.wf(),
            r.model.max_n == (if params.entropy_n < 2 {
                2
            } else {
                params.entropy_n
            }),
            r.model.total_chars == 0,
            forall|g: Seq<u32>| #[trigger] r.model.gram_count(g) == 0,
            forall|g: Seq<u32>, c: u32| #[trigger] r.model.next_count(g, c) == 0,
            r.cut == params.entropy_cut,
            r.chunk_morphs == (if params.chunk_morphs < 1 {
                1
            } else {
                params.chunk_morphs
            }),
    {
        Tokenizer {
            model: EntropyModel::new(params.entropy_n),
            cut: params.entropy_cut,
            chunk_morphs: if params.chunk_morphs < 1 {
                1
            } else {
                params.chunk_morphs
            },
        }
    }

    /// Counts the grams of a text.
    pub fn observe(&mut self, text: &str)
        requires
            old(self).wf(),
            old(self).model.total_chars + text@.len() < u32::MAX,
        ensures
            final(self).wf(),
            final(self).cut == old(self).cut,
            final(self).chunk_morphs == old(self).chunk_morphs,
            final(self).model.max_n == old(self).model.max_n,
            final(self).model.total_chars == old(self).model.total_chars + text@.len(),
            forall|g: Seq<u32>| #[trigger]
                final(self).model.gram_count(g) == entropy::saturated(
                    old(self).model.gram_count(g) + entropy::gram_hits(
                        entropy::codes(text@),
                        g,
                        old(self).model.max_n as int,
                    ),
                ),
            forall|g: Seq<u32>, c: u32| #[trigger]
                final(self).model.next_count(g, c) == old(self).model.next_count(g, c)
                    + entropy::next_hits(
                    entropy::codes(text@),
                    g,
                    old(self).model.max_n as int,
                    c,
                ),
    {
        self.model.observe(text);
    }

    /// The gram whose statistics score a cut behind `i`: the longest that ends there.
    pub fn cut_gram(&self, chars: &Vec<u32>, i: usize) -> (r: Vec<u32>)
        requires
            i < chars.len(),
        ensures
            r@ == chars@.subrange(
                (if self.model.max_n < i + 1 {
                    i + 1 - self.model.max_n
                } else {
                    0
                }),
                i + 1,
            ),
    {
        let n: usize = if self.model.max_n < i + 1 {
            self.model.max_n
        } else {
            i + 1
        };
        entropy::run_of(chars, i + 1 - n, i + 1)
    }

    /// Whether a score decides about a cut behind `i`: the model has seen enough, and the two
    /// neighbours are of one CJK script.
    pub fn wants_score(&self, chars: &Vec<char>, i: usize) -> (r: bool)
        ensures
            r == (self.model.total_chars >= 256 && same_script(chars@, i as int)),
    {
        self.model.ready() && scored(chars, i)
    }

    /// Splits a text into morphemes, as ranges of characters.
    pub fn morph_spans(&self, chars: &Vec<char>, scores: &Vec<u64>) -> (r: Vec<(usize, usize)>)
        ensures
            r.len() == self.cutting(chars@, scores@).spans(chars.len() as int).len(),
            forall|j: int|
                0 <= j < r.len() ==> (#[trigger] r[j]).0 == self.cutting(chars@, scores@).spans(
                    chars.len() as int,
                )[j].0 && r[j].1 == self.cutting(chars@, scores@).spans(chars.len() as int)[j].1,
    {
        let ghost cut = self.cutting(chars@, scores@);
        let ready: bool = self.model.ready();
        let n: usize = chars.len();
        let mut out: Vec<(usize, usize)> = Vec::new();
        let mut start: usize = 0;
        let mut i: usize = 0;
        while i < n
            invariant
                n == chars.len(),
                cut == self.cutting(chars@, scores@),
                ready == cut.ready,
                i <= n,
                start == cut.last_cut(i as int),
                start <= i,
                out.len() == cut.spans(i as int).len(),
                forall|j: int|
                    0 <= j < out.len() ==> (#[trigger] out[j]).0 == cut.spans(i as int)[j].0
                        && out[j].1 == cut.spans(i as int)[j].1,
            decreases n - i,
        {
            i += 1;
            let cuts: bool = i == n || charclass::class(chars[i - 1]) != charclass::class(chars[i])
                || (if ready {
                let here: i64 = score_at(chars, scores, i - 1);
                let left: i64 = if i == 1 {
                    0
                } else {
                    score_at(chars, scores, i - 2)
                };
                let right: i64 = score_at(chars, scores, i);
                here >= bits::order64(self.cut) && here >= left && here >= right
            } else {
                charclass::is_cjk(charclass::class(chars[i - 1])) || charclass::is_cjk(
                    charclass::class(chars[i]),
                )
            });
            assert(cuts == cut.cuts(i as int));
            if cuts {
                if !all_blank(chars, start, i) {
                    out.push((start, i));
                }
                start = i;
            }
        }
        out
    }

    /// Splits a text into morphemes and chunks, and interns them.
    pub fn tokenize(&self, intern: &mut Interner, text: &str, scores: &Vec<u64>) -> (r: Tokenized)
        requires
            self.wf(),
            old(intern).wf(),
            old(intern)@.strings.len() + 2 * text@.len() <= u32::MAX,
        ensures
            final(intern).wf(),
            intern::dense(old(intern)@) ==> intern::dense(final(intern)@),
            final(intern)@ == intern::with_all(
                old(intern)@,
                self.morphs(text@, scores@) + self.chunks(text@, scores@),
            ),
            final(intern)@.strings.len() <= old(intern)@.strings.len() + 2 * text@.len(),
            r.morphemes@ == ids_of(final(intern)@, self.morphs(text@, scores@)),
            r.chunks@ == ids_of(final(intern)@, self.chunks(text@, scores@)),
            r.chunks.len() <= text@.len(),
            forall|i: int|
                0 <= i < r.chunks.len() ==> ids::FIRST_USER <= #[trigger] r.chunks[i]
                    < final(intern)@.strings.len(),
    {
        let chars = text::chars_of(text);
        let spans = self.morph_spans(&chars, scores);
        let ghost cut = self.cutting(text@, scores@);
        let ghost ms = self.morphs(text@, scores@);
        let ghost p0 = intern@;
        proof {
            cut.lemma_spans(text@.len() as int);
        }
        let mut morphemes: Vec<TokenId> = Vec::new();
        let mut i: usize = 0;
        while i < spans.len()
            invariant
                chars@ == text@,
                cut == self.cutting(text@, scores@),
                ms == cut.morphs(),
                spans.len() == cut.spans(text@.len() as int).len(),
                spans.len() == ms.len(),
                ms.len() <= text@.len(),
                forall|j: int|
                    0 <= j < spans.len() ==> (#[trigger] spans[j]).0 == cut.spans(
                        text@.len() as int,
                    )[j].0 && spans[j].1 == cut.spans(text@.len() as int)[j].1,
                forall|j: int|
                    0 <= j < cut.spans(text@.len() as int).len() ==> 0 <= (#[trigger] cut.spans(
                        text@.len() as int,
                    )[j]).0 < cut.spans(text@.len() as int)[j].1 <= text@.len(),
                i <= spans.len(),
                intern.wf(),
                intern::vocab_wf(p0),
                p0.strings.len() + 2 * text@.len() <= u32::MAX,
                intern@ == intern::with_all(p0, ms.subrange(0, i as int)),
                morphemes.len() == i,
                forall|j: int|
                    0 <= j < i ==> intern@.ids.dom().contains(#[trigger] ms[j]) && morphemes[j]
                        == intern@.ids[ms[j]],
            decreases spans.len() - i,
        {
            let (lo, hi) = spans[i];
            assert(cut.spans(text@.len() as int)[i as int].0 == lo);
            let word = text::string_of(&text::slice_of(&chars, lo, hi));
            proof {
                assert(word@ == ms[i as int]);
                intern::lemma_with_all(p0, ms.subrange(0, i as int));
                assert(ms.subrange(0, i + 1).drop_last() =~= ms.subrange(0, i as int));
                assert(ms.subrange(0, i + 1).last() == ms[i as int]);
                intern::law_intern_keeps(intern@, word@);
            }
            let id = intern.intern(word.as_str());
            morphemes.push(id);
            i += 1;
        }
        proof {
            assert(ms.subrange(0, i as int) =~= ms);
            intern::lemma_with_all(p0, ms);
            assert forall|j: int| 0 <= j < ms.len() implies (#[trigger] ms[j]).len() > 0 by {
                assert(cut.spans(text@.len() as int)[j].0 < cut.spans(text@.len() as int)[j].1);
            }
        }
        let ghost p1 = intern@;
        let chunks = chunk_intern(intern, &morphemes, self.chunk_morphs, Ghost(ms));
        proof {
            let cs = chunks_of(ms, self.chunk_morphs as int);
            lemma_chunking(ms, self.chunk_morphs as int, ms.len() as int);
            intern::lemma_with_all_add(p0, ms, cs);
            intern::lemma_with_all(p0, ms + cs);
            intern::lemma_with_all(p1, cs);
            assert forall|j: int| 0 <= j < ms.len() implies morphemes@[j] == ids_of(intern@, ms)[j] by {
                assert(p1.ids.dom().contains(ms[j]));
            }
            assert(morphemes@ =~= ids_of(intern@, ms));
        }
        Tokenized { morphemes, chunks }
    }
}

/// Two neighbours in one CJK script.
fn scored(chars: &Vec<char>, i: usize) -> (r: bool)
    ensures
        r == same_script(chars@, i as int),
{
    if i >= chars.len() || i + 1 >= chars.len() {
        return false;
    }
    let c = charclass::class(chars[i]);
    c == charclass::class(chars[i + 1]) && charclass::is_cjk(c)
}

/// The score of a cut behind `i`.
fn score_at(chars: &Vec<char>, scores: &Vec<u64>, i: usize) -> (r: i64)
    ensures
        r == score_of(chars@, scores@, i as int),
{
    if i < scores.len() && scored(chars, i) {
        bits::order64(scores[i])
    } else {
        0
    }
}

/// Whether a stretch is nothing but white space.
fn all_blank(chars: &Vec<char>, lo: usize, hi: usize) -> (r: bool)
    requires
        lo <= hi <= chars.len(),
    ensures
        r == (forall|k: int|
            lo <= k < hi ==> charclass::class_of(#[trigger] chars@[k]) == Class::Ws),
{
    let mut i: usize = lo;
    while i < hi
        invariant
            lo <= i <= hi <= chars.len(),
            forall|k: int| lo <= k < i ==> charclass::class_of(#[trigger] chars@[k]) == Class::Ws,
        decreases hi - i,
    {
        if charclass::class(chars[i]) != Class::Ws {
            assert(charclass::class_of(chars@[i as int]) != Class::Ws);
            return false;
        }
        i += 1;
    }
    true
}

/// Groups morphemes into chunks and interns them.
fn chunk_intern(intern: &mut Interner, morphs: &Vec<TokenId>, k: usize, Ghost(ms): Ghost<Seq<Seq<char>>>) -> (out: Vec<TokenId>)
    requires
        old(intern).wf(),
        k >= 1,
        old(intern)@.strings.len() + ms.len() <= u32::MAX,
        morphs.len() == ms.len(),
        forall|j: int|
            0 <= j < ms.len() ==> (#[trigger] ms[j]).len() > 0 && old(intern)@.ids.dom().contains(
                ms[j],
            ) && old(intern)@.ids[ms[j]] == morphs[j],
    ensures
        final(intern).wf(),
        intern::dense(old(intern)@) ==> intern::dense(final(intern)@),
        final(intern)@ == intern::with_all(old(intern)@, chunks_of(ms, k as int)),
        out@ == ids_of(final(intern)@, chunks_of(ms, k as int)),
        forall|i: int|
            0 <= i < out.len() ==> ids::FIRST_USER <= #[trigger] out[i]
                < final(intern)@.strings.len(),
{
    let ghost p0 = intern@;
    let mut out: Vec<TokenId> = Vec::new();
    let mut buf: Vec<char> = Vec::new();
    let mut n: usize = 0;
    let mut i: usize = 0;
    while i < morphs.len()
        invariant
            i <= morphs.len(),
            morphs.len() == ms.len(),
            k >= 1,
            intern::vocab_wf(p0),
            p0.strings.len() + ms.len() <= u32::MAX,
            forall|j: int|
                0 <= j < ms.len() ==> (#[trigger] ms[j]).len() > 0 && p0.ids.dom().contains(ms[j])
                    && p0.ids[ms[j]] == morphs[j],
            intern.wf(),
            intern@ == intern::with_all(p0, chunking(ms, k as int, i as int).out),
            out@ == ids_of(intern@, chunking(ms, k as int, i as int).out),
            buf@ == chunking(ms, k as int, i as int).buf,
            n == chunking(ms, k as int, i as int).n,
        decreases morphs.len() - i,
    {
        let id: TokenId = morphs[i];
        let ghost c = chunking(ms, k as int, i as int);
        proof {
            lemma_chunking(ms, k as int, i as int);
            lemma_chunking(ms, k as int, i + 1);
            assert(ms[i as int].len() > 0);
            intern::lemma_with_all(p0, c.out);
            assert(intern@.ids[ms[i as int]] == id);
            assert(intern::text_of(intern@, id) == ms[i as int]);
        }
        let word = intern.get(id).to_owned();
        if charclass::is_punct_str(word.as_str()) {
            if buf.len() > 0 {
                let s = text::string_of(&buf);
                let ghost before = intern@;
                let chunk = intern.intern(s.as_str());
                proof {
                    lemma_ids_push(p0, before, c.out, c.buf);
                }
                out.push(chunk);
                buf = Vec::new();
                n = 0;
                proof {
                    let o = c.out.push(c.buf);
                    assert(intern@ == intern::with_all(p0, o)) by {
                        assert(o.drop_last() =~= c.out);
                    }
                    assert(out@ =~= ids_of(intern@, o));
                }
            }
            proof {
                let o = chunking(ms, k as int, i + 1).out;
                let b = o.drop_last();
                assert(b =~= (if c.buf.len() > 0 {
                    c.out.push(c.buf)
                } else {
                    c.out
                }));
                assert(o.last() == ms[i as int]);
                intern::lemma_with_all(p0, b);
                assert(intern@.ids.dom().contains(ms[i as int]));
                assert(intern::with_all(p0, o) == intern@);
                assert(ids_of(intern@, o) =~= ids_of(intern@, b).push(id));
            }
            out.push(id);
        } else {
            text::put_str(&mut buf, word.as_str());
            n += 1;
            if n >= k {
                let s = text::string_of(&buf);
                let ghost before = intern@;
                let chunk = intern.intern(s.as_str());
                proof {
                    lemma_ids_push(p0, before, c.out, s@);
                    let o = c.out.push(s@);
                    assert(o.drop_last() =~= c.out);
                }
                out.push(chunk);
                buf = Vec::new();
                n = 0;
                proof {
                    assert(out@ =~= ids_of(intern@, c.out.push(s@)));
                }
            }
        }
        i += 1;
    }
    let ghost c = chunking(ms, k as int, i as int);
    proof {
        lemma_chunking(ms, k as int, i as int);
        intern::lemma_with_all(p0, c.out);
    }
    if buf.len() > 0 {
        let s = text::string_of(&buf);
        let ghost before = intern@;
        let chunk = intern.intern(s.as_str());
        proof {
            lemma_ids_push(p0, before, c.out, c.buf);
            assert(c.out.push(c.buf).drop_last() =~= c.out);
        }
        out.push(chunk);
        proof {
            assert(out@ =~= ids_of(intern@, c.out.push(c.buf)));
        }
    }
    proof {
        let cs = chunks_of(ms, k as int);
        intern::lemma_with_all(p0, cs);
        assert forall|j: int| 0 <= j < out.len() implies ids::FIRST_USER <= #[trigger] out[j]
            < intern@.strings.len() by {
            assert(intern@.ids.dom().contains(cs[j]));
        }
    }
    out
}

/// Interning one more string keeps the ids of those interned.
proof fn lemma_ids_push(p0: intern::Vocab, p: intern::Vocab, ss: Seq<Seq<char>>, s: Seq<char>)
    requires
        intern::vocab_wf(p0),
        p == intern::with_all(p0, ss),
        p0.strings.len() + ss.len() <= u32::MAX,
    ensures
        ids_of(intern::with(p, s), ss) == ids_of(p, ss),
        intern::with(p, s).ids.dom().contains(s),
{
    intern::lemma_with_all(p0, ss);
    intern::law_intern_keeps(p, s);
    assert forall|j: int| 0 <= j < ss.len() implies ids_of(intern::with(p, s), ss)[j] == ids_of(
        p,
        ss,
    )[j] by {
        assert(p.ids.dom().contains(ss[j]));
    }
    assert(ids_of(intern::with(p, s), ss) =~= ids_of(p, ss));
}

/// Texts put one behind the other.
pub open spec fn concat(ss: Seq<Seq<char>>) -> Seq<char>
    decreases ss.len(),
{
    if ss.len() == 0 {
        Seq::empty()
    } else {
        concat(ss.drop_last()) + ss.last()
    }
}

/// Chunking loses no text: the chunks put together are the morphemes put together.
pub proof fn law_chunks_keep_text(ms: Seq<Seq<char>>, k: int)
    ensures
        concat(chunks_of(ms, k)) == concat(ms),
{
    lemma_chunking_keeps_text(ms, k, ms.len() as int);
    assert(ms.subrange(0, ms.len() as int) =~= ms);
    let c = chunking(ms, k, ms.len() as int);
    if c.buf.len() > 0 {
        assert(c.out.push(c.buf).drop_last() =~= c.out);
    } else {
        assert(concat(c.out) + c.buf =~= concat(c.out));
    }
}

/// A chunk is one punctuation morpheme, or up to `k` others; fewer only where punctuation or
/// the end follows.
pub open spec fn is_chunk(ms: Seq<Seq<char>>, k: int, lo: int, hi: int, chunk: Seq<char>) -> bool {
    &&& 0 <= lo < hi <= ms.len()
    &&& chunk == concat(ms.subrange(lo, hi))
    &&& {
        ||| hi == lo + 1 && charclass::punct_only(ms[lo])
        ||| {
            &&& hi - lo <= k
            &&& forall|i: int| lo <= i < hi ==> !charclass::punct_only(#[trigger] ms[i])
            &&& hi - lo == k || hi == ms.len() || charclass::punct_only(ms[hi])
        }
    }
}

/// `cuts` divides the morphemes up to `j` into these chunks.
pub open spec fn divides(
    ms: Seq<Seq<char>>,
    k: int,
    cuts: Seq<int>,
    chunks: Seq<Seq<char>>,
    j: int,
) -> bool {
    &&& cuts.len() == chunks.len() + 1
    &&& cuts[0] == 0
    &&& cuts.last() == j
    &&& forall|i: int|
        0 <= i < chunks.len() ==> is_chunk(ms, k, cuts[i], cuts[i + 1], #[trigger] chunks[i])
}

proof fn lemma_divides_push(
    ms: Seq<Seq<char>>,
    k: int,
    cuts: Seq<int>,
    chunks: Seq<Seq<char>>,
    lo: int,
    hi: int,
    chunk: Seq<char>,
)
    requires
        divides(ms, k, cuts, chunks, lo),
        is_chunk(ms, k, lo, hi, chunk),
    ensures
        divides(ms, k, cuts.push(hi), chunks.push(chunk), hi),
{
    let c = cuts.push(hi);
    let d = chunks.push(chunk);
    assert forall|i: int| 0 <= i < d.len() implies is_chunk(ms, k, c[i], c[i + 1], #[trigger] d[i]) by {
        if i < chunks.len() {
            assert(is_chunk(ms, k, cuts[i], cuts[i + 1], chunks[i]));
        }
    }
}

proof fn lemma_one(m: Seq<char>)
    ensures
        concat(seq![m]) == m,
{
    assert(seq![m].drop_last() =~= Seq::<Seq<char>>::empty());
    reveal_with_fuel(concat, 2);
    assert(concat(seq![m]) =~= m);
}

/// What is done divides the morphemes but for the last `n`, and those are being gathered.
proof fn lemma_chunking_divides(ms: Seq<Seq<char>>, k: int, j: int) -> (cuts: Seq<int>)
    requires
        0 <= j <= ms.len(),
        1 <= k,
        forall|i: int| 0 <= i < ms.len() ==> (#[trigger] ms[i]).len() > 0,
    ensures
        ({
            let c = chunking(ms, k, j);
            &&& 0 <= c.n <= j
            &&& c.n < k
            &&& c.n == 0 <==> c.buf.len() == 0
            &&& c.buf == concat(ms.subrange(j - c.n, j))
            &&& forall|i: int| j - c.n <= i < j ==> !charclass::punct_only(#[trigger] ms[i])
            &&& divides(ms, k, cuts, c.out, j - c.n)
        }),
    decreases j,
{
    if j == 0 {
        assert(ms.subrange(0, 0) =~= Seq::<Seq<char>>::empty());
        seq![0int]
    } else {
        let c = chunking(ms, k, j - 1);
        let before = lemma_chunking_divides(ms, k, j - 1);
        let m = ms[j - 1];
        let lo = j - 1 - c.n;
        assert(m.len() > 0);
        assert(ms.subrange(j - 1, j) =~= seq![m]);
        lemma_one(m);
        assert(ms.subrange(j, j) =~= Seq::<Seq<char>>::empty());
        if charclass::punct_only(m) {
            if c.buf.len() > 0 {
                assert(is_chunk(ms, k, lo, j - 1, c.buf));
                lemma_divides_push(ms, k, before, c.out, lo, j - 1, c.buf);
                let mid = before.push(j - 1);
                lemma_divides_push(ms, k, mid, c.out.push(c.buf), j - 1, j, m);
                mid.push(j)
            } else {
                lemma_divides_push(ms, k, before, c.out, j - 1, j, m);
                before.push(j)
            }
        } else {
            assert(ms.subrange(lo, j).drop_last() =~= ms.subrange(lo, j - 1));
            assert(concat(ms.subrange(lo, j)) == c.buf + m);
            if c.n + 1 >= k {
                assert(is_chunk(ms, k, lo, j, c.buf + m));
                lemma_divides_push(ms, k, before, c.out, lo, j, c.buf + m);
                before.push(j)
            } else {
                before
            }
        }
    }
}

/// The chunks of a text are its morphemes in order: each is one punctuation morpheme, or at
/// most `chunk_morphs` others.
pub proof fn law_chunks_are_bounded(tk: Tokenizer, s: Seq<char>, scores: Seq<u64>) -> (cuts: Seq<int>)
    requires
        tk.wf(),
    ensures
        divides(
            tk.morphs(s, scores),
            tk.chunk_morphs as int,
            cuts,
            tk.chunks(s, scores),
            tk.morphs(s, scores).len() as int,
        ),
{
    let k = tk.chunk_morphs as int;
    let ms = tk.morphs(s, scores);
    let cutting = tk.cutting(s, scores);
    cutting.lemma_spans(s.len() as int);
    assert forall|i: int| 0 <= i < ms.len() implies (#[trigger] ms[i]).len() > 0 by {
        let sp = cutting.spans(s.len() as int)[i];
        assert(ms[i] == s.subrange(sp.0, sp.1));
    }
    let c = chunking(ms, k, ms.len() as int);
    let cuts = lemma_chunking_divides(ms, k, ms.len() as int);
    if c.buf.len() > 0 {
        lemma_divides_push(ms, k, cuts, c.out, ms.len() - c.n, ms.len() as int, c.buf);
        cuts.push(ms.len() as int)
    } else {
        cuts
    }
}

proof fn lemma_concat_push(ss: Seq<Seq<char>>, s: Seq<char>)
    ensures
        concat(ss.push(s)) == concat(ss) + s,
{
    assert(ss.push(s).drop_last() =~= ss);
}

proof fn lemma_chunking_keeps_text(ms: Seq<Seq<char>>, k: int, j: int)
    requires
        0 <= j <= ms.len(),
    ensures
        concat(chunking(ms, k, j).out) + chunking(ms, k, j).buf == concat(ms.subrange(0, j)),
    decreases j,
{
    if j > 0 {
        lemma_chunking_keeps_text(ms, k, j - 1);
        let c = chunking(ms, k, j - 1);
        let d = chunking(ms, k, j);
        let m = ms[j - 1];
        assert(ms.subrange(0, j).drop_last() =~= ms.subrange(0, j - 1));
        assert(concat(ms.subrange(0, j)) == concat(c.out) + c.buf + m);
        let all = concat(c.out) + c.buf + m;
        if charclass::punct_only(m) {
            if c.buf.len() > 0 {
                lemma_concat_push(c.out, c.buf);
                lemma_concat_push(c.out.push(c.buf), m);
                assert(concat(d.out) + d.buf =~= all);
            } else {
                lemma_concat_push(c.out, m);
                assert(concat(d.out) + d.buf =~= all);
            }
        } else if c.n + 1 >= k {
            lemma_concat_push(c.out, c.buf + m);
            assert(concat(d.out) + d.buf =~= all);
        } else {
            assert(concat(d.out) + d.buf =~= all);
        }
    } else {
        assert(concat(ms.subrange(0, 0)) =~= Seq::<char>::empty());
        assert(concat(chunking(ms, k, 0).out) + chunking(ms, k, 0).buf =~= Seq::<char>::empty());
    }
}

/// Cutting loses no text but blanks: every character that is not white space stands in a
/// morpheme.
pub proof fn law_morphs_keep_text(c: Cutting, i: int) -> (j: int)
    requires
        0 <= i < c.chars.len(),
        charclass::class_of(c.chars[i]) != Class::Ws,
    ensures
        0 <= j < c.spans(c.chars.len() as int).len(),
        c.spans(c.chars.len() as int)[j].0 <= i < c.spans(c.chars.len() as int)[j].1,
{
    c.lemma_covered(c.chars.len() as int, i)
}

/// A space goes between two ASCII letters.
pub open spec fn spaced(left: Seq<char>, right: Seq<char>) -> bool {
    left.len() > 0 && right.len() > 0 && charclass::ascii_letter(left.last() as int)
        && charclass::ascii_letter(right[0] as int)
}

/// Chunks joined for display.
pub open spec fn display(chunks: Seq<Seq<char>>) -> Seq<char>
    decreases chunks.len(),
{
    if chunks.len() == 0 {
        Seq::empty()
    } else {
        let out = display(chunks.drop_last());
        let c = chunks.last();
        if chunks.len() > 1 && spaced(out, c) {
            out.push(' ') + c
        } else {
            out + c
        }
    }
}

/// Joins chunk strings for display: spaces only between ASCII-letter tokens.
pub fn detokenize(chunks: &[String]) -> (r: String)
    ensures
        r@ == display(text::texts(chunks@)),
{
    let ghost all = text::texts(chunks@);
    let mut out: Vec<char> = Vec::new();
    let mut i: usize = 0;
    while i < chunks.len()
        invariant
            i <= chunks.len(),
            all == text::texts(chunks@),
            out@ == display(all.subrange(0, i as int)),
        decreases chunks.len() - i,
    {
        let c = text::chars_of(chunks[i].as_str());
        proof {
            assert(all.subrange(0, i + 1).drop_last() =~= all.subrange(0, i as int));
            assert(all.subrange(0, i + 1).last() == c@);
        }
        if i > 0 && needs_space(&out, &c) {
            out.push(' ');
        }
        text::put(&mut out, &c);
        i += 1;
    }
    proof {
        assert(all.subrange(0, i as int) =~= all);
    }
    text::string_of(&out)
}

fn needs_space(left: &Vec<char>, right: &Vec<char>) -> (r: bool)
    ensures
        r == spaced(left@, right@),
{
    if left.len() == 0 || right.len() == 0 {
        return false;
    }
    charclass::is_ascii_letter(left[left.len() - 1]) && charclass::is_ascii_letter(right[0])
}

/// The texts of the tokens that are not special, in order.
pub open spec fn surfaces(v: intern::Vocab, toks: Seq<u32>) -> Seq<Seq<char>>
    decreases toks.len(),
{
    if toks.len() == 0 {
        Seq::empty()
    } else {
        let front = surfaces(v, toks.drop_last());
        if ids::special(toks.last()) {
            front
        } else {
            front.push(intern::text_of(v, toks.last()))
        }
    }
}

/// Tokens as displayed text.
pub open spec fn spoken(v: intern::Vocab, toks: Seq<u32>) -> Seq<char> {
    display(surfaces(v, toks))
}

/// Tokens as displayed text.
pub fn speak(intern: &Interner, toks: &Vec<TokenId>) -> (r: String)
    ensures
        r@ == spoken(intern@, toks@),
{
    let mut strs: Vec<String> = Vec::new();
    let mut i: usize = 0;
    proof {
        assert(text::texts(strs@) =~= surfaces(intern@, toks@.take(0)));
    }
    while i < toks.len()
        invariant
            i <= toks.len(),
            text::texts(strs@) == surfaces(intern@, toks@.take(i as int)),
        decreases toks.len() - i,
    {
        proof {
            assert(toks@.take(i + 1).drop_last() =~= toks@.take(i as int));
        }
        if !ids::is_special(toks[i]) {
            let ghost before = strs@;
            strs.push(intern.get(toks[i]).to_owned());
            proof {
                assert(text::texts(strs@) =~= text::texts(before).push(
                    intern::text_of(intern@, toks@[i as int]),
                ));
            }
        }
        i += 1;
    }
    proof {
        assert(toks@.take(i as int) =~= toks@);
    }
    detokenize(strs.as_slice())
}

// ---- where a line is cut ----
impl Cutting {
    proof fn lemma_last_cut(self, k: int)
        requires
            0 <= k,
        ensures
            0 <= self.last_cut(k) <= k,
            self.cuts(self.last_cut(k)),
            forall|i: int| self.last_cut(k) < i <= k ==> !#[trigger] self.cuts(i),
        decreases k,
    {
        if k > 0 && !self.cuts(k) {
            self.lemma_last_cut(k - 1);
        }
    }

    /// A stretch begins and ends at a cut, has none inside, and lies behind those before it.
    proof fn lemma_span_edges(self, k: int, j: int)
        requires
            0 <= k <= self.chars.len(),
            0 <= j < self.spans(k).len(),
        ensures
            ({
                let s = self.spans(k)[j];
                &&& 0 <= s.0 < s.1 <= k
                &&& self.cuts(s.0)
                &&& self.cuts(s.1)
                &&& forall|i: int| s.0 < i < s.1 ==> !#[trigger] self.cuts(i)
                &&& !self.blank(s.0, s.1)
                &&& forall|n: int| 0 <= n < j ==> (#[trigger] self.spans(k)[n]).1 <= s.0
            }),
        decreases k,
    {
        if k > 0 {
            self.lemma_last_cut(k - 1);
            let before = self.spans(k - 1);
            if j < before.len() {
                self.lemma_span_edges(k - 1, j);
                assert(forall|n: int| 0 <= n < j ==> #[trigger] self.spans(k)[n] == before[n]);
            } else {
                assert forall|n: int| 0 <= n < j implies (#[trigger] self.spans(k)[n]).1
                    <= self.last_cut(k - 1) by {
                    self.lemma_span_edges(k - 1, n);
                    let e = before[n].1;
                    if e > self.last_cut(k - 1) {
                        assert(!self.cuts(e));
                    }
                }
            }
        }
    }

    /// Two cuts with none between them bound a morpheme, unless all is blank.
    proof fn lemma_span_between(self, lo: int, hi: int) -> (j: int)
        requires
            0 <= lo < hi <= self.chars.len(),
            self.cuts(lo),
            self.cuts(hi),
            forall|i: int| lo < i < hi ==> !#[trigger] self.cuts(i),
            charclass::class_of(self.chars[lo]) != Class::Ws,
        ensures
            0 <= j < self.spans(self.chars.len() as int).len(),
            self.spans(self.chars.len() as int)[j] == (lo, hi),
    {
        let n = self.chars.len() as int;
        let j = self.lemma_covered(n, lo);
        self.lemma_span_edges(n, j);
        let s = self.spans(n)[j];
        if s.0 < lo {
            assert(!self.cuts(lo));
        }
        if s.1 < hi {
            assert(!self.cuts(s.1));
        }
        if s.1 > hi {
            assert(!self.cuts(hi));
        }
        j
    }
}

/// The scripts that are written without spaces.
pub open spec fn unspaced(c: Class) -> bool {
    c is Han || c is Hira || c is Kata
}

/// Once scores decide, neighbours of one class are parted only where the score between them
/// reaches the cut value. Outside the scripts that are written without spaces, and where no
/// score was given, the score is zero; so a word of letters or digits is never cut by a
/// positive value.
pub proof fn law_cuts_need_a_score(c: Cutting, j: int)
    requires
        c.ready,
        0 <= j < c.spans(c.chars.len() as int).len(),
    ensures
        ({
            let i = c.spans(c.chars.len() as int)[j].0;
            let class = charclass::class_of(c.chars[i]);
            0 < i && charclass::class_of(c.chars[i - 1]) == class ==> (if unspaced(class) && i - 1
                < c.scores.len() {
                bits::key64(c.scores[i - 1]) >= bits::key64(c.cut)
            } else {
                0 >= bits::key64(c.cut)
            })
        }),
{
    c.lemma_span_edges(c.chars.len() as int, j);
}

/// Once scores decide, a score that reaches the cut value, is not negative and is not exceeded
/// by its neighbours parts the two characters: one morpheme ends there and one begins.
pub proof fn law_peaks_are_cut(c: Cutting, i: int) -> (r: (int, int))
    requires
        c.ready,
        0 < i < c.chars.len(),
        charclass::class_of(c.chars[i - 1]) == charclass::class_of(c.chars[i]),
        unspaced(charclass::class_of(c.chars[i])),
        i - 1 < c.scores.len(),
        bits::key64(c.scores[i - 1]) >= bits::key64(c.cut),
        bits::key64(c.scores[i - 1]) >= 0,
        2 <= i ==> bits::key64(c.scores[i - 2]) <= bits::key64(c.scores[i - 1]),
        i < c.scores.len() ==> bits::key64(c.scores[i]) <= bits::key64(c.scores[i - 1]),
    ensures
        ({
            let spans = c.spans(c.chars.len() as int);
            &&& 0 <= r.0 < spans.len() && spans[r.0].1 == i
            &&& 0 <= r.1 < spans.len() && spans[r.1].0 == i
        }),
{
    let n = c.chars.len() as int;
    assert(c.cuts(i));
    let a = c.lemma_covered(n, i - 1);
    c.lemma_span_edges(n, a);
    let b = c.lemma_covered(n, i);
    c.lemma_span_edges(n, b);
    if c.spans(n)[a].1 > i {
        assert(!c.cuts(i));
    }
    if c.spans(n)[b].0 < i {
        assert(!c.cuts(i));
    }
    (a, b)
}

/// A run of one class between characters of others whose scores all stay below a positive cut
/// value is one morpheme.
pub proof fn law_a_quiet_run_is_one_morpheme(c: Cutting, lo: int, hi: int) -> (j: int)
    requires
        c.ready,
        0 < bits::key64(c.cut),
        0 <= lo < hi <= c.chars.len(),
        charclass::class_of(c.chars[lo]) != Class::Ws,
        forall|i: int|
            lo <= i < hi ==> charclass::class_of(#[trigger] c.chars[i]) == charclass::class_of(
                c.chars[lo],
            ),
        lo > 0 ==> charclass::class_of(c.chars[lo - 1]) != charclass::class_of(c.chars[lo]),
        hi < c.chars.len() ==> charclass::class_of(c.chars[hi]) != charclass::class_of(c.chars[lo]),
        unspaced(charclass::class_of(c.chars[lo])) ==> forall|i: int|
            lo <= i < hi - 1 && i < c.scores.len() ==> bits::key64(#[trigger] c.scores[i])
                < bits::key64(c.cut),
    ensures
        0 <= j < c.spans(c.chars.len() as int).len(),
        c.spans(c.chars.len() as int)[j] == (lo, hi),
{
    assert(c.cuts(lo));
    assert(charclass::class_of(c.chars[hi - 1]) == charclass::class_of(c.chars[lo]));
    assert(c.cuts(hi));
    assert forall|i: int| lo < i < hi implies !#[trigger] c.cuts(i) by {
        assert(charclass::class_of(c.chars[i]) == charclass::class_of(c.chars[lo]));
        assert(charclass::class_of(c.chars[i - 1]) == charclass::class_of(c.chars[lo]));
    }
    c.lemma_span_between(lo, hi)
}

/// Before scores decide, every character of a script that is written without spaces stands
/// alone, and a run of any other class is one morpheme.
pub proof fn law_an_untrained_cut_is_by_character(c: Cutting, lo: int, hi: int) -> (j: int)
    requires
        !c.ready,
        0 <= lo < hi <= c.chars.len(),
        charclass::class_of(c.chars[lo]) != Class::Ws,
        unspaced(charclass::class_of(c.chars[lo])) ==> hi == lo + 1,
        !unspaced(charclass::class_of(c.chars[lo])) ==> {
            &&& forall|i: int|
                lo <= i < hi ==> charclass::class_of(#[trigger] c.chars[i]) == charclass::class_of(
                    c.chars[lo],
                )
            &&& lo > 0 ==> charclass::class_of(c.chars[lo - 1]) != charclass::class_of(c.chars[lo])
            &&& hi < c.chars.len() ==> charclass::class_of(c.chars[hi]) != charclass::class_of(
                c.chars[lo],
            )
        },
    ensures
        0 <= j < c.spans(c.chars.len() as int).len(),
        c.spans(c.chars.len() as int)[j] == (lo, hi),
{
    assert(c.cuts(lo));
    if !unspaced(charclass::class_of(c.chars[lo])) {
        assert(charclass::class_of(c.chars[hi - 1]) == charclass::class_of(c.chars[lo]));
        assert forall|i: int| lo < i < hi implies !#[trigger] c.cuts(i) by {
            assert(charclass::class_of(c.chars[i]) == charclass::class_of(c.chars[lo]));
            assert(charclass::class_of(c.chars[i - 1]) == charclass::class_of(c.chars[lo]));
        }
    }
    assert(c.cuts(hi));
    c.lemma_span_between(lo, hi)
}

/// A morpheme is of one class and never white space, and the morphemes stand in the order of
/// the line without overlap.
pub proof fn law_morphs_are_of_one_class(c: Cutting, j: int, i: int)
    requires
        0 <= j < c.spans(c.chars.len() as int).len(),
        c.spans(c.chars.len() as int)[j].0 <= i < c.spans(c.chars.len() as int)[j].1,
    ensures
        ({
            let spans = c.spans(c.chars.len() as int);
            &&& charclass::class_of(c.chars[i]) == charclass::class_of(c.chars[spans[j].0])
            &&& charclass::class_of(c.chars[i]) != Class::Ws
            &&& 0 <= spans[j].0 < spans[j].1 <= c.chars.len()
            &&& j + 1 < spans.len() ==> spans[j].1 <= spans[j + 1].0
        }),
{
    let n = c.chars.len() as int;
    c.lemma_span_edges(n, j);
    let s = c.spans(n)[j];
    if j + 1 < c.spans(n).len() {
        c.lemma_span_edges(n, j + 1);
        assert(c.spans(n)[j].1 <= c.spans(n)[j + 1].0);
    }
    let p = choose|p: int|
        s.0 <= p < s.1 && charclass::class_of(#[trigger] c.chars[p]) != Class::Ws;
    lemma_one_class(c, s.0, s.1, i);
    lemma_one_class(c, s.0, s.1, p);
}

proof fn lemma_one_class(c: Cutting, lo: int, hi: int, i: int)
    requires
        0 <= lo <= i < hi <= c.chars.len(),
        forall|k: int| lo < k < hi ==> !#[trigger] c.cuts(k),
    ensures
        charclass::class_of(c.chars[i]) == charclass::class_of(c.chars[lo]),
    decreases i - lo,
{
    if i > lo {
        lemma_one_class(c, lo, hi, i - 1);
        assert(!c.cuts(i));
    }
}

/// Scores decide from 256 observed characters on, against the tokenizer's own cut value, and
/// the morphemes are the stretches of the line between its cuts.
pub proof fn law_scores_decide_once_trained(tk: Tokenizer, s: Seq<char>, scores: Seq<u64>, j: int)
    requires
        0 <= j < tk.morphs(s, scores).len(),
    ensures
        ({
            let c = tk.cutting(s, scores);
            let spans = c.spans(s.len() as int);
            &&& c.ready <==> tk.model.total_chars >= 256
            &&& c.cut == tk.cut
            &&& c.chars == s
            &&& c.scores == scores
            &&& tk.morphs(s, scores).len() == spans.len()
            &&& tk.morphs(s, scores)[j] == s.subrange(spans[j].0, spans[j].1)
        }),
{
}

// ---- how chunks are shown ----
/// A letter of the Latin alphabet without marks.
pub open spec fn plain_letter(c: char) -> bool {
    'a' <= c <= 'z' || 'A' <= c <= 'Z'
}

/// A chunk that does not begin with a letter, or follows something that does not end in one,
/// is joined without a space; between two letters there is exactly one.
pub proof fn law_spaces_part_letters_only(chunks: Seq<Seq<char>>, c: Seq<char>)
    ensures
        ({
            let shown = display(chunks);
            let parted = shown.len() > 0 && c.len() > 0 && plain_letter(shown.last())
                && plain_letter(c[0]);
            display(chunks.push(c)) == if parted {
                shown + seq![' '] + c
            } else {
                shown + c
            }
        }),
{
    assert(chunks.push(c).drop_last() =~= chunks);
    let shown = display(chunks);
    if chunks.len() == 0 {
        assert(shown =~= Seq::<char>::empty());
    }
    assert(shown.push(' ') =~= shown + seq![' ']);
}

/// Text without letters at the edges of its chunks is shown as it stands.
pub proof fn law_unspaced_text_is_shown_as_it_stands(chunks: Seq<Seq<char>>)
    requires
        forall|i: int|
            0 <= i < chunks.len() ==> (#[trigger] chunks[i]).len() > 0 && !plain_letter(
                chunks[i][0],
            ),
    ensures
        display(chunks) == concat(chunks),
    decreases chunks.len(),
{
    if chunks.len() > 0 {
        let front = chunks.drop_last();
        assert forall|i: int| 0 <= i < front.len() implies (#[trigger] front[i]).len() > 0
            && !plain_letter(front[i][0]) by {
            assert(front[i] == chunks[i]);
        }
        law_unspaced_text_is_shown_as_it_stands(front);
        assert(chunks[chunks.len() - 1] == chunks.last());
    }
}

/// Special tokens are not spoken: what is spoken is the shown text of the others.
pub proof fn law_marks_are_not_spoken(v: intern::Vocab, toks: Seq<u32>)
    ensures
        spoken(v, toks) == display(
            toks.filter(|id: u32| id >= 16).map_values(|id: u32| intern::text_of(v, id)),
        ),
    decreases toks.len(),
{
    lemma_surfaces(v, toks);
}

proof fn lemma_surfaces(v: intern::Vocab, toks: Seq<u32>)
    ensures
        surfaces(v, toks) == toks.filter(|id: u32| id >= 16).map_values(
            |id: u32| intern::text_of(v, id),
        ),
    decreases toks.len(),
{
    reveal(Seq::filter);
    let f = |id: u32| id >= 16;
    let g = |id: u32| intern::text_of(v, id);
    if toks.len() > 0 {
        lemma_surfaces(v, toks.drop_last());
        let before = toks.drop_last().filter(f);
        assert(before.push(toks.last()).map_values(g) =~= before.map_values(g).push(
            g(toks.last()),
        ));
    }
    assert(surfaces(v, toks) =~= toks.filter(f).map_values(g));
}

/// The ids of a text's parts read back as those parts.
pub proof fn law_ids_read_back(p: intern::Vocab, ss: Seq<Seq<char>>, i: int)
    requires
        intern::vocab_wf(p),
        p.strings.len() + ss.len() <= u32::MAX,
        0 <= i < ss.len(),
    ensures
        ids_of(intern::with_all(p, ss), ss).len() == ss.len(),
        intern::text_of(intern::with_all(p, ss), ids_of(intern::with_all(p, ss), ss)[i]) == ss[i],
        ids_of(intern::with_all(p, ss), ss)[i] >= 16,
{
    intern::lemma_with_all(p, ss);
    assert(intern::with_all(p, ss).ids.dom().contains(ss[i]));
}

/// Once scores decide, a cut inside a script stands at a peak: the score there is exceeded by
/// neither of the scores beside it in the same script.
pub proof fn law_a_cut_is_a_peak(c: Cutting, j: int)
    requires
        c.ready,
        0 <= j < c.spans(c.chars.len() as int).len(),
    ensures
        ({
            let i = c.spans(c.chars.len() as int)[j].0;
            let class = charclass::class_of(c.chars[i]);
            0 < i <= c.scores.len() && unspaced(class) && charclass::class_of(c.chars[i - 1])
                == class ==> {
                &&& 2 <= i && charclass::class_of(c.chars[i - 2]) == class ==> bits::key64(
                    c.scores[i - 2],
                ) <= bits::key64(c.scores[i - 1])
                &&& i + 1 < c.chars.len() && i < c.scores.len() && charclass::class_of(
                    c.chars[i + 1],
                ) == class ==> bits::key64(c.scores[i]) <= bits::key64(c.scores[i - 1])
            }
        }),
{
    c.lemma_span_edges(c.chars.len() as int, j);
}

} // verus!
