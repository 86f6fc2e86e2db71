//! Dictionary of canned responses, matched loosely.
use crate::bits;
use crate::explain::TriggerTrace;
use crate::text;
use vstd::prelude::*;

verus! {

#[derive(Debug, Clone)]
pub struct TriggerEntry {
    pub pattern: String,
    pub responses: Vec<String>,
}

#[derive(Debug, Clone)]
pub struct TriggerDict {
    pub entries: Vec<TriggerEntry>,
}

/// `i` is the first index of the largest similarity.
pub open spec fn first_largest(sims: Seq<u32>, i: int) -> bool {
    &&& 0 <= i < sims.len()
    &&& forall|j: int| 0 <= j < sims.len() ==> bits::key32(#[trigger] sims[j]) <= bits::key32(sims[i])
    &&& forall|j: int| 0 <= j < i ==> bits::key32(#[trigger] sims[j]) < bits::key32(sims[i])
}

/// The first index of the largest similarity.
pub fn largest(sims: &Vec<u32>) -> (r: Option<usize>)
    ensures
        match r {
            Some(i) => first_largest(sims@, i as int),
            None => sims.len() == 0,
        },
{
    if sims.len() == 0 {
        return None;
    }
    let mut best: usize = 0;
    let mut i: usize = 1;
    while i < sims.len()
        invariant
            1 <= i <= sims.len(),
            best < i,
            forall|j: int|
                0 <= j < i ==> bits::key32(#[trigger] sims[j]) <= bits::key32(sims[best as int]),
            forall|j: int|
                0 <= j < best ==> bits::key32(#[trigger] sims[j]) < bits::key32(sims[best as int]),
        decreases sims.len() - i,
    {
        if bits::order32(sims[i]) > bits::order32(sims[best]) {
            best = i;
        }
        i += 1;
    }
    Some(best)
}

/// Copies a list of strings.
pub fn copy_strings(v: &Vec<String>) -> (r: Vec<String>)
    ensures
        text::texts(r@) == text::texts(v@),
{
    let mut r: Vec<String> = Vec::new();
    let mut i: usize = 0;
    while i < v.len()
        invariant
            i <= v.len(),
            r.len() == i,
            forall|k: int| 0 <= k < i ==> (#[trigger] r[k])@ == v[k]@,
        decreases v.len() - i,
    {
        r.push(v[i].clone());
        i += 1;
    }
    proof {
        assert(text::texts(r@) =~= text::texts(v@));
    }
    r
}

impl TriggerDict {
    /// The entry most similar to the input, if it is similar enough and has responses.
    pub open spec fn is_hit(
        &self,
        sims: Seq<u32>,
        theta: u32,
        r: Option<(TriggerTrace, Vec<String>)>,
    ) -> bool {
        match r {
            Some((tr, responses)) => exists|i: int|
                {
                    &&& #[trigger] first_largest(sims, i)
                    &&& !bits::less32(sims[i], theta)
                    &&& self.entries[i].responses.len() > 0
                    &&& tr.pattern@ == self.entries[i].pattern@
                    &&& tr.similarity == sims[i]
                    &&& tr.threshold == theta
                    &&& text::texts(responses@) == text::texts(self.entries[i].responses@)
                },
            None => forall|i: int| #[trigger]
                first_largest(sims, i) ==> bits::less32(sims[i], theta)
                    || self.entries[i].responses.len() == 0,
        }
    }

    /// A dictionary without entries.
    pub fn new() -> (r: Self)
        ensures
            r.entries.len() == 0,
    {
        TriggerDict { entries: Vec::new() }
    }

    pub fn is_empty(&self) -> (r: bool)
        ensures
            r == (self.entries.len() == 0),
    {
        self.entries.len() == 0
    }

    /// The responses of the pattern most similar to the input, if it is similar enough and has
    /// any. `sims` holds the similarity of each entry's pattern, `theta` the threshold.
    pub fn match_one(&self, sims: &Vec<u32>, theta: u32) -> (r: Option<(TriggerTrace, Vec<String>)>)
        requires
            sims.len() == self.entries.len(),
        ensures
            self.is_hit(sims@, theta, r),
    {
        match largest(sims) {
            Some(i) => {
                proof {
                    assert forall|j: int| #[trigger] first_largest(sims@, j) implies j == i by {
                        if j < i {
                            assert(bits::key32(sims[j]) < bits::key32(sims[i as int]));
                        } else if i < j {
                            assert(bits::key32(sims[i as int]) < bits::key32(sims[j]));
                        }
                    }
                }
                if bits::is_less32(sims[i], theta) {
                    return None;
                }
                let e = &self.entries[i];
                if e.responses.len() == 0 {
                    return None;
                }
                let tr = TriggerTrace {
                    pattern: e.pattern.clone(),
                    similarity: sims[i],
                    threshold: theta,
                };
                assert(first_largest(sims@, i as int));
                Some((tr, copy_strings(&e.responses)))
            },
            None => None,
        }
    }
}

/// An answer is that of the entry most similar to the input, the first of equal ones; it is no
/// less similar than the threshold and has responses.
pub proof fn law_the_most_similar_answers(
    dict: TriggerDict,
    sims: Seq<u32>,
    theta: u32,
    tr: TriggerTrace,
    responses: Vec<String>,
)
    requires
        sims.len() == dict.entries.len(),
        dict.is_hit(sims, theta, Some((tr, responses))),
    ensures
        responses.len() > 0,
        tr.threshold == theta,
        !bits::nan32(theta) && !bits::nan32(tr.similarity) ==> bits::key32(tr.similarity)
            >= bits::key32(theta),
        forall|j: int|
            0 <= j < sims.len() ==> bits::key32(#[trigger] sims[j]) <= bits::key32(tr.similarity),
        exists|i: int|
            {
                &&& 0 <= i < sims.len()
                &&& tr.similarity == #[trigger] sims[i]
                &&& tr.pattern@ == dict.entries[i].pattern@
                &&& text::texts(responses@) == text::texts(dict.entries[i].responses@)
                &&& forall|j: int|
                    0 <= j < i ==> bits::key32(#[trigger] sims[j]) < bits::key32(tr.similarity)
            },
{
    let i = choose|i: int|
        {
            &&& #[trigger] first_largest(sims, i)
            &&& !bits::less32(sims[i], theta)
            &&& dict.entries[i].responses.len() > 0
            &&& tr.pattern@ == dict.entries[i].pattern@
            &&& tr.similarity == sims[i]
            &&& tr.threshold == theta
            &&& text::texts(responses@) == text::texts(dict.entries[i].responses@)
        };
    assert(tr.similarity == sims[i]);
    assert(text::texts(responses@).len() == text::texts(dict.entries[i].responses@).len());
}

/// An entry that no other matches in similarity answers where it is similar enough and has
/// responses.
pub proof fn law_a_close_entry_answers(
    dict: TriggerDict,
    sims: Seq<u32>,
    theta: u32,
    r: Option<(TriggerTrace, Vec<String>)>,
    i: int,
)
    requires
        sims.len() == dict.entries.len(),
        dict.is_hit(sims, theta, r),
        0 <= i < sims.len(),
        forall|j: int|
            0 <= j < sims.len() && j != i ==> bits::key32(#[trigger] sims[j]) < bits::key32(sims[i]),
        bits::key32(sims[i]) >= bits::key32(theta),
        dict.entries[i].responses.len() > 0,
    ensures
        match r {
            Some((tr, responses)) => tr.pattern@ == dict.entries[i].pattern@ && text::texts(
                responses@,
            ) == text::texts(dict.entries[i].responses@),
            None => false,
        },
{
    assert(first_largest(sims, i));
    if let Some((tr, responses)) = r {
        let k = choose|k: int|
            {
                &&& #[trigger] first_largest(sims, k)
                &&& !bits::less32(sims[k], theta)
                &&& dict.entries[k].responses.len() > 0
                &&& tr.pattern@ == dict.entries[k].pattern@
                &&& tr.similarity == sims[k]
                &&& tr.threshold == theta
                &&& text::texts(responses@) == text::texts(dict.entries[k].responses@)
            };
        assert(k == i);
    }
}

} // verus!
