//! Hybrid candidate pool: sources propose, the selector picks.
//!
//! The pool labels each proposal so parroting is a named source, not a silent
//! backoff, and retrieval / generation compete in one ranking.
use crate::explain::PathKind;
use crate::ids::TokenId;
use crate::text;
use vstd::prelude::*;

verus! {

#[derive(Debug)]
pub struct Proposal {
    pub source: PathKind,
    pub text: String,
    pub tokens: Vec<TokenId>,
    /// Mean −ln p per generated token (generated candidates only), as a bit pattern.
    pub surprise: Option<u32>,
}

/// What a proposal says.
#[verifier::ext_equal]
pub struct Proposed {
    pub source: PathKind,
    pub text: Seq<char>,
    pub tokens: Seq<u32>,
    pub surprise: Option<u32>,
}

impl View for Proposal {
    type V = Proposed;

    open spec fn view(&self) -> Proposed {
        Proposed {
            source: self.source,
            text: self.text@,
            tokens: self.tokens@,
            surprise: self.surprise,
        }
    }
}

#[derive(Debug)]
pub struct Pool {
    pub items: Vec<Proposal>,
}

impl View for Pool {
    type V = Seq<Proposed>;

    open spec fn view(&self) -> Seq<Proposed> {
        self.items@.map_values(|p: Proposal| p@)
    }
}

/// Some proposal has this text.
pub open spec fn has_text(pool: Seq<Proposed>, t: Seq<char>) -> bool {
    exists|i: int| 0 <= i < pool.len() && (#[trigger] pool[i]).text == t
}

/// The pool after a proposal: a blank or a known text is not taken.
pub open spec fn proposed(pool: Seq<Proposed>, p: Proposed) -> Seq<Proposed> {
    if text::trimmed(p.text).len() == 0 || has_text(pool, p.text) {
        pool
    } else {
        pool.push(p)
    }
}

/// No two proposals have one text, and none is blank.
pub open spec fn pool_wf(pool: Seq<Proposed>) -> bool {
    &&& forall|i: int, j: int|
        0 <= i < j < pool.len() ==> (#[trigger] pool[i]).text != (#[trigger] pool[j]).text
    &&& forall|i: int|
        0 <= i < pool.len() ==> text::trimmed((#[trigger] pool[i]).text).len() > 0
}

/// A pool never holds a text twice, nor a blank one.
pub proof fn law_pool_texts_differ(pool: Seq<Proposed>, p: Proposed)
    requires
        pool_wf(pool),
    ensures
        pool_wf(proposed(pool, p)),
{
}

/// A copy of a list of tokens.
pub fn copy_tokens(v: &Vec<TokenId>) -> (r: Vec<TokenId>)
    ensures
        r@ == v@,
{
    let mut r: Vec<TokenId> = Vec::new();
    let mut i: usize = 0;
    while i < v.len()
        invariant
            i <= v.len(),
            r@ == v@.subrange(0, i as int),
        decreases v.len() - i,
    {
        r.push(v[i]);
        proof {
            assert(v@.subrange(0, i + 1) =~= v@.subrange(0, i as int).push(v@[i as int]));
        }
        i += 1;
    }
    proof {
        assert(v@.subrange(0, i as int) =~= v@);
    }
    r
}

impl Pool {
    /// A pool without proposals.
    pub fn new() -> (r: Self)
        ensures
            r@ == Seq::<Proposed>::empty(),
    {
        let r = Pool { items: Vec::new() };
        proof {
            assert(r@ =~= Seq::<Proposed>::empty());
        }
        r
    }

    pub fn push(&mut self, source: PathKind, text: String, tokens: Vec<TokenId>)
        ensures
            final(self)@ == proposed(
                old(self)@,
                (Proposed { source, text: text@, tokens: tokens@, surprise: None }),
            ),
    {
        self.push_scored(source, text, tokens, None);
    }

    pub fn push_scored(
        &mut self,
        source: PathKind,
        text: String,
        tokens: Vec<TokenId>,
        surprise: Option<u32>,
    )
        ensures
            final(self)@ == proposed(
                old(self)@,
                (Proposed { source, text: text@, tokens: tokens@, surprise }),
            ),
    {
        if text::is_blank(text.as_str()) {
            return ;
        }
        if self.knows(&text) {
            return ;
        }
        self.items.push(Proposal { source, text, tokens, surprise });
        proof {
            assert(self@ =~= old(self)@.push(
                Proposed { source, text: text@, tokens: tokens@, surprise },
            ));
        }
    }

    /// Whether some proposal has this text.
    pub fn knows(&self, text: &String) -> (r: bool)
        ensures
            r == has_text(self@, text@),
    {
        let mut i: usize = 0;
        while i < self.items.len()
            invariant
                i <= self.items.len(),
                forall|k: int| 0 <= k < i ==> (#[trigger] self@[k]).text != text@,
            decreases self.items.len() - i,
        {
            if self.items[i].text == *text {
                assert(self@[i as int].text == text@);
                return true;
            }
            i += 1;
        }
        false
    }

    pub fn is_empty(&self) -> (r: bool)
        ensures
            r == (self@.len() == 0),
    {
        self.items.len() == 0
    }

    pub fn texts(&self) -> (r: Vec<String>)
        ensures
            text::texts(r@) == self@.map_values(|p: Proposed| p.text),
    {
        let mut r: Vec<String> = Vec::new();
        let mut i: usize = 0;
        while i < self.items.len()
            invariant
                i <= self.items.len(),
                r.len() == i,
                forall|k: int| 0 <= k < i ==> (#[trigger] r[k])@ == self@[k].text,
            decreases self.items.len() - i,
        {
            r.push(self.items[i].text.clone());
            i += 1;
        }
        proof {
            assert(text::texts(r@) =~= self@.map_values(|p: Proposed| p.text));
        }
        r
    }

    pub fn tokens(&self) -> (r: Vec<Vec<TokenId>>)
        ensures
            r.len() == self@.len(),
            forall|k: int| 0 <= k < r.len() ==> (#[trigger] r[k])@ == self@[k].tokens,
    {
        let mut r: Vec<Vec<TokenId>> = Vec::new();
        let mut i: usize = 0;
        while i < self.items.len()
            invariant
                i <= self.items.len(),
                r.len() == i,
                forall|k: int| 0 <= k < i ==> (#[trigger] r[k])@ == self@[k].tokens,
            decreases self.items.len() - i,
        {
            r.push(copy_tokens(&self.items[i].tokens));
            i += 1;
        }
        r
    }

    pub fn sources(&self) -> (r: Vec<PathKind>)
        ensures
            r@ == self@.map_values(|p: Proposed| p.source),
    {
        let mut r: Vec<PathKind> = Vec::new();
        let mut i: usize = 0;
        while i < self.items.len()
            invariant
                i <= self.items.len(),
                r.len() == i,
                forall|k: int| 0 <= k < i ==> #[trigger] r[k] == self@[k].source,
            decreases self.items.len() - i,
        {
            r.push(self.items[i].source);
            i += 1;
        }
        proof {
            assert(r@ =~= self@.map_values(|p: Proposed| p.source));
        }
        r
    }

    pub fn surprises(&self) -> (r: Vec<Option<u32>>)
        ensures
            r@ == self@.map_values(|p: Proposed| p.surprise),
    {
        let mut r: Vec<Option<u32>> = Vec::new();
        let mut i: usize = 0;
        while i < self.items.len()
            invariant
                i <= self.items.len(),
                r.len() == i,
                forall|k: int| 0 <= k < i ==> #[trigger] r[k] == self@[k].surprise,
            decreases self.items.len() - i,
        {
            r.push(self.items[i].surprise);
            i += 1;
        }
        proof {
            assert(r@ =~= self@.map_values(|p: Proposed| p.surprise));
        }
        r
    }
}

/// First come, first kept: a proposal joins at the end exactly where it says something and no
/// earlier one says the same, and the earlier ones stay as they are.
pub proof fn law_first_come_first_kept(pool: Seq<Proposed>, p: Proposed)
    ensures
        ({
            let r = proposed(pool, p);
            let known = exists|i: int| 0 <= i < pool.len() && (#[trigger] pool[i]).text == p.text;
            let blank = forall|i: int|
                0 <= i < p.text.len() ==> text::char_is_whitespace(#[trigger] p.text[i]);
            &&& known || blank ==> r == pool
            &&& !known && !blank ==> r.len() == pool.len() + 1 && r.last() == p
            &&& forall|i: int| 0 <= i < pool.len() ==> #[trigger] r[i] == pool[i]
        }),
{
    text::law_trimming_takes_white_space_only(p.text);
}

} // verus!
