//! String intern pool.
use crate::fx;
use crate::ids::BOS;
use crate::ids::EOS;
use crate::ids::FIRST_USER;
use crate::ids::SEP;
use crate::ids::TokenId;
use crate::text;
use rustc_hash::FxHashMap;
use vstd::prelude::*;

verus! {

/// What an interner holds: the string of each id, and the id of each user string.
#[verifier::ext_equal]
pub struct Vocab {
    pub strings: Seq<Seq<char>>,
    pub ids: Map<Seq<char>, u32>,
}

/// The vocabulary with a string in it: as it was where it holds the string, else with the next id.
pub open spec fn with(p: Vocab, s: Seq<char>) -> Vocab {
    if p.ids.dom().contains(s) {
        p
    } else {
        Vocab { strings: p.strings.push(s), ids: p.ids.insert(s, p.strings.len() as u32) }
    }
}

/// The vocabulary with several strings in it, taken in order.
pub open spec fn with_all(p: Vocab, ss: Seq<Seq<char>>) -> Vocab
    decreases ss.len(),
{
    if ss.len() == 0 {
        p
    } else {
        with(with_all(p, ss.drop_last()), ss.last())
    }
}

/// The text of an id.
pub open spec fn text_of(p: Vocab, id: u32) -> Seq<char> {
    if id < p.strings.len() {
        p.strings[id as int]
    } else {
        "<unk>"@
    }
}

/// The names of the special ids, and nothing for the other reserved ones.
pub open spec fn reserved(i: int) -> Seq<char> {
    if i == EOS {
        "<eos>"@
    } else if i == BOS {
        "<bos>"@
    } else if i == SEP {
        "<sep>"@
    } else {
        Seq::empty()
    }
}

/// User strings map onto dense ids behind the reserved ones.
pub open spec fn vocab_wf(p: Vocab) -> bool {
    &&& FIRST_USER <= p.strings.len() <= u32::MAX
    &&& forall|i: int| 0 <= i < 3 ==> #[trigger] p.strings[i] == reserved(i)
    &&& forall|s: Seq<char>| #[trigger] p.ids.dom().contains(s) ==> {
        &&& FIRST_USER <= p.ids[s] < p.strings.len()
        &&& p.strings[p.ids[s] as int] == s
    }
}

/// Every user id is the id of its string.
pub open spec fn dense(p: Vocab) -> bool {
    forall|i: int|
        FIRST_USER <= i < p.strings.len() ==> p.ids.dom().contains(#[trigger] p.strings[i])
            && p.ids[p.strings[i]] == i
}

/// String intern pool. User strings map onto dense ids from `FIRST_USER` on.
pub struct Interner {
    pub to_id: FxHashMap<String, u32>,
    pub to_str: Vec<String>,
}

/// The strings of an interner, by id.
#[derive(Debug)]
pub struct InternerSnap {
    pub strings: Vec<String>,
}

impl View for Interner {
    type V = Vocab;

    open spec fn view(&self) -> Vocab {
        Vocab { strings: text::texts(self.to_str@), ids: fx::words(self.to_id) }
    }
}

/// Sets the names of the special ids.
fn name_specials(to_str: &mut Vec<String>)
    requires
        old(to_str).len() >= FIRST_USER,
    ensures
        final(to_str).len() == old(to_str).len(),
        forall|i: int| 0 <= i < 3 ==> #[trigger] final(to_str)[i]@ == reserved(i),
        forall|i: int| 3 <= i < old(to_str).len() ==> #[trigger] final(to_str)[i] == old(to_str)[i],
{
    to_str.set(EOS as usize, "<eos>".to_owned());
    to_str.set(BOS as usize, "<bos>".to_owned());
    to_str.set(SEP as usize, "<sep>".to_owned());
}

impl Interner {
    pub open spec fn wf(&self) -> bool {
        vocab_wf(self@)
    }

    pub fn new() -> (r: Self)
        ensures
            r.wf(),
            dense(r@),
            r@.strings == Seq::new(FIRST_USER as nat, |i: int| reserved(i)),
            r@.ids == Map::<Seq<char>, u32>::empty(),
    {
        let mut to_str: Vec<String> = Vec::new();
        while to_str.len() < FIRST_USER as usize
            invariant
                to_str.len() <= FIRST_USER,
                forall|i: int| 0 <= i < to_str.len() ==> (#[trigger] to_str[i])@.len() == 0,
            decreases FIRST_USER - to_str.len(),
        {
            to_str.push(String::new());
        }
        name_specials(&mut to_str);
        let r = Interner { to_id: fx::new_words(), to_str };
        proof {
            assert(r@.strings =~= Seq::new(FIRST_USER as nat, |i: int| reserved(i))) by {
                assert forall|i: int| 0 <= i < FIRST_USER implies r@.strings[i] == reserved(i) by {
                    if i >= 3 {
                        assert(r.to_str[i]@ =~= Seq::<char>::empty());
                    }
                }
            }
        }
        r
    }

    /// The id of a string, made now if it has none.
    pub fn intern(&mut self, s: &str) -> (id: TokenId)
        requires
            old(self).wf(),
            old(self)@.strings.len() < u32::MAX,
        ensures
            final(self).wf(),
            final(self)@ == with(old(self)@, s@),
            dense(old(self)@) ==> dense(final(self)@),
            final(self)@.ids.dom().contains(s@),
            id == final(self)@.ids[s@],
    {
        match fx::get_word(&self.to_id, s) {
            Some(id) => id,
            None => {
                let id: u32 = self.to_str.len() as u32;
                fx::set_word(&mut self.to_id, s.to_owned(), id);
                self.to_str.push(s.to_owned());
                proof {
                    assert(self@ =~= with(old(self)@, s@));
                    lemma_with(old(self)@, s@);
                }
                id
            },
        }
    }

    /// The string of an id.
    pub fn get(&self, id: TokenId) -> (r: &str)
        ensures
            r@ == text_of(self@, id),
    {
        if (id as usize) < self.to_str.len() {
            self.to_str[id as usize].as_str()
        } else {
            "<unk>"
        }
    }

    /// The id of a string, if it has one.
    pub fn resolve(&self, s: &str) -> (r: Option<TokenId>)
        ensures
            r == (if self@.ids.dom().contains(s@) {
                Some(self@.ids[s@])
            } else {
                None
            }),
    {
        fx::get_word(&self.to_id, s)
    }

    pub fn len(&self) -> (r: usize)
        ensures
            r == self@.strings.len(),
    {
        self.to_str.len()
    }

    pub fn is_empty(&self) -> (r: bool)
        ensures
            r == (self@.strings.len() <= FIRST_USER),
    {
        self.to_str.len() <= FIRST_USER as usize
    }

    /// Number of user strings.
    pub fn vocab_user(&self) -> (r: usize)
        ensures
            r == (if self@.strings.len() < FIRST_USER {
                0
            } else {
                self@.strings.len() - FIRST_USER
            }),
    {
        if self.to_str.len() < FIRST_USER as usize {
            0
        } else {
            self.to_str.len() - FIRST_USER as usize
        }
    }

    pub fn snapshot(&self) -> (r: InternerSnap)
        ensures
            text::texts(r.strings@) == self@.strings,
    {
        let mut strings: Vec<String> = Vec::new();
        let mut i: usize = 0;
        while i < self.to_str.len()
            invariant
                i <= self.to_str.len(),
                strings.len() == i,
                forall|k: int| 0 <= k < i ==> (#[trigger] strings[k])@ == self.to_str[k]@,
            decreases self.to_str.len() - i,
        {
            strings.push(self.to_str[i].clone());
            i += 1;
        }
        proof {
            assert(text::texts(strings@) =~= self@.strings);
        }
        InternerSnap { strings }
    }

    /// An interner with the strings of a snapshot; empty user strings get no id of their own,
    /// and the special ids have their names whatever the snapshot says.
    pub fn from_snapshot(snap: InternerSnap) -> (r: Self)
        requires
            snap.strings.len() <= u32::MAX,
        ensures
            r.wf(),
            r@.strings == restored(text::texts(snap.strings@)),
            r@.ids == restored_ids(text::texts(snap.strings@), snap.strings.len() as int),
    {
        let mut to_id = fx::new_words();
        let mut to_str: Vec<String> = Vec::new();
        let ghost all = text::texts(snap.strings@);
        let mut i: usize = 0;
        while i < snap.strings.len()
            invariant
                i <= snap.strings.len() <= u32::MAX,
                all == text::texts(snap.strings@),
                to_str.len() == i,
                forall|k: int| 0 <= k < i ==> (#[trigger] to_str[k])@ == all[k],
                fx::words(to_id) == restored_ids(all, i as int),
            decreases snap.strings.len() - i,
        {
            let s: String = snap.strings[i].clone();
            let n: usize = text::chars_of(s.as_str()).len();
            if i >= FIRST_USER as usize && n > 0 {
                fx::set_word(&mut to_id, s.clone(), i as u32);
            }
            to_str.push(s);
            i += 1;
        }
        while to_str.len() < FIRST_USER as usize
            invariant
                snap.strings.len() <= u32::MAX,
                all == text::texts(snap.strings@),
                snap.strings.len() <= to_str.len(),
                to_str.len() == snap.strings.len() || to_str.len() <= FIRST_USER,
                forall|k: int|
                    0 <= k < to_str.len() ==> (#[trigger] to_str[k])@ == (if k < all.len() {
                        all[k]
                    } else {
                        Seq::<char>::empty()
                    }),
            decreases FIRST_USER - to_str.len(),
        {
            to_str.push(String::new());
        }
        name_specials(&mut to_str);
        let r = Interner { to_id, to_str };
        proof {
            assert(r@.strings =~= restored(all));
            lemma_restored_ids(all, all.len() as int);
        }
        r
    }
}

/// The strings of an interner restored from a list of strings.
pub open spec fn restored(all: Seq<Seq<char>>) -> Seq<Seq<char>> {
    Seq::new(
        (if all.len() < FIRST_USER {
            FIRST_USER as nat
        } else {
            all.len()
        }),
        |i: int|
            if i < 3 {
                reserved(i)
            } else if i < all.len() {
                all[i]
            } else {
                Seq::<char>::empty()
            },
    )
}

/// The ids of an interner restored from the first `n` of a list of strings: of equal strings
/// the last counts.
pub open spec fn restored_ids(all: Seq<Seq<char>>, n: int) -> Map<Seq<char>, u32>
    decreases n,
{
    if n <= 0 {
        Map::empty()
    } else {
        let before = restored_ids(all, n - 1);
        if n - 1 >= FIRST_USER && all[n - 1].len() > 0 {
            before.insert(all[n - 1], (n - 1) as u32)
        } else {
            before
        }
    }
}

proof fn lemma_restored_ids(all: Seq<Seq<char>>, n: int)
    requires
        0 <= n <= all.len() <= u32::MAX,
    ensures
        forall|s: Seq<char>| #[trigger]
            restored_ids(all, n).dom().contains(s) ==> FIRST_USER <= restored_ids(all, n)[s] < n
                && all[restored_ids(all, n)[s] as int] == s,
    decreases n,
{
    if n > 0 {
        lemma_restored_ids(all, n - 1);
        let before = restored_ids(all, n - 1);
        assert forall|s: Seq<char>| #[trigger] restored_ids(all, n).dom().contains(s) implies FIRST_USER
            <= restored_ids(all, n)[s] < n && all[restored_ids(all, n)[s] as int] == s by {
            if !(n - 1 >= FIRST_USER && all[n - 1].len() > 0 && s == all[n - 1]) {
                assert(before.dom().contains(s));
            }
        }
    }
}

proof fn lemma_restored_dense(p: Vocab, n: int)
    requires
        vocab_wf(p),
        dense(p),
        forall|i: int| FIRST_USER <= i < p.strings.len() ==> (#[trigger] p.strings[i]).len() > 0,
        0 <= n <= p.strings.len(),
    ensures
        forall|s: Seq<char>| #[trigger]
            restored_ids(p.strings, n).dom().contains(s) <==> p.ids.dom().contains(s) && p.ids[s]
                < n,
        forall|s: Seq<char>| #[trigger]
            restored_ids(p.strings, n).dom().contains(s) ==> restored_ids(p.strings, n)[s]
                == p.ids[s],
    decreases n,
{
    if n > 0 {
        lemma_restored_dense(p, n - 1);
        let before = restored_ids(p.strings, n - 1);
        let now = restored_ids(p.strings, n);
        let last = p.strings[n - 1];
        assert forall|s: Seq<char>|
            now.dom().contains(s) == (p.ids.dom().contains(s) && p.ids[s] < n) && (now.dom().contains(
                s,
            ) ==> now[s] == p.ids[s]) by {
            assert(before.dom().contains(s) <==> p.ids.dom().contains(s) && p.ids[s] < n - 1);
            if p.ids.dom().contains(s) && p.ids[s] == n - 1 {
                assert(p.strings[p.ids[s] as int] == s);
            }
            if n - 1 >= FIRST_USER {
                assert(p.ids[p.strings[n - 1]] == n - 1);
            }
        }
    }
}

/// A snapshot restores the interner: the same strings under the same ids. Only an empty
/// string that was interned would lose its id.
pub proof fn law_snapshot_round_trip(p: Vocab)
    requires
        vocab_wf(p),
        dense(p),
        forall|i: int| FIRST_USER <= i < p.strings.len() ==> (#[trigger] p.strings[i]).len() > 0,
    ensures
        restored(p.strings) == p.strings,
        restored_ids(p.strings, p.strings.len() as int) == p.ids,
{
    lemma_restored_dense(p, p.strings.len() as int);
    assert(restored(p.strings) =~= p.strings);
    assert(restored_ids(p.strings, p.strings.len() as int) =~= p.ids) by {
        assert forall|s: Seq<char>|
            p.ids.dom().contains(s) implies p.ids[s] < p.strings.len() by {}
    }
}

/// Interning keeps what was interned: ids keep their strings, and the new string reads back.
pub proof fn law_intern_keeps(p: Vocab, s: Seq<char>)
    requires
        vocab_wf(p),
    ensures
        with(p, s).ids.dom().contains(s),
        text_of(with(p, s), with(p, s).ids[s]) == s,
        forall|i: int| 0 <= i < p.strings.len() ==> #[trigger] with(p, s).strings[i] == p.strings[i],
        forall|w: Seq<char>| #[trigger]
            p.ids.dom().contains(w) ==> with(p, s).ids.dom().contains(w) && with(p, s).ids[w]
                == p.ids[w],
        with(with(p, s), s) == with(p, s),
{
}

/// A string has one id and an id one string: a new string gets the next id, an old one keeps
/// its own, and a later string gets the same id only if it is the same string.
pub proof fn law_ids_tell_strings_apart(p: Vocab, s: Seq<char>, t: Seq<char>)
    requires
        vocab_wf(p),
        p.strings.len() < u32::MAX,
    ensures
        with(p, s).ids[s] >= FIRST_USER,
        p.ids.dom().contains(s) ==> with(p, s) == p,
        !p.ids.dom().contains(s) ==> with(p, s).ids[s] == p.strings.len() && with(
            p,
            s,
        ).strings.len() == p.strings.len() + 1,
        with(with(p, s), t).ids[t] == with(p, s).ids[s] <==> s == t,
{
}

proof fn lemma_with(p: Vocab, s: Seq<char>)
    requires
        vocab_wf(p),
        p.strings.len() < u32::MAX,
    ensures
        vocab_wf(with(p, s)),
        dense(p) ==> dense(with(p, s)),
{
}

/// Interning several strings keeps what was interned, and gives every one of them an id.
pub proof fn lemma_with_all(p: Vocab, ss: Seq<Seq<char>>)
    requires
        vocab_wf(p),
        p.strings.len() + ss.len() <= u32::MAX,
    ensures
        vocab_wf(with_all(p, ss)),
        dense(p) ==> dense(with_all(p, ss)),
        with_all(p, ss).strings.len() <= p.strings.len() + ss.len(),
        p.strings.len() <= with_all(p, ss).strings.len(),
        forall|i: int|
            0 <= i < p.strings.len() ==> #[trigger] with_all(p, ss).strings[i] == p.strings[i],
        forall|w: Seq<char>| #[trigger]
            p.ids.dom().contains(w) ==> with_all(p, ss).ids.dom().contains(w) && with_all(
                p,
                ss,
            ).ids[w] == p.ids[w],
        forall|j: int|
            0 <= j < ss.len() ==> with_all(p, ss).ids.dom().contains(#[trigger] ss[j]),
    decreases ss.len(),
{
    if ss.len() > 0 {
        let front = ss.drop_last();
        lemma_with_all(p, front);
        assert forall|j: int| 0 <= j < ss.len() implies with_all(p, ss).ids.dom().contains(
            #[trigger] ss[j],
        ) by {
            if j < ss.len() - 1 {
                assert(front[j] == ss[j]);
            }
        }
    }
}

/// Interning two lists one after the other is interning them as one.
pub proof fn lemma_with_all_add(p: Vocab, a: Seq<Seq<char>>, b: Seq<Seq<char>>)
    ensures
        with_all(with_all(p, a), b) == with_all(p, a + b),
    decreases b.len(),
{
    if b.len() == 0 {
        assert(a + b =~= a);
    } else {
        lemma_with_all_add(p, a, b.drop_last());
        assert((a + b).drop_last() =~= a + b.drop_last());
    }
}

/// Interning again what a vocabulary holds changes nothing: a text that was tokenised once
/// keeps its ids.
pub proof fn law_intern_again(p: Vocab, ss: Seq<Seq<char>>)
    requires
        forall|j: int| 0 <= j < ss.len() ==> p.ids.dom().contains(#[trigger] ss[j]),
    ensures
        with_all(p, ss) == p,
    decreases ss.len(),
{
    if ss.len() > 0 {
        let front = ss.drop_last();
        assert forall|j: int| 0 <= j < front.len() implies p.ids.dom().contains(
            #[trigger] front[j],
        ) by {
            assert(front[j] == ss[j]);
        }
        law_intern_again(p, front);
        assert(p.ids.dom().contains(ss[ss.len() - 1]));
    }
}

/// A new string gets the next id, and the others keep theirs; a known one changes nothing.
pub proof fn law_new_strings_get_the_next_id(p: Vocab, s: Seq<char>)
    requires
        p.strings.len() < u32::MAX,
    ensures
        p.ids.dom().contains(s) ==> with(p, s) == p,
        !p.ids.dom().contains(s) ==> {
            let q = with(p, s);
            &&& q.ids[s] == p.strings.len()
            &&& text_of(q, q.ids[s]) == s
            &&& q.strings.take(p.strings.len() as int) == p.strings
            &&& q.strings.len() == p.strings.len() + 1
            &&& forall|t: Seq<char>| t != s ==> (#[trigger] q.ids.dom().contains(t)
                <==> p.ids.dom().contains(t))
            &&& forall|t: Seq<char>| #[trigger] p.ids.dom().contains(t) ==> q.ids[t] == p.ids[t]
        },
{
    let q = with(p, s);
    if !p.ids.dom().contains(s) {
        assert(q.strings.take(p.strings.len() as int) =~= p.strings);
    }
}

} // verus!
