//! Hash maps and sets with the `rustc_hash` hasher.
//!
//! Each function makes one call on the collection and states what it does to the contents.
//! Nothing is said of the order in which a collection hands out what it holds.
use rustc_hash::FxBuildHasher;
use rustc_hash::FxHashMap;
use rustc_hash::FxHashSet;
use vstd::prelude::*;

verus! {

#[verifier::external_type_specification]
#[verifier::external_body]
pub struct ExFxBuildHasher(FxBuildHasher);

/// `HashMap::default` of an `FxHashMap`: a map that holds nothing.
#[verifier::external_body]
pub(crate) fn new_counts() -> (m: FxHashMap<u32, u32>)
    ensures
        m@ == (Map::<u32, u32>::empty()),
{
    FxHashMap::default()
}

/// `HashMap::get`: the value held for the key, if any.
#[verifier::external_body]
pub(crate) fn get_count(m: &FxHashMap<u32, u32>, k: u32) -> (r: Option<u32>)
    ensures
        r == (if m@.dom().contains(k) {
            Some(m@[k])
        } else {
            None
        }),
{
    m.get(&k).copied()
}

/// `HashMap::insert`: the key now has the value, the rest is as before.
#[verifier::external_body]
pub(crate) fn set_count(m: &mut FxHashMap<u32, u32>, k: u32, v: u32)
    ensures
        final(m)@ == old(m)@.insert(k, v),
{
    m.insert(k, v);
}

/// `HashMap::iter`: every key once, with its value, in no stated order.
#[verifier::external_body]
pub(crate) fn counts(m: &FxHashMap<u32, u32>) -> (r: Vec<(u32, u32)>)
    ensures
        forall|i: int|
            0 <= i < r.len() ==> m@.dom().contains((#[trigger] r[i]).0) && m@[r[i].0] == r[i].1,
        forall|i: int, j: int| 0 <= i < j < r.len() ==> (#[trigger] r[i]).0 != (#[trigger] r[j]).0,
        forall|k: u32|
            #[trigger] m@.dom().contains(k) ==> exists|i: int|
                0 <= i < r.len() && (#[trigger] r[i]).0 == k,
{
    m.iter().map(|(k, v)| (*k, *v)).collect()
}

/// `HashMap::default` of an `FxHashMap` on pairs: a map that holds nothing.
#[verifier::external_body]
pub(crate) fn new_pair_counts() -> (m: FxHashMap<(u32, u32), u32>)
    ensures
        m@ == (Map::<(u32, u32), u32>::empty()),
{
    FxHashMap::default()
}

/// `HashMap::get` on pairs: the value held for the pair, if any.
#[verifier::external_body]
pub(crate) fn get_pair_count(m: &FxHashMap<(u32, u32), u32>, k: (u32, u32)) -> (r: Option<u32>)
    ensures
        r == (if m@.dom().contains(k) {
            Some(m@[k])
        } else {
            None
        }),
{
    m.get(&k).copied()
}

/// `HashMap::insert` on pairs: the pair now has the value, the rest is as before.
#[verifier::external_body]
pub(crate) fn set_pair_count(m: &mut FxHashMap<(u32, u32), u32>, k: (u32, u32), v: u32)
    ensures
        final(m)@ == old(m)@.insert(k, v),
{
    m.insert(k, v);
}

/// `HashMap::iter` on pairs: every pair once, with its value, in no stated order.
#[verifier::external_body]
pub(crate) fn pair_counts(m: &FxHashMap<(u32, u32), u32>) -> (r: Vec<((u32, u32), u32)>)
    ensures
        forall|i: int|
            0 <= i < r.len() ==> m@.dom().contains((#[trigger] r[i]).0) && m@[r[i].0] == r[i].1,
        forall|i: int, j: int| 0 <= i < j < r.len() ==> (#[trigger] r[i]).0 != (#[trigger] r[j]).0,
        forall|k: (u32, u32)|
            #[trigger] m@.dom().contains(k) ==> exists|i: int|
                0 <= i < r.len() && (#[trigger] r[i]).0 == k,
{
    m.iter().map(|(k, v)| (*k, *v)).collect()
}

/// What a map from strings holds, by the strings' characters.
pub uninterp spec fn words(m: FxHashMap<String, u32>) -> Map<Seq<char>, u32>;

/// `HashMap::default` of an `FxHashMap` on strings: a map that holds nothing.
#[verifier::external_body]
pub(crate) fn new_words() -> (m: FxHashMap<String, u32>)
    ensures
        words(m) == (Map::<Seq<char>, u32>::empty()),
{
    FxHashMap::default()
}

/// `HashMap::get` on strings: the value held for the string, if any.
#[verifier::external_body]
pub(crate) fn get_word(m: &FxHashMap<String, u32>, k: &str) -> (r: Option<u32>)
    ensures
        r == (if words(*m).dom().contains(k@) {
            Some(words(*m)[k@])
        } else {
            None
        }),
{
    m.get(k).copied()
}

/// `HashMap::insert` on strings: the string now has the value, the rest is as before.
#[verifier::external_body]
pub(crate) fn set_word(m: &mut FxHashMap<String, u32>, k: String, v: u32)
    ensures
        words(*final(m)) == words(*old(m)).insert(k@, v),
{
    m.insert(k, v);
}

/// What a map from token runs holds, by the runs' tokens.
pub uninterp spec fn runs(m: FxHashMap<Vec<u32>, usize>) -> Map<Seq<u32>, usize>;

/// `HashMap::default` of an `FxHashMap` on runs: a map that holds nothing.
#[verifier::external_body]
pub(crate) fn new_runs() -> (m: FxHashMap<Vec<u32>, usize>)
    ensures
        runs(m) == (Map::<Seq<u32>, usize>::empty()),
{
    FxHashMap::default()
}

/// `HashMap::get` on runs: the value held for the run, if any.
#[verifier::external_body]
pub(crate) fn get_run(m: &FxHashMap<Vec<u32>, usize>, k: &Vec<u32>) -> (r: Option<usize>)
    ensures
        r == (if runs(*m).dom().contains(k@) {
            Some(runs(*m)[k@])
        } else {
            None
        }),
{
    m.get(k).copied()
}

/// `HashMap::insert` on runs: the run now has the value, the rest is as before.
#[verifier::external_body]
pub(crate) fn set_run(m: &mut FxHashMap<Vec<u32>, usize>, k: Vec<u32>, v: usize)
    ensures
        runs(*final(m)) == runs(*old(m)).insert(k@, v),
{
    m.insert(k, v);
}

/// `HashSet::default` of an `FxHashSet`: a set that holds nothing.
#[verifier::external_body]
pub(crate) fn new_ids() -> (s: FxHashSet<u32>)
    ensures
        s@ == Set::<u32>::empty(),
{
    FxHashSet::default()
}

/// `HashSet::insert`: the set holds the id, and the result says whether it is new to it.
#[verifier::external_body]
pub(crate) fn add_id(s: &mut FxHashSet<u32>, k: u32) -> (r: bool)
    ensures
        final(s)@ == old(s)@.insert(k),
        r == !old(s)@.contains(k),
{
    s.insert(k)
}

/// `HashSet::contains`: whether the set holds the id.
#[verifier::external_body]
pub(crate) fn has_id(s: &FxHashSet<u32>, k: u32) -> (r: bool)
    ensures
        r == s@.contains(k),
{
    s.contains(&k)
}

} // verus!
