//! Occurrences in a sequence, and tables that count them.
use vstd::prelude::*;

verus! {

/// How often `x` occurs.
pub open spec fn occ<T>(xs: Seq<T>, x: T) -> int
    decreases xs.len(),
{
    if xs.len() == 0 {
        0
    } else {
        occ(xs.drop_last(), x) + (if xs.last() == x {
            1int
        } else {
            0
        })
    }
}

/// `m` holds each element that occurs, with how often it does.
pub open spec fn is_tally<T>(m: Map<T, u32>, xs: Seq<T>) -> bool {
    &&& forall|x: T| #[trigger] m.dom().contains(x) <==> occ(xs, x) > 0
    &&& forall|x: T| #[trigger] m.dom().contains(x) ==> m[x] == occ(xs, x)
}

/// `m` holds no element more often than it occurs, and none without an occurrence.
pub open spec fn within_tally<T>(m: Map<T, u32>, xs: Seq<T>) -> bool {
    forall|x: T| #[trigger] m.dom().contains(x) ==> 0 < m[x] <= occ(xs, x)
}

/// The adjacent pairs.
pub open spec fn pairs<T>(xs: Seq<T>) -> Seq<(T, T)> {
    Seq::new(
        (if xs.len() == 0 {
            0
        } else {
            xs.len() - 1
        }) as nat,
        |i: int| (xs[i], xs[i + 1]),
    )
}

pub proof fn lemma_occ_bounds<T>(xs: Seq<T>, x: T)
    ensures
        0 <= occ(xs, x) <= xs.len(),
    decreases xs.len(),
{
    if xs.len() > 0 {
        lemma_occ_bounds(xs.drop_last(), x);
    }
}

pub proof fn lemma_occ_push<T>(xs: Seq<T>, y: T, x: T)
    ensures
        occ(xs.push(y), x) == occ(xs, x) + (if y == x {
            1int
        } else {
            0
        }),
{
    assert(xs.push(y).drop_last() =~= xs);
}

pub proof fn lemma_occ_pos<T>(xs: Seq<T>, x: T, i: int)
    requires
        0 <= i < xs.len(),
        xs[i] == x,
    ensures
        occ(xs, x) > 0,
    decreases xs.len(),
{
    lemma_occ_bounds(xs.drop_last(), x);
    if i < xs.len() - 1 {
        lemma_occ_pos(xs.drop_last(), x, i);
    }
}

pub proof fn lemma_occ_witness<T>(xs: Seq<T>, x: T) -> (i: int)
    requires
        occ(xs, x) > 0,
    ensures
        0 <= i < xs.len(),
        xs[i] == x,
    decreases xs.len(),
{
    if xs.last() == x {
        xs.len() - 1
    } else {
        lemma_occ_witness(xs.drop_last(), x)
    }
}

pub proof fn lemma_occ_add<T>(xs: Seq<T>, ys: Seq<T>, x: T)
    ensures
        occ(xs + ys, x) == occ(xs, x) + occ(ys, x),
    decreases ys.len(),
{
    if ys.len() == 0 {
        assert(xs + ys =~= xs);
    } else {
        assert((xs + ys).drop_last() =~= xs + ys.drop_last());
        lemma_occ_add(xs, ys.drop_last(), x);
    }
}

/// A longer sequence has one more pair.
pub proof fn lemma_pairs_push<T>(xs: Seq<T>, y: T)
    ensures
        xs.len() == 0 ==> pairs(xs.push(y)) == pairs(xs),
        xs.len() > 0 ==> pairs(xs.push(y)) == pairs(xs).push((xs.last(), y)),
{
    if xs.len() == 0 {
        assert(pairs(xs.push(y)) =~= pairs(xs));
    } else {
        assert(pairs(xs.push(y)) =~= pairs(xs).push((xs.last(), y)));
    }
}

/// Two tallies of one sequence are equal.
pub proof fn lemma_tally_unique<T>(a: Map<T, u32>, b: Map<T, u32>, xs: Seq<T>)
    requires
        is_tally(a, xs),
        is_tally(b, xs),
    ensures
        a == b,
{
    assert forall|x: T| a.dom().contains(x) <==> b.dom().contains(x) by {}
    assert(a =~= b);
}

/// Counting one more element.
pub proof fn lemma_tally_push<T>(m: Map<T, u32>, xs: Seq<T>, y: T)
    requires
        is_tally(m, xs),
        xs.len() < u32::MAX,
    ensures
        is_tally(
            m.insert(
                y,
                (if m.dom().contains(y) {
                    m[y] + 1
                } else {
                    1
                }) as u32,
            ),
            xs.push(y),
        ),
{
    lemma_occ_bounds(xs, y);
    assert forall|x: T| true implies #[trigger] occ(xs.push(y), x) == occ(xs, x) + (if y == x {
        1int
    } else {
        0
    }) && occ(xs, x) >= 0 by {
        lemma_occ_push(xs, y, x);
        lemma_occ_bounds(xs, x);
    }
}

pub proof fn lemma_within_push<T>(m: Map<T, u32>, xs: Seq<T>, y: T)
    requires
        within_tally(m, xs),
        xs.len() < u32::MAX,
    ensures
        within_tally(
            m.insert(
                y,
                (if m.dom().contains(y) {
                    m[y] + 1
                } else {
                    1
                }) as u32,
            ),
            xs.push(y),
        ),
        within_tally(m, xs.push(y)),
{
    lemma_occ_bounds(xs, y);
    assert forall|x: T| true implies #[trigger] occ(xs.push(y), x) == occ(xs, x) + (if y == x {
        1int
    } else {
        0
    }) && occ(xs, x) >= 0 by {
        lemma_occ_push(xs, y, x);
        lemma_occ_bounds(xs, x);
    }
}

/// Sum of how often each key occurs.
pub open spec fn sum_occ<T>(keys: Seq<T>, xs: Seq<T>) -> int
    decreases keys.len(),
{
    if keys.len() == 0 {
        0
    } else {
        sum_occ(keys.drop_last(), xs) + occ(xs, keys.last())
    }
}

proof fn lemma_sum_occ_empty<T>(keys: Seq<T>, xs: Seq<T>)
    requires
        xs.len() == 0,
    ensures
        sum_occ(keys, xs) == 0,
    decreases keys.len(),
{
    if keys.len() > 0 {
        lemma_sum_occ_empty(keys.drop_last(), xs);
    }
}

proof fn lemma_sum_occ_push<T>(keys: Seq<T>, xs: Seq<T>, y: T)
    requires
        keys.no_duplicates(),
    ensures
        sum_occ(keys, xs.push(y)) == sum_occ(keys, xs) + (if keys.contains(y) {
            1int
        } else {
            0
        }),
    decreases keys.len(),
{
    if keys.len() > 0 {
        let front = keys.drop_last();
        lemma_sum_occ_push(front, xs, y);
        lemma_occ_push(xs, y, keys.last());
        if keys.last() == y {
            assert(keys.contains(y)) by {
                assert(keys[keys.len() - 1] == y);
            }
            assert(!front.contains(y));
        } else {
            if keys.contains(y) {
                let i = choose|i: int| 0 <= i < keys.len() && keys[i] == y;
                assert(front[i] == y);
            }
            if front.contains(y) {
                let i = choose|i: int| 0 <= i < front.len() && front[i] == y;
                assert(keys[i] == y);
            }
        }
    }
}

/// Distinct keys that cover the sequence account for all of it.
pub proof fn lemma_sum_occ<T>(keys: Seq<T>, xs: Seq<T>)
    requires
        keys.no_duplicates(),
        forall|i: int| 0 <= i < xs.len() ==> keys.contains(#[trigger] xs[i]),
    ensures
        sum_occ(keys, xs) == xs.len(),
    decreases xs.len(),
{
    if xs.len() == 0 {
        lemma_sum_occ_empty(keys, xs);
    } else {
        let ys = xs.drop_last();
        assert forall|i: int| 0 <= i < ys.len() implies keys.contains(#[trigger] ys[i]) by {
            assert(ys[i] == xs[i]);
        }
        lemma_sum_occ(keys, ys);
        lemma_sum_occ_push(keys, ys, xs.last());
        assert(keys.contains(xs[xs.len() - 1]));
        assert(ys.push(xs.last()) =~= xs);
    }
}

/// Sum of the counts of a table.
pub open spec fn sum_counts(v: Seq<(u32, u32)>) -> int
    decreases v.len(),
{
    if v.len() == 0 {
        0
    } else {
        sum_counts(v.drop_last()) + v.last().1
    }
}

pub proof fn lemma_sum_counts_bounds(v: Seq<(u32, u32)>, k: int)
    requires
        0 <= k <= v.len(),
    ensures
        0 <= sum_counts(v.subrange(0, k)) <= sum_counts(v),
    decreases v.len() - k,
{
    lemma_sum_counts_nonneg(v.subrange(0, k));
    if k < v.len() {
        lemma_sum_counts_bounds(v, k + 1);
        assert(v.subrange(0, k + 1).drop_last() =~= v.subrange(0, k));
    } else {
        assert(v.subrange(0, k) =~= v);
    }
}

proof fn lemma_sum_counts_nonneg(v: Seq<(u32, u32)>)
    ensures
        sum_counts(v) >= 0,
    decreases v.len(),
{
    if v.len() > 0 {
        lemma_sum_counts_nonneg(v.drop_last());
    }
}

/// A table of how often its keys occur sums up to the occurrences of the keys.
pub proof fn lemma_sum_counts_occ(v: Seq<(u32, u32)>, xs: Seq<u32>)
    requires
        forall|i: int| 0 <= i < v.len() ==> (#[trigger] v[i]).1 == occ(xs, v[i].0),
    ensures
        sum_counts(v) == sum_occ(v.map_values(|e: (u32, u32)| e.0), xs),
    decreases v.len(),
{
    let keys = v.map_values(|e: (u32, u32)| e.0);
    if v.len() > 0 {
        let w = v.drop_last();
        assert forall|i: int| 0 <= i < w.len() implies (#[trigger] w[i]).1 == occ(xs, w[i].0) by {
            assert(w[i] == v[i]);
        }
        lemma_sum_counts_occ(w, xs);
        assert(keys.drop_last() =~= w.map_values(|e: (u32, u32)| e.0));
        assert(v[v.len() - 1].1 == occ(xs, v[v.len() - 1].0));
    }
}

/// `v` lists, by ascending element, every element that occurs, with how often it does.
pub open spec fn is_table(v: Seq<(u32, u32)>, xs: Seq<u32>) -> bool {
    &&& forall|i: int, j: int| 0 <= i < j < v.len() ==> (#[trigger] v[i]).0 < (#[trigger] v[j]).0
    &&& forall|i: int| 0 <= i < v.len() ==> 0 < (#[trigger] v[i]).1 == occ(xs, v[i].0)
    &&& forall|x: u32|
        #![trigger occ(xs, x)]
        occ(xs, x) > 0 ==> exists|i: int| 0 <= i < v.len() && (#[trigger] v[i]).0 == x
}

/// The counts of a table add up to the sequence's length.
pub proof fn lemma_table_sum(v: Seq<(u32, u32)>, xs: Seq<u32>)
    requires
        is_table(v, xs),
    ensures
        sum_counts(v) == xs.len(),
{
    let keys = v.map_values(|e: (u32, u32)| e.0);
    lemma_sum_counts_occ(v, xs);
    assert(keys.no_duplicates());
    assert forall|i: int| 0 <= i < xs.len() implies keys.contains(#[trigger] xs[i]) by {
        lemma_occ_pos(xs, xs[i], i);
        let j = choose|j: int| 0 <= j < v.len() && (#[trigger] v[j]).0 == xs[i];
        assert(keys[j] == xs[i]);
    }
    lemma_sum_occ(keys, xs);
}

/// A sequence has one table of counts, in whichever way it was counted.
pub proof fn law_table_is_one(a: Seq<(u32, u32)>, b: Seq<(u32, u32)>, xs: Seq<u32>)
    requires
        is_table(a, xs),
        is_table(b, xs),
    ensures
        a == b,
{
    lemma_table_prefix(a, b, xs, a.len() as int);
    lemma_table_prefix(b, a, xs, b.len() as int);
    assert(a =~= b);
}

proof fn lemma_table_prefix(a: Seq<(u32, u32)>, b: Seq<(u32, u32)>, xs: Seq<u32>, k: int)
    requires
        is_table(a, xs),
        is_table(b, xs),
        0 <= k <= a.len(),
    ensures
        k <= b.len(),
        forall|i: int| 0 <= i < k ==> #[trigger] a[i] == b[i],
    decreases k,
{
    if k > 0 {
        lemma_table_prefix(a, b, xs, k - 1);
        let x = a[k - 1].0;
        assert(occ(xs, x) > 0);
        let j = choose|j: int| 0 <= j < b.len() && (#[trigger] b[j]).0 == x;
        if j < k - 1 {
            assert(a[j] == b[j]);
            assert(a[j].0 < a[k - 1].0);
        }
        let y = b[k - 1].0;
        assert(occ(xs, y) > 0);
        let i = choose|i: int| 0 <= i < a.len() && (#[trigger] a[i]).0 == y;
        if i < k - 1 {
            assert(a[i] == b[i]);
            assert(b[i].0 < b[k - 1].0);
        }
        if j > k - 1 {
            assert(b[k - 1].0 < b[j].0);
            assert(i > k - 1 ==> a[k - 1].0 < a[i].0);
        }
    }
}

/// The tokens that a condition admits, each where it first occurs.
pub open spec fn firsts(xs: Seq<u32>, wanted: spec_fn(u32) -> bool) -> Seq<u32>
    decreases xs.len(),
{
    if xs.len() == 0 {
        Seq::empty()
    } else {
        let front = firsts(xs.drop_last(), wanted);
        if wanted(xs.last()) && !front.contains(xs.last()) {
            front.push(xs.last())
        } else {
            front
        }
    }
}

/// What a list holds after a push.
pub proof fn lemma_push_contains<T>(s: Seq<T>, x: T)
    ensures
        forall|y: T| #[trigger] s.push(x).contains(y) <==> s.contains(y) || y == x,
{
    assert forall|y: T| s.contains(y) || y == x implies #[trigger] s.push(x).contains(y) by {
        if s.contains(y) {
            let k = choose|k: int| 0 <= k < s.len() && s[k] == y;
            assert(s.push(x)[k] == y);
        } else {
            assert(s.push(x)[s.len() as int] == y);
        }
    }
}

/// The admitted tokens are listed once each: whatever the list holds and the condition admits,
/// and nothing else, in the order in which they first stand there.
pub proof fn law_firsts_lists_each_once(xs: Seq<u32>, wanted: spec_fn(u32) -> bool)
    ensures
        forall|y: u32| #[trigger] firsts(xs, wanted).contains(y) <==> xs.contains(y) && wanted(y),
        firsts(xs, wanted).no_duplicates(),
    decreases xs.len(),
{
    if xs.len() > 0 {
        let front = firsts(xs.drop_last(), wanted);
        law_firsts_lists_each_once(xs.drop_last(), wanted);
        lemma_push_contains(front, xs.last());
        lemma_push_contains(xs.drop_last(), xs.last());
        assert(xs =~= xs.drop_last().push(xs.last()));
    }
}

/// An element occurs as often as the list holds it, wherever it stands.
pub proof fn law_occurrences_are_counted<T>(xs: Seq<T>, x: T)
    ensures
        occ(xs, x) == xs.to_multiset().count(x),
        occ(xs, x) == xs.filter(|y: T| y == x).len(),
    decreases xs.len(),
{
    broadcast use vstd::seq_lib::group_to_multiset_ensures;

    reveal(Seq::filter);
    if xs.len() > 0 {
        law_occurrences_are_counted(xs.drop_last(), x);
        assert(xs =~= xs.drop_last().push(xs.last()));
    } else {
        assert(xs =~= Seq::empty());
    }
}

/// Each element but the last is paired with the one behind it.
pub proof fn law_neighbours_are_paired<T>(xs: Seq<T>)
    ensures
        xs.len() == 0 ==> pairs(xs).len() == 0,
        xs.len() > 0 ==> pairs(xs).len() == xs.len() - 1,
        forall|i: int|
            0 <= i < pairs(xs).len() ==> #[trigger] pairs(xs)[i] == (xs[i], xs[i + 1]),
{
}

/// A table lists what occurs, by rising element, and its counts add up to the length.
pub proof fn law_a_table_counts_everything(v: Seq<(u32, u32)>, xs: Seq<u32>, x: u32)
    requires
        is_table(v, xs),
    ensures
        forall|i: int, j: int| 0 <= i < j < v.len() ==> (#[trigger] v[i]).0 < (#[trigger] v[j]).0,
        xs.contains(x) <==> exists|i: int| 0 <= i < v.len() && (#[trigger] v[i]).0 == x,
        forall|i: int|
            0 <= i < v.len() ==> (#[trigger] v[i]).1 == xs.to_multiset().count(v[i].0),
        v.map_values(|e: (u32, u32)| e.1 as int).fold_left(0int, |a: int, b: int| a + b)
            == xs.len(),
{
    lemma_table_sum(v, xs);
    lemma_sum_is_fold(v);
    assert forall|i: int| 0 <= i < v.len() implies (#[trigger] v[i]).1 == xs.to_multiset().count(
        v[i].0,
    ) by {
        law_occurrences_are_counted(xs, v[i].0);
    }
    if xs.contains(x) {
        let i = choose|i: int| 0 <= i < xs.len() && xs[i] == x;
        lemma_occ_pos(xs, x, i);
    }
    if exists|i: int| 0 <= i < v.len() && (#[trigger] v[i]).0 == x {
        let i = choose|i: int| 0 <= i < v.len() && (#[trigger] v[i]).0 == x;
        assert(v[i].1 == occ(xs, x));
        let j = lemma_occ_witness(xs, x);
        assert(xs[j] == x);
    }
}

proof fn lemma_sum_is_fold(v: Seq<(u32, u32)>)
    ensures
        v.map_values(|e: (u32, u32)| e.1 as int).fold_left(0int, |a: int, b: int| a + b)
            == sum_counts(v),
    decreases v.len(),
{
    reveal_with_fuel(Seq::fold_left, 2);
    let cs = v.map_values(|e: (u32, u32)| e.1 as int);
    if v.len() > 0 {
        lemma_sum_is_fold(v.drop_last());
        assert(cs.drop_last() =~= v.drop_last().map_values(|e: (u32, u32)| e.1 as int));
    }
}

/// A tally counts exactly what occurs, as often as it does.
pub proof fn law_a_tally_counts_what_occurs<T>(m: Map<T, u32>, xs: Seq<T>, x: T)
    requires
        is_tally(m, xs),
    ensures
        m.dom().contains(x) <==> xs.contains(x),
        xs.contains(x) ==> m[x] == xs.to_multiset().count(x),
{
    law_occurrences_are_counted(xs, x);
    if xs.contains(x) {
        let i = choose|i: int| 0 <= i < xs.len() && xs[i] == x;
        lemma_occ_pos(xs, x, i);
    }
    if m.dom().contains(x) {
        let i = lemma_occ_witness(xs, x);
        assert(xs[i] == x);
    }
}

/// The firsts come in the order in which they first occur: those of a beginning are the
/// beginning of those of the whole.
pub proof fn law_firsts_keep_their_order(xs: Seq<u32>, wanted: spec_fn(u32) -> bool, k: int)
    requires
        0 <= k <= xs.len(),
    ensures
        firsts(xs.take(k), wanted).len() <= firsts(xs, wanted).len(),
        firsts(xs, wanted).take(firsts(xs.take(k), wanted).len() as int) == firsts(
            xs.take(k),
            wanted,
        ),
    decreases xs.len(),
{
    if k == xs.len() {
        assert(xs.take(k) =~= xs);
        assert(firsts(xs, wanted).take(firsts(xs, wanted).len() as int) =~= firsts(xs, wanted));
    } else {
        let front = xs.drop_last();
        law_firsts_keep_their_order(front, wanted, k);
        assert(front.take(k) =~= xs.take(k));
        let n = firsts(xs.take(k), wanted).len() as int;
        assert(firsts(xs, wanted).take(n) =~= firsts(front, wanted).take(n));
    }
}

} // verus!
