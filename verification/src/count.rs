//! Counting the positions of a range that satisfy a predicate.
use vstd::prelude::*;

verus! {

/// Number of positions in `0..n` at which `p` holds.
pub open spec fn count(p: spec_fn(int) -> bool, n: int) -> int
    decreases n,
{
    if n <= 0 {
        0
    } else {
        count(p, n - 1) + if p(n - 1) {
            1int
        } else {
            0int
        }
    }
}

pub proof fn lemma_count_bounds(p: spec_fn(int) -> bool, n: int)
    requires
        0 <= n,
    ensures
        0 <= count(p, n) <= n,
    decreases n,
{
    if n > 0 {
        lemma_count_bounds(p, n - 1);
    }
}

pub proof fn lemma_count_eq(p: spec_fn(int) -> bool, q: spec_fn(int) -> bool, n: int)
    requires
        forall|i: int|
            #![trigger p(i)]
            #![trigger q(i)]
            0 <= i < n ==> p(i) == q(i),
    ensures
        count(p, n) == count(q, n),
    decreases n,
{
    if n > 0 {
        lemma_count_eq(p, q, n - 1);
        assert(p(n - 1) == q(n - 1));
    }
}

pub proof fn lemma_count_le(p: spec_fn(int) -> bool, q: spec_fn(int) -> bool, n: int)
    requires
        forall|i: int|
            #![trigger p(i)]
            #![trigger q(i)]
            0 <= i < n && p(i) ==> q(i),
    ensures
        count(p, n) <= count(q, n),
    decreases n,
{
    if n > 0 {
        lemma_count_le(p, q, n - 1);
        assert(p(n - 1) ==> q(n - 1));
    }
}

/// A predicate that holds wherever another does, and at `x` besides, counts more.
pub proof fn lemma_count_lt(p: spec_fn(int) -> bool, q: spec_fn(int) -> bool, n: int, x: int)
    requires
        forall|i: int|
            #![trigger p(i)]
            #![trigger q(i)]
            0 <= i < n && p(i) ==> q(i),
        0 <= x < n,
        !p(x),
        q(x),
    ensures
        count(p, n) < count(q, n),
    decreases n,
{
    if x == n - 1 {
        lemma_count_le(p, q, n - 1);
    } else {
        lemma_count_lt(p, q, n - 1, x);
        assert(p(n - 1) ==> q(n - 1));
    }
}

/// The count of a disjoint union is the sum of the counts.
pub proof fn lemma_count_split(
    r: spec_fn(int) -> bool,
    p: spec_fn(int) -> bool,
    q: spec_fn(int) -> bool,
    n: int,
)
    requires
        forall|i: int|
            #![trigger r(i)]
            #![trigger p(i)]
            #![trigger q(i)]
            0 <= i < n ==> r(i) == (p(i) || q(i)),
        forall|i: int|
            #![trigger p(i)]
            #![trigger q(i)]
            0 <= i < n ==> !(p(i) && q(i)),
    ensures
        count(r, n) == count(p, n) + count(q, n),
    decreases n,
{
    if n > 0 {
        lemma_count_split(r, p, q, n - 1);
        assert(r(n - 1) == (p(n - 1) || q(n - 1)));
        assert(!(p(n - 1) && q(n - 1)));
    }
}

/// A predicate that gains exactly the position `x` counts one more.
pub proof fn lemma_count_add(p: spec_fn(int) -> bool, q: spec_fn(int) -> bool, n: int, x: int)
    requires
        0 <= x < n,
        !p(x),
        forall|i: int|
            #![trigger p(i)]
            #![trigger q(i)]
            0 <= i < n ==> q(i) == (p(i) || i == x),
    ensures
        count(q, n) == count(p, n) + 1,
    decreases n,
{
    assert(q(n - 1) == (p(n - 1) || n - 1 == x));
    if x == n - 1 {
        lemma_count_eq(p, q, n - 1);
    } else {
        lemma_count_add(p, q, n - 1, x);
    }
}

pub proof fn lemma_count_zero(p: spec_fn(int) -> bool, n: int)
    requires
        forall|i: int| 0 <= i < n ==> !(#[trigger] p(i)),
    ensures
        count(p, n) == 0,
    decreases n,
{
    if n > 0 {
        lemma_count_zero(p, n - 1);
        assert(!p(n - 1));
    }
}

pub proof fn lemma_count_all(p: spec_fn(int) -> bool, n: int)
    requires
        0 <= n,
        forall|i: int| 0 <= i < n ==> #[trigger] p(i),
    ensures
        count(p, n) == n,
    decreases n,
{
    if n > 0 {
        lemma_count_all(p, n - 1);
        assert(p(n - 1));
    }
}

/// A positive count has a witness.
pub proof fn lemma_count_witness(p: spec_fn(int) -> bool, n: int) -> (x: int)
    requires
        count(p, n) > 0,
    ensures
        0 <= x < n,
        p(x),
    decreases n,
{
    if p(n - 1) {
        n - 1
    } else {
        lemma_count_witness(p, n - 1)
    }
}

/// An injective map of `0..n` into itself reaches every position.
pub proof fn lemma_injective_onto(f: spec_fn(int) -> int, n: int, y: int) -> (x: int)
    requires
        forall|i: int| 0 <= i < n ==> 0 <= #[trigger] f(i) < n,
        forall|i: int, j: int| 0 <= i < j < n ==> #[trigger] f(i) != #[trigger] f(j),
        0 <= y < n,
    ensures
        0 <= x < n,
        f(x) == y,
{
    let s = Seq::new(n as nat, |i: int| f(i));
    if forall|i: int| 0 <= i < n ==> #[trigger] f(i) != y {
        assert(s.no_duplicates());
        s.unique_seq_to_set();
        let all = vstd::set_lib::set_int_range(0, n);
        vstd::set_lib::lemma_int_range(0, n);
        assert(s.to_set().subset_of(all.remove(y))) by {
            assert forall|v: int| s.to_set().contains(v) implies all.remove(y).contains(v) by {
                let i = choose|i: int| 0 <= i < s.len() && s[i] == v;
                assert(f(i) == v);
            }
        }
        vstd::set_lib::lemma_len_subset(s.to_set(), all.remove(y));
        assert(false);
    }
    choose|i: int| 0 <= i < n && #[trigger] f(i) == y
}

/// An injection from what satisfies `p` into what satisfies `q` bounds the count.
pub proof fn lemma_count_inject(
    p: spec_fn(int) -> bool,
    n: int,
    q: spec_fn(int) -> bool,
    m: int,
    f: spec_fn(int) -> int,
)
    requires
        forall|i: int| 0 <= i < n && #[trigger] p(i) ==> 0 <= f(i) < m && q(f(i)),
        forall|i: int, j: int|
            #![trigger p(i), p(j)]
            0 <= i < j < n && p(i) && p(j) ==> f(i) != f(j),
        0 <= m,
    ensures
        count(p, n) <= count(q, m),
    decreases n,
{
    if n <= 0 {
        lemma_count_bounds(q, m);
    } else if p(n - 1) {
        let x = f(n - 1);
        let r = |y: int| q(y) && y != x;
        assert forall|i: int| 0 <= i < n - 1 && #[trigger] p(i) implies 0 <= f(i) < m && r(f(i)) by {
            assert(p(n - 1));
        }
        lemma_count_inject(p, n - 1, r, m, f);
        lemma_count_add(r, q, m, x);
    } else {
        lemma_count_inject(p, n - 1, q, m, f);
    }
}

/// A count is the number of places of the range that the predicate picks.
pub proof fn law_count_is_how_many_are_picked(p: spec_fn(int) -> bool, n: int)
    requires
        0 <= n,
    ensures
        count(p, n) == Seq::new(n as nat, |i: int| i).filter(p).len(),
    decreases n,
{
    reveal(Seq::filter);
    let all = Seq::new(n as nat, |i: int| i);
    if n > 0 {
        law_count_is_how_many_are_picked(p, n - 1);
        assert(all.drop_last() =~= Seq::new((n - 1) as nat, |i: int| i));
        assert(all.last() == n - 1);
    }
}

} // verus!
