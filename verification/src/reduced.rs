//! Names of leftmost-S substrings, and the reduced string that they spell.
use crate::induced;
use crate::suffix;
use vstd::prelude::*;

verus! {

/// Order of the substrings that start at `i` and `j` and end at the next leftmost-S
/// position, by symbol and then by type: negative, zero or positive.
pub open spec fn sub_order(s: Seq<u32>, t: Seq<bool>, i: int, j: int, first: bool) -> int
    decreases s.len() - i,
{
    if s[i] != s[j] {
        if s[i] < s[j] {
            -1
        } else {
            1
        }
    } else if t[i] != t[j] {
        if t[j] {
            -1
        } else {
            1
        }
    } else if !first && induced::lms(t, i) {
        0
    } else if i + 1 >= s.len() || j + 1 >= s.len() {
        0
    } else {
        sub_order(s, t, i + 1, j + 1, false)
    }
}

/// What holds of two positions that are met at one distance from two leftmost-S positions
/// with the same types between.
pub open spec fn in_step(t: Seq<bool>, i: int, j: int, first: bool) -> bool {
    if first {
        induced::lms(t, i) && induced::lms(t, j)
    } else {
        0 < i < t.len() && 0 < j < t.len() && t[i - 1] == t[j - 1]
    }
}

/// A string and its types.
pub open spec fn typed(s: Seq<u32>, t: Seq<bool>) -> bool {
    induced::sentinel_terminated(s) && induced::types_of(s, t)
}

/// Neither of two different positions with one symbol is the last.
proof fn lemma_not_last(s: Seq<u32>, i: int, j: int)
    requires
        induced::sentinel_terminated(s),
        0 <= i < s.len(),
        0 <= j < s.len(),
        i != j,
        s[i] == s[j],
    ensures
        i + 1 < s.len(),
        j + 1 < s.len(),
{
}

proof fn lemma_sub_order_range(s: Seq<u32>, t: Seq<bool>, i: int, j: int, first: bool)
    ensures
        -1 <= sub_order(s, t, i, j, first) <= 1,
    decreases s.len() - i,
{
    if i + 1 < s.len() {
        lemma_sub_order_range(s, t, i + 1, j + 1, false);
    }
}

/// Equal substrings read the other way round are equal.
pub proof fn lemma_sub_order_flip(s: Seq<u32>, t: Seq<bool>, i: int, j: int, first: bool)
    requires
        typed(s, t),
        in_step(t, i, j, first),
    ensures
        sub_order(s, t, i, j, first) == -sub_order(s, t, j, i, first),
    decreases s.len() - i,
{
    if s[i] == s[j] && t[i] == t[j] && i + 1 < s.len() && j + 1 < s.len() {
        lemma_sub_order_flip(s, t, i + 1, j + 1, false);
    }
}

pub proof fn lemma_sub_order_same(s: Seq<u32>, t: Seq<bool>, i: int, first: bool)
    ensures
        sub_order(s, t, i, i, first) == 0,
    decreases s.len() - i,
{
    if i + 1 < s.len() {
        lemma_sub_order_same(s, t, i + 1, false);
    }
}

/// The order of the substrings is transitive, and strict where a step is.
pub proof fn lemma_sub_order_trans(
    s: Seq<u32>,
    t: Seq<bool>,
    i: int,
    j: int,
    k: int,
    first: bool,
)
    requires
        typed(s, t),
        in_step(t, i, j, first),
        in_step(t, j, k, first),
        sub_order(s, t, i, j, first) <= 0,
        sub_order(s, t, j, k, first) <= 0,
    ensures
        sub_order(s, t, i, k, first) <= 0,
        sub_order(s, t, i, k, first) == 0 <==> (sub_order(s, t, i, j, first) == 0 && sub_order(
            s,
            t,
            j,
            k,
            first,
        ) == 0),
    decreases s.len() - i,
{
    if s[i] == s[j] && s[j] == s[k] && t[i] == t[j] && t[j] == t[k] && (first || !induced::lms(
        t,
        i,
    )) {
        if i != j {
            lemma_not_last(s, i, j);
        }
        if j != k {
            lemma_not_last(s, j, k);
        }
        if i + 1 < s.len() && j + 1 < s.len() && k + 1 < s.len() {
            lemma_sub_order_trans(s, t, i + 1, j + 1, k + 1, false);
        }
    }
}

proof fn lemma_before_l_sub(s: Seq<u32>, t: Seq<bool>, l: Seq<usize>, i: int, j: int)
    requires
        induced::sortable(s, t, l),
        induced::swept(t, i),
        induced::swept(t, j),
        induced::before_l(s, t, l, i, j),
    ensures
        sub_order(s, t, i, j, false) <= 0,
    decreases s.len() - i,
{
    if s[i] == s[j] && t[i] == t[j] && !t[i] && i + 1 < s.len() && j + 1 < s.len() {
        lemma_before_l_sub(s, t, l, i + 1, j + 1);
    }
}

/// Induced sorting puts substrings in order, whatever the list it started from.
pub proof fn lemma_before_sub(s: Seq<u32>, t: Seq<bool>, l: Seq<usize>, i: int, j: int, first: bool)
    requires
        induced::sortable(s, t, l),
        0 <= i < s.len(),
        0 <= j < s.len(),
        induced::before(s, t, l, i, j),
    ensures
        sub_order(s, t, i, j, first) <= 0,
    decreases s.len() - i,
{
    if s[i] == s[j] && t[i] == t[j] {
        if t[i] {
            if i + 1 < s.len() && j + 1 < s.len() {
                lemma_before_sub(s, t, l, i + 1, j + 1, false);
            }
        } else {
            if i + 1 < s.len() && j + 1 < s.len() {
                lemma_before_l_sub(s, t, l, i + 1, j + 1);
            }
        }
    }
}

/// With one symbol, an L-type suffix is smaller than an S-type one.
pub proof fn lemma_l_below_s(s: Seq<u32>, t: Seq<bool>, i: int, j: int)
    requires
        typed(s, t),
        0 <= i < s.len(),
        0 <= j < s.len(),
        s[i] == s[j],
        !t[i],
        t[j],
    ensures
        suffix::suffix_lt(s, i, j),
    decreases s.len() - i,
{
    lemma_not_last(s, i, j);
    assert(t[i] == (s[i] < s[i + 1] || (s[i] == s[i + 1] && t[i + 1])));
    assert(t[j] == (s[j] < s[j + 1] || (s[j] == s[j + 1] && t[j + 1])));
    if s[i + 1] == s[j + 1] {
        lemma_l_below_s(s, t, i + 1, j + 1);
    } else {
        reveal_with_fuel(suffix::suffix_lt, 2);
    }
}

/// A smaller substring starts a smaller suffix.
pub proof fn lemma_sub_lt(s: Seq<u32>, t: Seq<bool>, i: int, j: int, first: bool)
    requires
        typed(s, t),
        0 <= i < s.len(),
        0 <= j < s.len(),
        sub_order(s, t, i, j, first) < 0,
    ensures
        suffix::suffix_lt(s, i, j),
    decreases s.len() - i,
{
    if s[i] == s[j] {
        if t[i] != t[j] {
            lemma_l_below_s(s, t, i, j);
        } else {
            lemma_sub_lt(s, t, i + 1, j + 1, false);
        }
    }
}

/// The leftmost-S positions from left to right.
pub open spec fn lms_ascending(t: Seq<bool>, lp: Seq<usize>) -> bool {
    &&& induced::lists_lms(t, lp)
    &&& forall|a: int, b: int| 0 <= a < b < lp.len() ==> #[trigger] lp[a] < #[trigger] lp[b]
}

pub proof fn lemma_last_lms(s: Seq<u32>, t: Seq<bool>, lp: Seq<usize>)
    requires
        typed(s, t),
        lms_ascending(t, lp),
    ensures
        lp.len() >= 1,
        lp[lp.len() - 1] == s.len() - 1,
        induced::lms(t, s.len() - 1),
{
    let n = s.len() as int;
    assert(!t[n - 2]);
    assert(induced::lms(t, n - 1));
    induced::lemma_place(t, lp, n - 1);
    let m = induced::place(lp, n - 1);
    if m < lp.len() - 1 {
        assert(lp[m] < lp[lp.len() - 1]);
        assert(induced::lms(t, lp[lp.len() - 1] as int));
    }
}

proof fn lemma_sub_eq_walk(s: Seq<u32>, t: Seq<bool>, lp: Seq<usize>, x: int, y: int, i: int, j: int)
    requires
        typed(s, t),
        lms_ascending(t, lp),
        0 <= x < lp.len() - 1,
        0 <= y < lp.len() - 1,
        lp[x] < i <= lp[x + 1],
        lp[y] < j <= lp[y + 1],
        i != j,
        t[i - 1] == t[j - 1],
        sub_order(s, t, i, j, false) == 0,
    ensures
        suffix::suffix_lt(s, i, j) == suffix::suffix_lt(s, lp[x + 1] as int, lp[y + 1] as int),
    decreases s.len() - i,
{
    assert(induced::lms(t, lp[x + 1] as int));
    assert(induced::lms(t, lp[y + 1] as int));
    if induced::lms(t, i) {
        induced::lemma_place(t, lp, i);
        induced::lemma_place(t, lp, j);
        let a = induced::place(lp, i);
        let b = induced::place(lp, j);
        assert(a > x && b > y);
        if a > x + 1 {
            assert(lp[x + 1] < lp[a]);
        }
        if b > y + 1 {
            assert(lp[y + 1] < lp[b]);
        }
    } else {
        lemma_not_last(s, i, j);
        lemma_sub_eq_walk(s, t, lp, x, y, i + 1, j + 1);
    }
}

/// Suffixes that start with equal substrings are ordered as those at the next leftmost-S
/// positions are.
pub proof fn lemma_sub_eq(s: Seq<u32>, t: Seq<bool>, lp: Seq<usize>, x: int, y: int)
    requires
        typed(s, t),
        lms_ascending(t, lp),
        0 <= x < lp.len(),
        0 <= y < lp.len(),
        x != y,
        sub_order(s, t, lp[x] as int, lp[y] as int, true) == 0,
    ensures
        x + 1 < lp.len(),
        y + 1 < lp.len(),
        suffix::suffix_lt(s, lp[x] as int, lp[y] as int) == suffix::suffix_lt(
            s,
            lp[x + 1] as int,
            lp[y + 1] as int,
        ),
{
    lemma_last_lms(s, t, lp);
    assert(induced::lms(t, lp[x] as int));
    assert(induced::lms(t, lp[y] as int));
    assert(lp[x] != lp[y]) by {
        if x < y {
            assert(lp[x] < lp[y]);
        } else {
            assert(lp[y] < lp[x]);
        }
    }
    lemma_not_last(s, lp[x] as int, lp[y] as int);
    assert(lp[x] < lp[x + 1]);
    assert(lp[y] < lp[y + 1]);
    lemma_sub_eq_walk(s, t, lp, x, y, lp[x] + 1, lp[y] + 1);
}

/// `s1` spells the names of the leftmost-S substrings from left to right: equal names for
/// equal substrings, smaller names for smaller ones.
pub open spec fn names_of(s: Seq<u32>, t: Seq<bool>, lp: Seq<usize>, s1: Seq<u32>) -> bool {
    &&& s1.len() == lp.len()
    &&& forall|x: int, y: int|
        0 <= x < lp.len() && 0 <= y < lp.len() ==> {
            &&& #[trigger] s1[x] == #[trigger] s1[y] ==> sub_order(
                s,
                t,
                lp[x] as int,
                lp[y] as int,
                true,
            ) == 0
            &&& s1[x] < s1[y] ==> sub_order(s, t, lp[x] as int, lp[y] as int, true) < 0
        }
}

/// The suffixes of the reduced string are ordered as the suffixes they stand for.
pub proof fn lemma_reduced_order(
    s: Seq<u32>,
    t: Seq<bool>,
    lp: Seq<usize>,
    s1: Seq<u32>,
    x: int,
    y: int,
)
    requires
        typed(s, t),
        lms_ascending(t, lp),
        names_of(s, t, lp, s1),
        0 <= x < lp.len(),
        0 <= y < lp.len(),
        x != y,
    ensures
        suffix::suffix_lt(s1, x, y) == suffix::suffix_lt(s, lp[x] as int, lp[y] as int),
    decreases s1.len() - x,
{
    assert(induced::lms(t, lp[x] as int));
    assert(induced::lms(t, lp[y] as int));
    assert(lp[x] != lp[y]) by {
        if x < y {
            assert(lp[x] < lp[y]);
        } else {
            assert(lp[y] < lp[x]);
        }
    }
    if s1[x] < s1[y] {
        lemma_sub_lt(s, t, lp[x] as int, lp[y] as int, true);
    } else if s1[y] < s1[x] {
        lemma_sub_lt(s, t, lp[y] as int, lp[x] as int, true);
        suffix::lemma_suffix_total(s, lp[x] as int, lp[y] as int);
    } else {
        lemma_sub_eq(s, t, lp, x, y);
        lemma_reduced_order(s, t, lp, s1, x + 1, y + 1);
    }
}

proof fn lemma_before_l_is_suffix(s: Seq<u32>, t: Seq<bool>, l: Seq<usize>, i: int, j: int)
    requires
        induced::sortable(s, t, l),
        forall|a: int, b: int|
            0 <= a < b < l.len() ==> #[trigger] suffix::suffix_lt(s, l[a] as int, l[b] as int),
        induced::swept(t, i),
        induced::swept(t, j),
        i != j,
    ensures
        induced::before_l(s, t, l, i, j) == suffix::suffix_lt(s, i, j),
    decreases s.len() - i,
{
    if s[i] == s[j] {
        lemma_not_last(s, i, j);
        if t[i] != t[j] {
            if t[j] {
                lemma_l_below_s(s, t, i, j);
            } else {
                lemma_l_below_s(s, t, j, i);
                suffix::lemma_suffix_total(s, i, j);
            }
        } else if t[i] {
            induced::lemma_place(t, l, i);
            induced::lemma_place(t, l, j);
            let a = induced::place(l, i);
            let b = induced::place(l, j);
            suffix::lemma_suffix_total(s, i, j);
            if a < b {
                assert(suffix::suffix_lt(s, l[a] as int, l[b] as int));
            } else {
                assert(suffix::suffix_lt(s, l[b] as int, l[a] as int));
            }
        } else {
            lemma_before_l_is_suffix(s, t, l, i + 1, j + 1);
        }
    }
}

/// From a list in the order of the suffixes, induced sorting sorts the suffixes.
pub proof fn lemma_before_is_suffix(s: Seq<u32>, t: Seq<bool>, l: Seq<usize>, i: int, j: int)
    requires
        induced::sortable(s, t, l),
        forall|a: int, b: int|
            0 <= a < b < l.len() ==> #[trigger] suffix::suffix_lt(s, l[a] as int, l[b] as int),
        0 <= i < s.len(),
        0 <= j < s.len(),
        i != j,
    ensures
        induced::before(s, t, l, i, j) == suffix::suffix_lt(s, i, j),
    decreases s.len() - i,
{
    if s[i] == s[j] {
        lemma_not_last(s, i, j);
        if t[i] != t[j] {
            if t[j] {
                lemma_l_below_s(s, t, i, j);
            } else {
                lemma_l_below_s(s, t, j, i);
                suffix::lemma_suffix_total(s, i, j);
            }
        } else if t[i] {
            lemma_before_is_suffix(s, t, l, i + 1, j + 1);
        } else {
            lemma_before_l_is_suffix(s, t, l, i, j);
        }
    }
}

} // verus!
