//! Suffixes of a string and their order.
use crate::count;
use vstd::prelude::*;

verus! {

/// The suffix at `i` is smaller than the suffix at `j`; one that ends first is smaller.
pub open spec fn suffix_lt(s: Seq<u32>, i: int, j: int) -> bool
    decreases s.len() - i,
{
    if j >= s.len() {
        false
    } else if i >= s.len() {
        true
    } else if s[i] != s[j] {
        s[i] < s[j]
    } else {
        suffix_lt(s, i + 1, j + 1)
    }
}

/// `sa` holds the start of every suffix of `s`, smallest suffix first.
pub open spec fn is_suffix_array(s: Seq<u32>, sa: Seq<u32>) -> bool {
    &&& sa.len() == s.len()
    &&& forall|a: int| 0 <= a < sa.len() ==> #[trigger] sa[a] < s.len()
    &&& forall|a: int, b: int| 0 <= a < b < sa.len() ==> #[trigger] suffix_lt(s, sa[a] as int, sa[b] as int)
}

/// Of two different suffixes exactly one is smaller.
pub proof fn lemma_suffix_total(s: Seq<u32>, i: int, j: int)
    requires
        0 <= i <= s.len(),
        0 <= j <= s.len(),
        i != j,
    ensures
        suffix_lt(s, i, j) != suffix_lt(s, j, i),
    decreases s.len() - i,
{
    if i < s.len() && j < s.len() && s[i] == s[j] {
        lemma_suffix_total(s, i + 1, j + 1);
    }
}

pub proof fn lemma_suffix_irreflexive(s: Seq<u32>, i: int)
    requires
        0 <= i,
    ensures
        !suffix_lt(s, i, i),
    decreases s.len() - i,
{
    if i < s.len() {
        lemma_suffix_irreflexive(s, i + 1);
    }
}

pub proof fn lemma_suffix_trans(s: Seq<u32>, i: int, j: int, k: int)
    requires
        0 <= i,
        0 <= j,
        0 <= k,
        suffix_lt(s, i, j),
        suffix_lt(s, j, k),
    ensures
        suffix_lt(s, i, k),
    decreases s.len() - i,
{
    if i < s.len() && j < s.len() && k < s.len() && s[i] == s[j] && s[j] == s[k] {
        lemma_suffix_trans(s, i + 1, j + 1, k + 1);
    }
}

/// A suffix array holds every start.
pub proof fn lemma_suffix_array_onto(s: Seq<u32>, sa: Seq<u32>, x: int) -> (a: int)
    requires
        is_suffix_array(s, sa),
        0 <= x < s.len(),
    ensures
        0 <= a < sa.len(),
        sa[a] == x,
{
    let f = |a: int| sa[a] as int;
    assert forall|a: int, b: int| 0 <= a < b < s.len() implies #[trigger] f(a) != #[trigger] f(b) by {
        assert(suffix_lt(s, sa[a] as int, sa[b] as int));
        lemma_suffix_irreflexive(s, sa[a] as int);
    }
    count::lemma_injective_onto(f, s.len() as int, x)
}

/// A string has one suffix array.
pub proof fn lemma_suffix_array_unique(s: Seq<u32>, a: Seq<u32>, b: Seq<u32>)
    requires
        is_suffix_array(s, a),
        is_suffix_array(s, b),
    ensures
        a == b,
{
    assert forall|i: int| 0 <= i < s.len() implies a[i] == b[i] by {
        lemma_same_upto(s, a, b, i);
    }
    assert(a =~= b);
}

proof fn lemma_same_upto(s: Seq<u32>, a: Seq<u32>, b: Seq<u32>, i: int)
    requires
        is_suffix_array(s, a),
        is_suffix_array(s, b),
        0 <= i < s.len(),
    ensures
        a[i] == b[i],
    decreases i,
{
    assert forall|k: int| 0 <= k < i implies a[k] == b[k] by {
        lemma_same_upto(s, a, b, k);
    }
    if a[i] != b[i] {
        let x = lemma_suffix_array_onto(s, b, a[i] as int);
        let y = lemma_suffix_array_onto(s, a, b[i] as int);
        if x < i {
            assert(a[x] == a[i]);
            assert(suffix_lt(s, a[x] as int, a[i] as int));
            lemma_suffix_irreflexive(s, a[i] as int);
        }
        if y < i {
            assert(b[y] == b[i]);
            assert(suffix_lt(s, b[y] as int, b[i] as int));
            lemma_suffix_irreflexive(s, b[i] as int);
        }
        assert(suffix_lt(s, b[i] as int, b[x] as int));
        assert(suffix_lt(s, a[i] as int, a[y] as int));
        lemma_suffix_total(s, a[i] as int, b[i] as int);
    }
}

/// Suffixes are ordered as words in a dictionary: behind what they have in common, the smaller
/// one ends, or goes on with the smaller symbol.
pub proof fn law_suffixes_are_in_dictionary_order(s: Seq<u32>, i: int, j: int)
    requires
        0 <= i <= s.len(),
        0 <= j <= s.len(),
    ensures
        suffix_lt(s, i, j) <==> exists|k: int|
            {
                &&& 0 <= k
                &&& i + k <= s.len()
                &&& j + k < s.len()
                &&& #[trigger] s.subrange(i, i + k) == s.subrange(j, j + k)
                &&& i + k == s.len() || s[i + k] < s[j + k]
            },
    decreases s.len() - i,
{
    if i < s.len() && j < s.len() && s[i] == s[j] {
        law_suffixes_are_in_dictionary_order(s, i + 1, j + 1);
        let a = i + 1;
        let b = j + 1;
        if suffix_lt(s, a, b) {
            let k = choose|k: int|
                {
                    &&& 0 <= k
                    &&& a + k <= s.len()
                    &&& b + k < s.len()
                    &&& #[trigger] s.subrange(a, a + k) == s.subrange(b, b + k)
                    &&& a + k == s.len() || s[a + k] < s[b + k]
                };
            let p = s.subrange(i, i + (k + 1));
            let q = s.subrange(j, j + (k + 1));
            assert forall|x: int| 0 <= x < k + 1 implies p[x] == q[x] by {
                if x > 0 {
                    assert(s.subrange(a, a + k)[x - 1] == s.subrange(b, b + k)[x - 1]);
                }
            }
            assert(p =~= q);
        }
        if exists|k: int|
            {
                &&& 0 <= k
                &&& i + k <= s.len()
                &&& j + k < s.len()
                &&& #[trigger] s.subrange(i, i + k) == s.subrange(j, j + k)
                &&& i + k == s.len() || s[i + k] < s[j + k]
            } {
            let k = choose|k: int|
                {
                    &&& 0 <= k
                    &&& i + k <= s.len()
                    &&& j + k < s.len()
                    &&& #[trigger] s.subrange(i, i + k) == s.subrange(j, j + k)
                    &&& i + k == s.len() || s[i + k] < s[j + k]
                };
            assert(k > 0);
            let p = s.subrange(a, a + (k - 1));
            let q = s.subrange(b, b + (k - 1));
            assert forall|x: int| 0 <= x < k - 1 implies p[x] == q[x] by {
                assert(s.subrange(i, i + k)[x + 1] == s.subrange(j, j + k)[x + 1]);
            }
            assert(p =~= q);
        }
    } else if suffix_lt(s, i, j) {
        assert(s.subrange(i, i + 0) =~= s.subrange(j, j + 0));
    } else {
        assert forall|k: int| 0 <= k && i + k <= s.len() && j + k < s.len() && #[trigger] s.subrange(
            i,
            i + k,
        ) == s.subrange(j, j + k) implies i + k < s.len() && s[i + k] >= s[j + k] by {
            if k > 0 {
                assert(s.subrange(i, i + k)[0] == s.subrange(j, j + k)[0]);
            }
        }
    }
}

/// Every suffix is listed, and none twice.
pub proof fn law_every_suffix_is_listed_once(s: Seq<u32>, sa: Seq<u32>, x: u32)
    requires
        is_suffix_array(s, sa),
        x < s.len(),
    ensures
        sa.contains(x),
        sa.no_duplicates(),
{
    let a = lemma_suffix_array_onto(s, sa, x as int);
    assert(sa[a] == x);
    assert forall|i: int, j: int| 0 <= i < j < sa.len() implies sa[i] != sa[j] by {
        assert(suffix_lt(s, sa[i] as int, sa[j] as int));
        lemma_suffix_irreflexive(s, sa[i] as int);
    }
}

} // verus!
