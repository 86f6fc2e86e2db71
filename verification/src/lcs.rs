//! What two token lists share: as a subsequence, and as one contiguous run.
use crate::ids::TokenId;
use vstd::prelude::*;

verus! {

pub open spec fn larger(a: nat, b: nat) -> nat {
    if a < b {
        b
    } else {
        a
    }
}

/// Length of the longest common subsequence.
pub open spec fn lcs(a: Seq<u32>, b: Seq<u32>) -> nat
    decreases a.len() + b.len(),
{
    if a.len() == 0 || b.len() == 0 {
        0
    } else if a.last() == b.last() {
        lcs(a.drop_last(), b.drop_last()) + 1
    } else {
        larger(lcs(a.drop_last(), b), lcs(a, b.drop_last()))
    }
}

/// The positions `p` of `a` and `q` of `b` pick one subsequence out of both.
pub open spec fn is_common(a: Seq<u32>, b: Seq<u32>, p: Seq<int>, q: Seq<int>) -> bool {
    &&& p.len() == q.len()
    &&& forall|k: int| 0 <= k < p.len() ==> 0 <= #[trigger] p[k] < a.len()
    &&& forall|k: int| 0 <= k < p.len() ==> 0 <= #[trigger] q[k] < b.len()
    &&& forall|k: int| 0 <= k < p.len() ==> a[#[trigger] p[k]] == b[q[k]]
    &&& forall|k: int, l: int| 0 <= k < l < p.len() ==> #[trigger] p[k] < #[trigger] p[l]
    &&& forall|k: int, l: int| 0 <= k < l < p.len() ==> #[trigger] q[k] < #[trigger] q[l]
}

proof fn lemma_symmetric(a: Seq<u32>, b: Seq<u32>)
    ensures
        lcs(a, b) == lcs(b, a),
    decreases a.len() + b.len(),
{
    if a.len() > 0 && b.len() > 0 {
        lemma_symmetric(a.drop_last(), b.drop_last());
        lemma_symmetric(a.drop_last(), b);
        lemma_symmetric(a, b.drop_last());
    }
}

proof fn lemma_monotone(a: Seq<u32>, b: Seq<u32>)
    requires
        a.len() > 0,
    ensures
        lcs(a.drop_last(), b) <= lcs(a, b) <= lcs(a.drop_last(), b) + 1,
    decreases a.len() + b.len(),
{
    if b.len() > 0 {
        let da = a.drop_last();
        let db = b.drop_last();
        lemma_monotone(a, db);
        lemma_symmetric(da, b);
        lemma_symmetric(da, db);
        lemma_monotone(b, da);
        lemma_symmetric(a, b);
        lemma_symmetric(a, db);
    }
}

/// A common subsequence of that length exists.
pub proof fn law_lcs_is_attained(a: Seq<u32>, b: Seq<u32>) -> (r: (Seq<int>, Seq<int>))
    ensures
        is_common(a, b, r.0, r.1),
        r.0.len() == lcs(a, b),
    decreases a.len() + b.len(),
{
    if a.len() == 0 || b.len() == 0 {
        (Seq::empty(), Seq::empty())
    } else if a.last() == b.last() {
        let (p, q) = law_lcs_is_attained(a.drop_last(), b.drop_last());
        let r = (p.push(a.len() - 1), q.push(b.len() - 1));
        assert forall|k: int| 0 <= k < r.0.len() implies a[#[trigger] r.0[k]] == b[r.1[k]] by {
            if k < p.len() {
                assert(a.drop_last()[p[k]] == b.drop_last()[q[k]]);
            }
        }
        r
    } else if lcs(a.drop_last(), b) >= lcs(a, b.drop_last()) {
        let (p, q) = law_lcs_is_attained(a.drop_last(), b);
        assert forall|k: int| 0 <= k < p.len() implies a[#[trigger] p[k]] == b[q[k]] by {
            assert(a.drop_last()[p[k]] == b[q[k]]);
        }
        (p, q)
    } else {
        let (p, q) = law_lcs_is_attained(a, b.drop_last());
        assert forall|k: int| 0 <= k < p.len() implies a[#[trigger] p[k]] == b[q[k]] by {
            assert(a[p[k]] == b.drop_last()[q[k]]);
        }
        (p, q)
    }
}

/// No common subsequence is longer.
pub proof fn law_lcs_is_longest(a: Seq<u32>, b: Seq<u32>, p: Seq<int>, q: Seq<int>)
    requires
        is_common(a, b, p, q),
    ensures
        p.len() <= lcs(a, b),
    decreases a.len() + b.len(),
{
    if p.len() > 0 {
        let n = p.len() - 1;
        assert(0 <= p[n] < a.len());
        assert(0 <= q[n] < b.len());
        let da = a.drop_last();
        let db = b.drop_last();
        if p[n] < a.len() - 1 {
            assert forall|k: int| 0 <= k < p.len() implies 0 <= #[trigger] p[k] < da.len() by {
                if k < n {
                    assert(p[k] < p[n]);
                }
            }
            assert forall|k: int| 0 <= k < p.len() implies da[#[trigger] p[k]] == b[q[k]] by {}
            law_lcs_is_longest(da, b, p, q);
            lemma_monotone(a, b);
        } else if q[n] < b.len() - 1 {
            assert forall|k: int| 0 <= k < p.len() implies 0 <= #[trigger] q[k] < db.len() by {
                if k < n {
                    assert(q[k] < q[n]);
                }
            }
            assert forall|k: int| 0 <= k < p.len() implies a[#[trigger] p[k]] == db[q[k]] by {}
            law_lcs_is_longest(a, db, p, q);
            lemma_monotone(b, a);
            lemma_symmetric(a, b);
            lemma_symmetric(a, db);
        } else {
            let p1 = p.drop_last();
            let q1 = q.drop_last();
            assert forall|k: int| 0 <= k < p1.len() implies 0 <= #[trigger] p1[k] < da.len() by {
                assert(p[k] < p[n]);
            }
            assert forall|k: int| 0 <= k < p1.len() implies 0 <= #[trigger] q1[k] < db.len() by {
                assert(q[k] < q[n]);
            }
            assert forall|k: int| 0 <= k < p1.len() implies da[#[trigger] p1[k]] == db[q1[k]] by {
                assert(a[p[k]] == b[q[k]]);
            }
            law_lcs_is_longest(da, db, p1, q1);
            assert(a[p[n]] == b[q[n]]);
        }
    }
}

/// Longest common token subsequence length (novelty / rote-memorisation).
pub fn lcs_len(a: &[TokenId], b: &[TokenId]) -> (r: usize)
    ensures
        r == lcs(a@, b@),
{
    if a.len() < b.len() {
        lcs_rows(a, b)
    } else {
        proof {
            lemma_symmetric(a@, b@);
        }
        lcs_rows(b, a)
    }
}

/// Row by row over the second list.
fn lcs_rows(x: &[TokenId], y: &[TokenId]) -> (r: usize)
    requires
        x.len() <= y.len(),
    ensures
        r == lcs(x@, y@),
{
    let mut prev: Vec<usize> = Vec::new();
    let mut k: usize = 0;
    prev.push(0);
    while k < x.len()
        invariant
            k <= x.len(),
            prev.len() == k + 1,
            forall|i: int| 0 <= i < prev.len() ==> #[trigger] prev[i] == 0,
        decreases x.len() - k,
    {
        prev.push(0);
        k += 1;
    }
    let mut j: usize = 0;
    while j < y.len()
        invariant
            j <= y.len(),
            prev.len() == x.len() + 1,
            forall|i: int|
                0 <= i <= x.len() ==> #[trigger] prev[i] == lcs(x@.take(i), y@.take(j as int)),
            forall|i: int| 0 <= i <= x.len() ==> #[trigger] prev[i] <= i,
        decreases y.len() - j,
    {
        let mut cur: Vec<usize> = Vec::new();
        cur.push(0);
        let mut i: usize = 0;
        while i < x.len()
            invariant
                i <= x.len(),
                j < y.len(),
                cur.len() == i + 1,
                prev.len() == x.len() + 1,
                forall|k: int|
                    0 <= k <= x.len() ==> #[trigger] prev[k] == lcs(x@.take(k), y@.take(j as int)),
                forall|k: int| 0 <= k <= x.len() ==> #[trigger] prev[k] <= k,
                forall|k: int|
                    0 <= k <= i ==> #[trigger] cur[k] == lcs(x@.take(k), y@.take(j + 1)),
                forall|k: int| 0 <= k <= i ==> #[trigger] cur[k] <= k,
            decreases x.len() - i,
        {
            proof {
                assert(x@.take(i + 1).drop_last() =~= x@.take(i as int));
                assert(y@.take(j + 1).drop_last() =~= y@.take(j as int));
                assert(prev[i as int] <= i);
                assert(prev[i + 1] <= i + 1);
            }
            let here: usize = if x[i] == y[j] {
                prev[i] + 1
            } else if prev[i + 1] > cur[i] {
                prev[i + 1]
            } else {
                cur[i]
            };
            cur.push(here);
            i += 1;
        }
        prev = cur;
        j += 1;
    }
    proof {
        assert(x@.take(x.len() as int) =~= x@);
        assert(y@.take(y.len() as int) =~= y@);
    }
    prev[x.len()]
}

/// The `l` tokens of `a` from `i` on are those of `b` from `j` on.
pub open spec fn shares(a: Seq<u32>, b: Seq<u32>, i: int, j: int, l: int) -> bool {
    &&& 0 <= i
    &&& 0 <= j
    &&& 0 <= l
    &&& i + l <= a.len()
    &&& j + l <= b.len()
    &&& forall|k: int| 0 <= k < l ==> #[trigger] a[i + k] == b[j + k]
}

/// `r` is the length of the longest contiguous run that both hold.
pub open spec fn is_longest_run(a: Seq<u32>, b: Seq<u32>, r: int) -> bool {
    &&& exists|i: int, j: int| #[trigger] shares(a, b, i, j, r)
    &&& forall|i: int, j: int, l: int| #[trigger] shares(a, b, i, j, l) ==> l <= r
}

/// Length of the longest common run that ends in front of `i` and `j`.
pub open spec fn run_at(a: Seq<u32>, b: Seq<u32>, i: int, j: int) -> int
    decreases i,
{
    if i <= 0 || j <= 0 || a[i - 1] != b[j - 1] {
        0
    } else {
        run_at(a, b, i - 1, j - 1) + 1
    }
}

proof fn lemma_run_at(a: Seq<u32>, b: Seq<u32>, i: int, j: int)
    requires
        0 <= i <= a.len(),
        0 <= j <= b.len(),
    ensures
        0 <= run_at(a, b, i, j) <= i,
        run_at(a, b, i, j) <= j,
        shares(a, b, i - run_at(a, b, i, j), j - run_at(a, b, i, j), run_at(a, b, i, j)),
    decreases i,
{
    if i > 0 && j > 0 && a[i - 1] == b[j - 1] {
        lemma_run_at(a, b, i - 1, j - 1);
        let l = run_at(a, b, i, j);
        assert forall|k: int| 0 <= k < l implies #[trigger] a[i - l + k] == b[j - l + k] by {
            if k < l - 1 {
                assert(a[(i - 1 - (l - 1)) + k] == b[(j - 1 - (l - 1)) + k]);
            }
        }
    }
}

proof fn lemma_run_longest(a: Seq<u32>, b: Seq<u32>, i: int, j: int, l: int)
    requires
        shares(a, b, i, j, l),
    ensures
        l <= run_at(a, b, i + l, j + l),
    decreases l,
{
    if l > 0 {
        assert forall|k: int| 0 <= k < l - 1 implies #[trigger] a[i + k] == b[j + k] by {}
        lemma_run_longest(a, b, i, j, l - 1);
        assert(a[i + (l - 1)] == b[j + (l - 1)]);
    } else {
        lemma_run_at(a, b, i, j);
    }
}

/// Longest common contiguous run.
pub fn lcsubstr_len(a: &[TokenId], b: &[TokenId]) -> (r: usize)
    ensures
        is_longest_run(a@, b@, r as int),
        r <= a.len(),
        r <= b.len(),
{
    let mut prev: Vec<usize> = Vec::new();
    let mut z: usize = 0;
    prev.push(0);
    while z < b.len()
        invariant
            z <= b.len(),
            prev.len() == z + 1,
            forall|j: int| 0 <= j < prev.len() ==> #[trigger] prev[j] == 0,
        decreases b.len() - z,
    {
        prev.push(0);
        z += 1;
    }
    let mut best: usize = 0;
    let mut i: usize = 0;
    proof {
        assert(shares(a@, b@, 0, 0, 0));
    }
    while i < a.len()
        invariant
            i <= a.len(),
            best <= a.len(),
            best <= b.len(),
            prev.len() == b.len() + 1,
            forall|j: int| 0 <= j <= b.len() ==> #[trigger] prev[j] == run_at(a@, b@, i as int, j),
            exists|p: int, q: int| #[trigger] shares(a@, b@, p, q, best as int),
            forall|p: int, j: int|
                0 <= p <= i && 0 <= j <= b.len() ==> #[trigger] run_at(a@, b@, p, j) <= best,
        decreases a.len() - i,
    {
        let mut cur: Vec<usize> = Vec::new();
        cur.push(0);
        let mut j: usize = 0;
        while j < b.len()
            invariant
                i < a.len(),
                j <= b.len(),
                best <= a.len(),
                best <= b.len(),
                cur.len() == j + 1,
                prev.len() == b.len() + 1,
                forall|k: int|
                    0 <= k <= b.len() ==> #[trigger] prev[k] == run_at(a@, b@, i as int, k),
                forall|k: int| 0 <= k <= j ==> #[trigger] cur[k] == run_at(a@, b@, i + 1, k),
                exists|p: int, q: int| #[trigger] shares(a@, b@, p, q, best as int),
                forall|p: int, k: int|
                    0 <= p <= i && 0 <= k <= b.len() ==> #[trigger] run_at(a@, b@, p, k) <= best,
                forall|k: int| 0 <= k <= j ==> #[trigger] run_at(a@, b@, i + 1, k) <= best,
            decreases b.len() - j,
        {
            proof {
                lemma_run_at(a@, b@, i as int, j as int);
                lemma_run_at(a@, b@, i + 1, j + 1);
            }
            let here: usize = if a[i] == b[j] {
                prev[j] + 1
            } else {
                0
            };
            cur.push(here);
            if here > best {
                best = here;
            }
            j += 1;
        }
        prev = cur;
        i += 1;
    }
    proof {
        assert forall|p: int, q: int, l: int| #[trigger] shares(a@, b@, p, q, l) implies l
            <= best by {
            lemma_run_longest(a@, b@, p, q, l);
        }
    }
    best
}

/// The shared run and the length it is measured against: the shorter side's, at least one.
/// Equal numbers mean that one side contains the other whole. Works on token ids or on
/// characters as numbers.
pub fn overlap(a: &[u32], b: &[u32]) -> (r: (usize, usize))
    ensures
        is_longest_run(a@, b@, r.0 as int),
        r.1 == (if a.len() == 0 || b.len() == 0 {
            1
        } else if a.len() < b.len() {
            a.len() as int
        } else {
            b.len() as int
        }),
        r.0 <= r.1,
{
    let shorter: usize = if a.len() < b.len() {
        a.len()
    } else {
        b.len()
    };
    let shared: usize = lcsubstr_len(a, b);
    if shorter < 1 {
        (shared, 1)
    } else {
        (shared, shorter)
    }
}

/// A list that contains the other whole overlaps it in full, however long it is itself.
pub proof fn law_padding_does_not_dilute(a: Seq<u32>, b: Seq<u32>, i: int, r: int)
    requires
        shares(a, b, i, 0, b.len() as int),
        is_longest_run(a, b, r),
    ensures
        r == b.len(),
{
    let (p, q) = choose|p: int, q: int| #[trigger] shares(a, b, p, q, r);
    assert(shares(a, b, p, q, r));
}

/// The longest run stands in both lists, and no equal parts of theirs are longer.
pub proof fn law_the_longest_run_is_in_both(a: Seq<u32>, b: Seq<u32>, r: int, i: int, j: int, l: int)
    requires
        is_longest_run(a, b, r),
    ensures
        0 <= r <= a.len(),
        r <= b.len(),
        exists|p: int, q: int|
            0 <= p && p + r <= a.len() && 0 <= q && q + r <= b.len() && #[trigger] a.subrange(
                p,
                p + r,
            ) == #[trigger] b.subrange(q, q + r),
        0 <= i && 0 <= l && i + l <= a.len() && 0 <= j && j + l <= b.len() && a.subrange(i, i + l)
            == b.subrange(j, j + l) ==> l <= r,
{
    let (p, q) = choose|p: int, q: int| #[trigger] shares(a, b, p, q, r);
    assert(shares(a, b, p, q, r));
    let x = a.subrange(p, p + r);
    let y = b.subrange(q, q + r);
    assert forall|k: int| 0 <= k < r implies x[k] == y[k] by {
        assert(a[p + k] == b[q + k]);
    }
    assert(x =~= y);
    if 0 <= i && 0 <= l && i + l <= a.len() && 0 <= j && j + l <= b.len() && a.subrange(i, i + l)
        == b.subrange(j, j + l) {
        assert forall|k: int| 0 <= k < l implies #[trigger] a[i + k] == b[j + k] by {
            assert(a.subrange(i, i + l)[k] == b.subrange(j, j + l)[k]);
        }
        assert(shares(a, b, i, j, l));
    }
}

} // verus!
