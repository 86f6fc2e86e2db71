//! The tokens that follow a context, counted on a suffix array and by scanning.
use crate::count;
use crate::fx;
use crate::ids::TokenId;
use crate::sais;
use crate::sort;
use crate::suffix;
use crate::tally;
use rustc_hash::FxHashMap;
use vstd::prelude::*;

verus! {

/// The token behind `ctx` at each of its occurrences that start before `k`, in text order.
pub open spec fn nexts_upto(text: Seq<u32>, ctx: Seq<u32>, k: int) -> Seq<u32>
    decreases k,
{
    if k <= 0 {
        Seq::empty()
    } else {
        let before = nexts_upto(text, ctx, k - 1);
        if sais::starts_with(text, k - 1, ctx) && k - 1 + ctx.len() < text.len() {
            before.push(text[k - 1 + ctx.len()])
        } else {
            before
        }
    }
}

/// The token behind each occurrence of `ctx`, in text order.
pub open spec fn nexts(text: Seq<u32>, ctx: Seq<u32>) -> Seq<u32> {
    nexts_upto(text, ctx, text.len() as int)
}

/// Whether `pat` occurs.
pub open spec fn occurs_in(text: Seq<u32>, pat: Seq<u32>) -> bool {
    exists|i: int| 0 <= i && #[trigger] sais::starts_with(text, i, pat)
}

/// An occurrence of `ctx` with `t` behind it.
pub open spec fn followed_by(text: Seq<u32>, ctx: Seq<u32>, t: u32) -> spec_fn(int) -> bool {
    |i: int|
        sais::starts_with(text, i, ctx) && i + ctx.len() < text.len() && text[i + ctx.len()] == t
}

proof fn lemma_nexts_occ(text: Seq<u32>, ctx: Seq<u32>, k: int, t: u32)
    requires
        0 <= k,
    ensures
        tally::occ(nexts_upto(text, ctx, k), t) == count::count(followed_by(text, ctx, t), k),
    decreases k,
{
    if k > 0 {
        lemma_nexts_occ(text, ctx, k - 1, t);
        let before = nexts_upto(text, ctx, k - 1);
        if sais::starts_with(text, k - 1, ctx) && k - 1 + ctx.len() < text.len() {
            tally::lemma_occ_push(before, text[k - 1 + ctx.len()], t);
        }
    }
}

pub proof fn lemma_nexts_len(text: Seq<u32>, ctx: Seq<u32>, k: int)
    requires
        0 <= k,
    ensures
        nexts_upto(text, ctx, k).len() <= k,
    decreases k,
{
    if k > 0 {
        lemma_nexts_len(text, ctx, k - 1);
    }
}

proof fn lemma_nexts_tail(text: Seq<u32>, ctx: Seq<u32>, k: int, m: int)
    requires
        0 <= k <= m,
        k + ctx.len() >= text.len(),
    ensures
        nexts_upto(text, ctx, m) == nexts_upto(text, ctx, k),
    decreases m - k,
{
    if k < m {
        lemma_nexts_tail(text, ctx, k, m - 1);
    }
}

/// The token behind the context for the entries `lo..a` of a suffix array, in its order.
pub open spec fn run(text: Seq<u32>, sa: Seq<u32>, off: int, lo: int, a: int) -> Seq<u32>
    decreases a - lo,
{
    if a <= lo {
        Seq::empty()
    } else {
        let before = run(text, sa, off, lo, a - 1);
        let j = sa[a - 1] + off;
        if j < text.len() {
            before.push(text[j])
        } else {
            before
        }
    }
}

/// An entry of `lo..` whose suffix has `t` behind the context.
pub open spec fn entry_followed(
    text: Seq<u32>,
    sa: Seq<u32>,
    off: int,
    lo: int,
    t: u32,
) -> spec_fn(int) -> bool {
    |a: int| lo <= a && sa[a] + off < text.len() && text[sa[a] + off] == t
}

proof fn lemma_run_occ(text: Seq<u32>, sa: Seq<u32>, off: int, lo: int, a: int, t: u32)
    requires
        0 <= lo <= a,
    ensures
        tally::occ(run(text, sa, off, lo, a), t) == count::count(
            entry_followed(text, sa, off, lo, t),
            a,
        ),
    decreases a - lo,
{
    if a > lo {
        lemma_run_occ(text, sa, off, lo, a - 1, t);
        let before = run(text, sa, off, lo, a - 1);
        let j = sa[a - 1] + off;
        if j < text.len() {
            tally::lemma_occ_push(before, text[j], t);
        }
    } else {
        count::lemma_count_zero(entry_followed(text, sa, off, lo, t), a);
    }
}

/// The range `lo..hi` of the suffix array is that of the context.
pub open spec fn is_range(text: Seq<u32>, sa: Seq<u32>, ctx: Seq<u32>, lo: int, hi: int) -> bool {
    &&& 0 <= lo < hi <= sa.len()
    &&& forall|a: int|
        0 <= a < sa.len() ==> (lo <= a < hi <==> sais::starts_with(
            text,
            #[trigger] sa[a] as int,
            ctx,
        ))
}

/// The range's tokens are those of the text, in another order.
proof fn lemma_run_nexts(text: Seq<u32>, sa: Seq<u32>, ctx: Seq<u32>, lo: int, hi: int, t: u32)
    requires
        suffix::is_suffix_array(text, sa),
        is_range(text, sa, ctx, lo, hi),
    ensures
        tally::occ(run(text, sa, ctx.len() as int, lo, hi), t) == tally::occ(nexts(text, ctx), t),
{
    let n = text.len() as int;
    let off = ctx.len() as int;
    let p = followed_by(text, ctx, t);
    let q = entry_followed(text, sa, off, lo, t);
    lemma_nexts_occ(text, ctx, n, t);
    lemma_run_occ(text, sa, off, lo, hi, t);
    let f = |a: int| sa[a] as int;
    assert forall|a: int| 0 <= a < hi && #[trigger] q(a) implies 0 <= f(a) < n && p(f(a)) by {
        assert(sais::starts_with(text, sa[a] as int, ctx));
    }
    assert forall|a: int, b: int|
        #![trigger q(a), q(b)]
        0 <= a < b < hi && q(a) && q(b) implies f(a) != f(b) by {
        assert(suffix::suffix_lt(text, sa[a] as int, sa[b] as int));
        suffix::lemma_suffix_irreflexive(text, sa[a] as int);
    }
    count::lemma_count_inject(q, hi, p, n, f);
    let g = |i: int| choose|a: int| 0 <= a < sa.len() && #[trigger] sa[a] == i;
    assert forall|i: int| 0 <= i < n && #[trigger] p(i) implies 0 <= g(i) < hi && q(g(i))
        && sa[g(i)] == i by {
        let a = suffix::lemma_suffix_array_onto(text, sa, i);
        assert(sa[a] == i);
        assert(sa[g(i)] == i);
        assert(sais::starts_with(text, sa[g(i)] as int, ctx));
    }
    count::lemma_count_inject(p, n, q, hi, g);
}

/// In the range, the tokens behind the context do not descend; a suffix without one comes first.
proof fn lemma_run_sorted(text: Seq<u32>, sa: Seq<u32>, ctx: Seq<u32>, lo: int, hi: int, a: int, b: int)
    requires
        suffix::is_suffix_array(text, sa),
        is_range(text, sa, ctx, lo, hi),
        lo <= a < b < hi,
    ensures
        sa[b] + ctx.len() < text.len(),
        sa[a] + ctx.len() < text.len() ==> text[sa[a] + ctx.len()] <= text[sa[b] + ctx.len()],
{
    assert(suffix::suffix_lt(text, sa[a] as int, sa[b] as int));
    assert(sais::starts_with(text, sa[a] as int, ctx));
    assert(sais::starts_with(text, sa[b] as int, ctx));
    lemma_skip_common(text, sa[a] as int, sa[b] as int, ctx, ctx.len() as int);
}

proof fn lemma_skip_common(text: Seq<u32>, i: int, j: int, ctx: Seq<u32>, k: int)
    requires
        0 <= i,
        0 <= j,
        0 <= k <= ctx.len(),
        sais::starts_with(text, i, ctx),
        sais::starts_with(text, j, ctx),
        suffix::suffix_lt(text, i, j),
    ensures
        suffix::suffix_lt(text, i + k, j + k),
    decreases k,
{
    if k > 0 {
        lemma_skip_common(text, i, j, ctx, k - 1);
        assert(text[i + (k - 1)] == ctx[k - 1]);
        assert(text[j + (k - 1)] == ctx[k - 1]);
    }
}

/// A table grows by one more of its last element, or by a new larger one.
proof fn lemma_table_push(v: Seq<(u32, u32)>, xs: Seq<u32>, t: u32)
    requires
        tally::is_table(v, xs),
        v.len() > 0 ==> v.last().0 <= t,
        xs.len() < u32::MAX,
    ensures
        v.len() > 0 && v.last().0 == t ==> tally::is_table(
            v.update(v.len() - 1, (t, (v.last().1 + 1) as u32)),
            xs.push(t),
        ),
        !(v.len() > 0 && v.last().0 == t) ==> tally::is_table(v.push((t, 1u32)), xs.push(t)),
{
    assert forall|x: u32|
        #![trigger tally::occ(xs.push(t), x)]
        tally::occ(xs.push(t), x) == tally::occ(xs, x) + (if t == x {
            1int
        } else {
            0
        }) && tally::occ(xs, x) >= 0 by {
        tally::lemma_occ_push(xs, t, x);
        tally::lemma_occ_bounds(xs, x);
    }
    tally::lemma_occ_bounds(xs, t);
    if v.len() > 0 && v.last().0 == t {
        let w = v.update(v.len() - 1, (t, (v.last().1 + 1) as u32));
        assert(v[v.len() - 1].1 == tally::occ(xs, t));
        assert forall|x: u32|
            #![trigger tally::occ(xs.push(t), x)]
            tally::occ(xs.push(t), x) > 0 implies exists|i: int|
            0 <= i < w.len() && (#[trigger] w[i]).0 == x by {
            if x == t {
                assert(w[w.len() - 1].0 == x);
            } else {
                assert(tally::occ(xs, x) > 0);
                let i = choose|i: int| 0 <= i < v.len() && (#[trigger] v[i]).0 == x;
                assert(w[i].0 == x);
            }
        }
        assert forall|i: int| 0 <= i < w.len() implies 0 < (#[trigger] w[i]).1 == tally::occ(
            xs.push(t),
            w[i].0,
        ) by {
            assert(v[i].1 == tally::occ(xs, v[i].0));
            if i < v.len() - 1 {
                assert(v[i].0 < v[v.len() - 1].0);
            }
        }
        assert(tally::is_table(w, xs.push(t)));
    } else {
        let w = v.push((t, 1u32));
        assert(tally::occ(xs, t) == 0) by {
            if tally::occ(xs, t) > 0 {
                let i = choose|i: int| 0 <= i < v.len() && (#[trigger] v[i]).0 == t;
                if i < v.len() - 1 {
                    assert(v[i].0 < v[v.len() - 1].0);
                }
            }
        }
        assert forall|i: int, j: int| 0 <= i < j < w.len() implies (#[trigger] w[i]).0 < (
        #[trigger] w[j]).0 by {
            if j == v.len() {
                assert(v[i].0 <= v[v.len() - 1].0);
            }
        }
        assert forall|i: int| 0 <= i < w.len() implies 0 < (#[trigger] w[i]).1 == tally::occ(
            xs.push(t),
            w[i].0,
        ) by {
            if i < v.len() {
                assert(v[i].1 == tally::occ(xs, v[i].0));
                assert(v[i].0 <= v[v.len() - 1].0);
            }
        }
        assert forall|x: u32|
            #![trigger tally::occ(xs.push(t), x)]
            tally::occ(xs.push(t), x) > 0 implies exists|i: int|
            0 <= i < w.len() && (#[trigger] w[i]).0 == x by {
            if x == t {
                assert(w[w.len() - 1].0 == x);
            } else {
                assert(tally::occ(xs, x) > 0);
                let i = choose|i: int| 0 <= i < v.len() && (#[trigger] v[i]).0 == x;
                assert(w[i].0 == x);
            }
        }
        assert(tally::is_table(w, xs.push(t)));
    }
}

proof fn lemma_run_len(text: Seq<u32>, sa: Seq<u32>, off: int, lo: int, a: int)
    requires
        lo <= a,
    ensures
        run(text, sa, off, lo, a).len() <= a - lo,
    decreases a - lo,
{
    if a > lo {
        lemma_run_len(text, sa, off, lo, a - 1);
    }
}

/// Counts a small range in one pass.
fn count_runs_linear(text: &Vec<TokenId>, sa: &Vec<u32>, ctx: &[TokenId], lo: usize, hi: usize) -> (body: Vec<(TokenId, u32)>)
    requires
        suffix::is_suffix_array(text@, sa@),
        is_range(text@, sa@, ctx@, lo as int, hi as int),
        text.len() < i32::MAX,
    ensures
        tally::is_table(body@, run(text@, sa@, ctx.len() as int, lo as int, hi as int)),
{
    let off: usize = ctx.len();
    let n: usize = text.len();
    let mut body: Vec<(TokenId, u32)> = Vec::new();
    let mut a: usize = lo;
    while a < hi
        invariant
            suffix::is_suffix_array(text@, sa@),
            is_range(text@, sa@, ctx@, lo as int, hi as int),
            n == text.len() < i32::MAX,
            off == ctx.len(),
            lo <= a <= hi,
            tally::is_table(body@, run(text@, sa@, off as int, lo as int, a as int)),
            body.len() > 0 ==> a > lo && sa[a - 1] + off < n && body@.last().0 == text[sa[a - 1]
                + off],
        decreases hi - a,
    {
        proof {
            assert(sais::starts_with(text@, sa[a as int] as int, ctx@));
            lemma_run_len(text@, sa@, off as int, lo as int, a as int);
            if a > lo {
                lemma_run_sorted(text@, sa@, ctx@, lo as int, hi as int, a - 1, a as int);
            }
        }
        let j: usize = sa[a] as usize + off;
        if j < n {
            let t: TokenId = text[j];
            let ghost before = run(text@, sa@, off as int, lo as int, a as int);
            proof {
                lemma_table_push(body@, before, t);
                assert(run(text@, sa@, off as int, lo as int, a + 1) == before.push(t));
            }
            let m: usize = body.len();
            if m > 0 && body[m - 1].0 == t {
                let c: u32 = body[m - 1].1;
                proof {
                    tally::lemma_occ_bounds(before, t);
                    assert(body[m - 1].1 == tally::occ(before, body[m - 1].0));
                }
                body.set(m - 1, (t, c + 1));
            } else {
                body.push((t, 1));
            }
        }
        a += 1;
    }
    body
}

/// More of one element than the table holds so far.
proof fn lemma_table_push_many(v: Seq<(u32, u32)>, xs: Seq<u32>, t: u32, k: int)
    requires
        tally::is_table(v, xs),
        v.len() > 0 ==> v.last().0 < t,
        1 <= k,
        xs.len() + k < u32::MAX,
    ensures
        tally::is_table(v.push((t, k as u32)), xs + Seq::new(k as nat, |i: int| t)),
    decreases k,
{
    let ys = xs + Seq::new(k as nat, |i: int| t);
    if k == 1 {
        lemma_table_push(v, xs, t);
        assert(ys =~= xs.push(t));
    } else {
        lemma_table_push_many(v, xs, t, k - 1);
        let w = v.push((t, (k - 1) as u32));
        let zs = xs + Seq::new((k - 1) as nat, |i: int| t);
        lemma_table_push(w, zs, t);
        assert(zs.push(t) =~= ys);
        assert(w.update(w.len() - 1, (t, k as u32)) =~= v.push((t, k as u32)));
    }
}

/// A stretch of entries with one token behind the context.
proof fn lemma_run_same(text: Seq<u32>, sa: Seq<u32>, off: int, lo: int, r: int, a: int, t: u32)
    requires
        lo <= r <= a,
        forall|x: int|
            r <= x < a ==> sa[x] + off < text.len() && text[#[trigger] sa[x] + off] == t,
    ensures
        run(text, sa, off, lo, a) == run(text, sa, off, lo, r) + Seq::new(
            (a - r) as nat,
            |i: int| t,
        ),
    decreases a - r,
{
    if a == r {
        assert(run(text, sa, off, lo, r) + Seq::new(0, |i: int| t) =~= run(text, sa, off, lo, r));
    } else {
        lemma_run_same(text, sa, off, lo, r, a - 1, t);
        assert(text[sa[a - 1] + off] == t);
        assert(run(text, sa, off, lo, a) =~= run(text, sa, off, lo, r) + Seq::new(
            (a - r) as nat,
            |i: int| t,
        ));
    }
}

/// Counts a range run by run; the end of each run is found by binary search.
fn count_runs_binary(text: &Vec<TokenId>, sa: &Vec<u32>, ctx: &[TokenId], lo: usize, hi: usize) -> (body: Vec<(TokenId, u32)>)
    requires
        suffix::is_suffix_array(text@, sa@),
        is_range(text@, sa@, ctx@, lo as int, hi as int),
        text.len() < i32::MAX,
    ensures
        tally::is_table(body@, run(text@, sa@, ctx.len() as int, lo as int, hi as int)),
{
    let off: usize = ctx.len();
    let n: usize = text.len();
    let mut body: Vec<(TokenId, u32)> = Vec::new();
    let mut r: usize = lo;
    // The suffix equal to `ctx` at the end of the text sorts first; it has no next token.
    proof {
        assert(sais::starts_with(text@, sa[lo as int] as int, ctx@));
    }
    while r < hi && sa[r] as usize + off >= n
        invariant
            suffix::is_suffix_array(text@, sa@),
            is_range(text@, sa@, ctx@, lo as int, hi as int),
            n == text.len() < i32::MAX,
            off == ctx.len(),
            lo <= r <= hi,
            r < hi ==> sais::starts_with(text@, sa[r as int] as int, ctx@),
            run(text@, sa@, off as int, lo as int, r as int).len() == 0,
        decreases hi - r,
    {
        r += 1;
        proof {
            if r < hi {
                assert(sais::starts_with(text@, sa[r as int] as int, ctx@));
            }
        }
    }
    proof {
        assert forall|x: u32| tally::occ(run(text@, sa@, off as int, lo as int, r as int), x)
            == 0 by {}
    }
    while r < hi
        invariant
            suffix::is_suffix_array(text@, sa@),
            is_range(text@, sa@, ctx@, lo as int, hi as int),
            n == text.len() < i32::MAX,
            off == ctx.len(),
            lo <= r <= hi,
            r < hi ==> sa[r as int] + off < n,
            tally::is_table(body@, run(text@, sa@, off as int, lo as int, r as int)),
            body.len() > 0 && r < hi ==> body@.last().0 < text[sa[r as int] + off],
        decreases hi - r,
    {
        let t: TokenId = text[sa[r] as usize + off];
        let mut a: usize = r + 1;
        let mut b: usize = hi;
        while a < b
            invariant
                suffix::is_suffix_array(text@, sa@),
                is_range(text@, sa@, ctx@, lo as int, hi as int),
                n == text.len() < i32::MAX,
                off == ctx.len(),
                lo <= r < a <= b <= hi,
                sa[r as int] + off < n,
                t == text[sa[r as int] + off],
                forall|x: int|
                    r <= x < a ==> sa[x] + off < n && text[#[trigger] sa[x] + off] == t,
                forall|x: int|
                    b <= x < hi ==> sa[x] + off < n && text[#[trigger] sa[x] + off] > t,
            decreases b - a,
        {
            let m: usize = a + (b - a) / 2;
            proof {
                assert(sais::starts_with(text@, sa[m as int] as int, ctx@));
                assert forall|x: int| r <= x < hi && x != m implies {
                    &&& x > r ==> sa[x] + off < n
                    &&& sa[m as int] + off < n
                    &&& x < m && sa[x] + off < n ==> text[#[trigger] sa[x] + off] <= text[sa[m as int] + off]
                    &&& x > m ==> text[sa[m as int] + off] <= text[sa[x] + off]
                } by {
                    lemma_run_sorted(text@, sa@, ctx@, lo as int, hi as int, r as int, m as int);
                    if x > r {
                        lemma_run_sorted(text@, sa@, ctx@, lo as int, hi as int, r as int, x);
                    }
                    if x < m {
                        lemma_run_sorted(text@, sa@, ctx@, lo as int, hi as int, x, m as int);
                    } else {
                        lemma_run_sorted(text@, sa@, ctx@, lo as int, hi as int, m as int, x);
                    }
                }
                lemma_run_sorted(text@, sa@, ctx@, lo as int, hi as int, r as int, m as int);
            }
            let p: usize = sa[m] as usize + off;
            if p < n && text[p] == t {
                proof {
                    assert forall|x: int| r <= x < m + 1 implies sa[x] + off < n && text[
                    #[trigger] sa[x] + off] == t by {
                        if x > r {
                            lemma_run_sorted(text@, sa@, ctx@, lo as int, hi as int, r as int, x);
                        }
                    }
                }
                a = m + 1;
            } else {
                proof {
                    assert forall|x: int| m <= x < hi implies sa[x] + off < n && text[
                    #[trigger] sa[x] + off] > t by {
                        if x > m {
                            lemma_run_sorted(text@, sa@, ctx@, lo as int, hi as int, m as int, x);
                        }
                    }
                }
                b = m;
            }
        }
        proof {
            let before = run(text@, sa@, off as int, lo as int, r as int);
            lemma_run_len(text@, sa@, off as int, lo as int, r as int);
            lemma_table_push_many(body@, before, t, a - r);
            lemma_run_same(text@, sa@, off as int, lo as int, r as int, a as int, t);
        }
        body.push((t, (a - r) as u32));
        r = a;
    }
    body
}

/// A table depends on how often elements occur, not on their order.
proof fn lemma_table_reorder(v: Seq<(u32, u32)>, xs: Seq<u32>, ys: Seq<u32>)
    requires
        tally::is_table(v, xs),
        forall|t: u32| #[trigger] tally::occ(xs, t) == tally::occ(ys, t),
    ensures
        tally::is_table(v, ys),
{
    assert forall|i: int| 0 <= i < v.len() implies 0 < (#[trigger] v[i]).1 == tally::occ(
        ys,
        v[i].0,
    ) by {
        assert(tally::occ(xs, v[i].0) == tally::occ(ys, v[i].0));
    }
    assert forall|x: u32|
        #![trigger tally::occ(ys, x)]
        tally::occ(ys, x) > 0 implies exists|i: int|
        0 <= i < v.len() && (#[trigger] v[i]).0 == x by {
        assert(tally::occ(xs, x) > 0);
    }
}

/// The tokens behind a context in an indexed text, counted.
pub fn count_indexed(text: &Vec<TokenId>, sa: &Vec<u32>, ctx: &[TokenId]) -> (body: Vec<(TokenId, u32)>)
    requires
        suffix::is_suffix_array(text@, sa@),
        text.len() < i32::MAX,
        ctx.len() > 0,
    ensures
        tally::is_table(body@, nexts(text@, ctx@)),
{
    match sais::sa_range(text, sa, ctx) {
        Some((lo, hi)) => {
            let body: Vec<(TokenId, u32)> = if hi - lo <= 64 {
                count_runs_linear(text, sa, ctx, lo, hi)
            } else {
                count_runs_binary(text, sa, ctx, lo, hi)
            };
            proof {
                let xs = run(text@, sa@, ctx.len() as int, lo as int, hi as int);
                assert forall|t: u32| #[trigger]
                    tally::occ(xs, t) == tally::occ(nexts(text@, ctx@), t) by {
                    lemma_run_nexts(text@, sa@, ctx@, lo as int, hi as int, t);
                }
                lemma_table_reorder(body@, xs, nexts(text@, ctx@));
            }
            body
        },
        None => {
            proof {
                lemma_no_nexts(text@, sa@, ctx@, text.len() as int);
                assert forall|t: u32| #[trigger] tally::occ(nexts(text@, ctx@), t) == 0 by {}
            }
            Vec::new()
        },
    }
}

proof fn lemma_no_nexts(text: Seq<u32>, sa: Seq<u32>, ctx: Seq<u32>, k: int)
    requires
        suffix::is_suffix_array(text, sa),
        forall|a: int|
            0 <= a < sa.len() ==> !sais::starts_with(text, #[trigger] sa[a] as int, ctx),
        0 <= k <= text.len(),
    ensures
        nexts_upto(text, ctx, k).len() == 0,
    decreases k,
{
    if k > 0 {
        lemma_no_nexts(text, sa, ctx, k - 1);
        let a = suffix::lemma_suffix_array_onto(text, sa, k - 1);
        assert(!sais::starts_with(text, sa[a] as int, ctx));
    }
}

/// Whether the text holds `pat` at `i`.
pub fn matches_at(text: &[TokenId], i: usize, pat: &[TokenId]) -> (r: bool)
    requires
        i <= text.len(),
    ensures
        r == sais::starts_with(text@, i as int, pat@),
{
    if pat.len() > text.len() - i {
        return false;
    }
    let mut k: usize = 0;
    while k < pat.len()
        invariant
            k <= pat.len(),
            i + pat.len() <= text.len(),
            forall|x: int| 0 <= x < k ==> text[i + x] == #[trigger] pat[x],
        decreases pat.len() - k,
    {
        if text[i + k] != pat[k] {
            assert(text[i + k] != pat[k as int]);
            return false;
        }
        k += 1;
    }
    true
}

/// Counts the tokens behind a context by scanning.
pub(crate) fn count_linear(text: &[TokenId], ctx: &[TokenId], acc: &mut FxHashMap<u32, u32>)
    requires
        text.len() < i32::MAX,
        old(acc)@ == Map::<u32, u32>::empty(),
    ensures
        tally::is_tally(final(acc)@, nexts(text@, ctx@)),
{
    let ghost tv = text@;
    let ghost cv = ctx@;
    proof {
        assert forall|t: u32| #[trigger] tally::occ(nexts_upto(tv, cv, 0), t) == 0 by {}
    }
    if ctx.len() >= text.len() {
        proof {
            lemma_nexts_tail(tv, cv, 0, tv.len() as int);
        }
        return ;
    }
    let last: usize = text.len() - ctx.len();
    let mut i: usize = 0;
    while i <= last
        invariant
            tv == text@,
            cv == ctx@,
            tv.len() < i32::MAX,
            last == text.len() - ctx.len(),
            i <= last + 1,
            tally::is_tally(acc@, nexts_upto(tv, cv, i as int)),
        decreases last + 1 - i,
    {
        if matches_at(text, i, ctx) {
            let j: usize = i + ctx.len();
            if j < text.len() {
                let t: TokenId = text[j];
                proof {
                    lemma_nexts_len(tv, cv, i as int);
                    tally::lemma_tally_push(acc@, nexts_upto(tv, cv, i as int), t);
                    tally::lemma_occ_bounds(nexts_upto(tv, cv, i as int), t);
                }
                let c: u32 = match fx::get_count(acc, t) {
                    Some(v) => v + 1,
                    None => 1,
                };
                fx::set_count(acc, t, c);
            }
        }
        i += 1;
    }
    proof {
        lemma_nexts_tail(tv, cv, i as int, tv.len() as int + 1);
        lemma_nexts_tail(tv, cv, tv.len() as int, tv.len() as int + 1);
    }
}

/// `v` lists by ascending key what the map holds.
pub open spec fn lists(m: Map<u32, u32>, v: Seq<(u32, u32)>) -> bool {
    &&& forall|i: int, j: int| 0 <= i < j < v.len() ==> (#[trigger] v[i]).0 < (#[trigger] v[j]).0
    &&& forall|i: int|
        0 <= i < v.len() ==> m.dom().contains((#[trigger] v[i]).0) && m[v[i].0] == v[i].1
    &&& forall|k: u32| #[trigger]
        m.dom().contains(k) ==> exists|i: int| 0 <= i < v.len() && (#[trigger] v[i]).0 == k
}

/// What a map holds, by ascending key.
pub(crate) fn sorted_counts(m: &FxHashMap<u32, u32>) -> (v: Vec<(TokenId, u32)>)
    ensures
        lists(m@, v@),
{
    let all = fx::counts(m);
    let mut keys: Vec<i64> = Vec::new();
    let mut i: usize = 0;
    while i < all.len()
        invariant
            i <= all.len(),
            keys.len() == i,
            forall|x: int| 0 <= x < i ==> #[trigger] keys[x] == all[x].0,
        decreases all.len() - i,
    {
        keys.push(all[i].0 as i64);
        i += 1;
    }
    let order = sort::sort_indices(&keys);
    let mut v: Vec<(TokenId, u32)> = Vec::new();
    let mut i: usize = 0;
    while i < order.len()
        invariant
            i <= order.len(),
            keys.len() == all.len(),
            sort::sorted_indices(keys@, order@, 0, all.len() as int),
            v.len() == i,
            forall|x: int| 0 <= x < i ==> #[trigger] v[x] == all[order[x] as int],
        decreases order.len() - i,
    {
        v.push(all[order[i]]);
        i += 1;
    }
    proof {
        assert forall|i: int, j: int| 0 <= i < j < v.len() implies (#[trigger] v[i]).0 < (
        #[trigger] v[j]).0 by {
            assert(sort::goes_before(keys@, order[i] as int, order[j] as int));
            assert(keys[order[i] as int] == all[order[i] as int].0);
            assert(keys[order[j] as int] == all[order[j] as int].0);
            if order[i] < order[j] {
                assert(all[order[i] as int].0 != all[order[j] as int].0);
            } else {
                assert(all[order[j] as int].0 != all[order[i] as int].0);
            }
        }
        assert forall|i: int| 0 <= i < v.len() implies m@.dom().contains((#[trigger] v[i]).0)
            && m@[v[i].0] == v[i].1 by {
            assert(m@.dom().contains(all[order[i] as int].0));
        }
        assert forall|k: u32| #[trigger] m@.dom().contains(k) implies exists|i: int|
            0 <= i < v.len() && (#[trigger] v[i]).0 == k by {
            let x = choose|x: int| 0 <= x < all.len() && (#[trigger] all[x]).0 == k;
            let a = sort::lemma_sorted_onto(keys@, order@, x);
            assert(v[a].0 == k);
        }
    }
    v
}

/// A sorted tally is a table.
pub proof fn lemma_lists_table(m: Map<u32, u32>, v: Seq<(u32, u32)>, xs: Seq<u32>)
    requires
        lists(m, v),
        tally::is_tally(m, xs),
    ensures
        tally::is_table(v, xs),
{
    assert forall|i: int| 0 <= i < v.len() implies 0 < (#[trigger] v[i]).1 == tally::occ(
        xs,
        v[i].0,
    ) by {
        assert(m.dom().contains(v[i].0));
    }
    assert forall|x: u32|
        #![trigger tally::occ(xs, x)]
        tally::occ(xs, x) > 0 implies exists|i: int|
        0 <= i < v.len() && (#[trigger] v[i]).0 == x by {
        assert(m.dom().contains(x));
    }
}

/// The sum of a table's counts.
pub fn total_of(v: &Vec<(TokenId, u32)>) -> (r: u32)
    requires
        tally::sum_counts(v@) <= u32::MAX,
    ensures
        r == tally::sum_counts(v@),
{
    let mut r: u32 = 0;
    let mut i: usize = 0;
    proof {
        assert(v@.subrange(0, 0).len() == 0);
    }
    while i < v.len()
        invariant
            i <= v.len(),
            tally::sum_counts(v@) <= u32::MAX,
            r == tally::sum_counts(v@.subrange(0, i as int)),
        decreases v.len() - i,
    {
        proof {
            tally::lemma_sum_counts_bounds(v@, i + 1);
            assert(v@.subrange(0, i + 1).drop_last() =~= v@.subrange(0, i as int));
        }
        r = r + v[i].1;
        i += 1;
    }
    proof {
        assert(v@.subrange(0, i as int) =~= v@);
    }
    r
}

/// Folds the scan of a buffer into the counts of an indexed text.
pub(crate) fn finish_counts(body: Vec<(TokenId, u32)>, buf: &[TokenId], ctx: &[TokenId], Ghost(xs): Ghost<Seq<u32>>) -> (r: (Vec<(TokenId, u32)>, u32))
    requires
        tally::is_table(body@, xs),
        buf.len() < i32::MAX,
        xs.len() + buf.len() < i32::MAX,
    ensures
        tally::is_table(r.0@, xs + nexts(buf@, ctx@)),
        r.1 == (xs + nexts(buf@, ctx@)).len(),
{
    let ghost ys = nexts(buf@, ctx@);
    let mut acc = fx::new_counts();
    count_linear(buf, ctx, &mut acc);
    proof {
        lemma_nexts_len(buf@, ctx@, buf.len() as int);
        assert forall|t: u32| #[trigger] tally::occ(xs + ys, t) == tally::occ(xs, t) + tally::occ(
            ys,
            t,
        ) by {
            tally::lemma_occ_add(xs, ys, t);
        }
    }
    let held = fx::counts(&acc);
    if held.len() == 0 {
        proof {
            assert(ys.len() == 0) by {
                if ys.len() > 0 {
                    tally::lemma_occ_pos(ys, ys[0], 0);
                    assert(acc@.dom().contains(ys[0]));
                }
            }
            assert(xs + ys =~= xs);
            tally::lemma_table_sum(body@, xs);
        }
        let total: u32 = total_of(&body);
        return (body, total);
    }
    let ghost start = acc@;
    let mut i: usize = 0;
    while i < body.len()
        invariant
            i <= body.len(),
            tally::is_table(body@, xs),
            tally::is_tally(start, ys),
            xs.len() + ys.len() < i32::MAX,
            forall|t: u32| #[trigger]
                acc@.dom().contains(t) <==> (start.dom().contains(t) || exists|x: int|
                    0 <= x < i && (#[trigger] body[x]).0 == t),
            forall|x: int|
                0 <= x < i ==> acc@[(#[trigger] body[x]).0] == tally::occ(ys, body[x].0)
                    + tally::occ(xs, body[x].0),
            forall|x: int|
                #![trigger body[x]]
                i <= x < body.len() && acc@.dom().contains(body[x].0) ==> acc@[body[x].0]
                    == tally::occ(ys, body[x].0),
            forall|t: u32| #[trigger]
                acc@.dom().contains(t) && (forall|x: int|
                    0 <= x < body.len() ==> (#[trigger] body[x]).0 != t) ==> acc@[t] == tally::occ(
                    ys,
                    t,
                ),
        decreases body.len() - i,
    {
        let (t, c) = body[i];
        let ghost before = acc@;
        proof {
            assert(body[i as int].0 == t);
            tally::lemma_occ_bounds(xs, t);
            tally::lemma_occ_bounds(ys, t);
            assert(before.dom().contains(t) <==> start.dom().contains(t)) by {
                if exists|x: int| 0 <= x < i && (#[trigger] body[x]).0 == t {
                    let x = choose|x: int| 0 <= x < i && (#[trigger] body[x]).0 == t;
                    assert(body[x].0 < body[i as int].0);
                }
            }
            assert(start.dom().contains(t) <==> tally::occ(ys, t) > 0);
        }
        let v: u32 = match fx::get_count(&acc, t) {
            Some(v) => v + c,
            None => c,
        };
        fx::set_count(&mut acc, t, v);
        proof {
            assert forall|x: int| 0 <= x < body.len() && x != i implies (#[trigger] body[x]).0
                != t by {
                if x < i {
                    assert(body[x].0 < body[i as int].0);
                } else {
                    assert(body[i as int].0 < body[x].0);
                }
            }
            assert forall|u: u32| #[trigger]
                acc@.dom().contains(u) <==> (start.dom().contains(u) || exists|x: int|
                    0 <= x < i + 1 && (#[trigger] body[x]).0 == u) by {
                if u == t {
                    assert(body[i as int].0 == u);
                }
            }
        }
        i += 1;
    }
    proof {
        assert forall|t: u32| #[trigger] acc@.dom().contains(t) <==> tally::occ(xs + ys, t) > 0 by {
            tally::lemma_occ_bounds(xs, t);
            tally::lemma_occ_bounds(ys, t);
            assert(start.dom().contains(t) <==> tally::occ(ys, t) > 0);
            assert(tally::occ(xs, t) > 0 <==> exists|x: int|
                0 <= x < body.len() && (#[trigger] body[x]).0 == t);
        }
        assert forall|t: u32| #[trigger] acc@.dom().contains(t) implies acc@[t] == tally::occ(
            xs + ys,
            t,
        ) by {
            tally::lemma_occ_bounds(xs, t);
            if exists|x: int| 0 <= x < body.len() && (#[trigger] body[x]).0 == t {
                let x = choose|x: int| 0 <= x < body.len() && (#[trigger] body[x]).0 == t;
                assert(acc@[body[x].0] == tally::occ(ys, t) + tally::occ(xs, t));
            }
        }
    }
    let v = sorted_counts(&acc);
    proof {
        lemma_lists_table(acc@, v@, xs + ys);
        tally::lemma_table_sum(v@, xs + ys);
    }
    let total: u32 = total_of(&v);
    (v, total)
}

proof fn lemma_nexts_listed(text: Seq<u32>, ctx: Seq<u32>, k: int)
    requires
        0 <= k,
    ensures
        nexts_upto(text, ctx, k) == Seq::new(k as nat, |i: int| i).filter(
            |i: int| i + ctx.len() < text.len() && text.subrange(i, i + ctx.len()) == ctx,
        ).map_values(|i: int| text[i + ctx.len()]),
    decreases k,
{
    reveal(Seq::filter);
    let n = ctx.len() as int;
    let here = |i: int| i + ctx.len() < text.len() && text.subrange(i, i + ctx.len()) == ctx;
    let next = |i: int| text[i + ctx.len()];
    let all = Seq::new(k as nat, |i: int| i);
    if k > 0 {
        lemma_nexts_listed(text, ctx, k - 1);
        assert(all.drop_last() =~= Seq::new((k - 1) as nat, |i: int| i));
        assert(all.last() == k - 1);
        let i = k - 1;
        if i + n < text.len() {
            if sais::starts_with(text, i, ctx) {
                assert(text.subrange(i, i + n) =~= ctx);
            } else {
                let j = choose|j: int| 0 <= j < ctx.len() && text[i + j] != #[trigger] ctx[j];
                assert(text.subrange(i, i + n)[j] != ctx[j]);
            }
        }
        if here(i) {
            assert(all.filter(here) == all.drop_last().filter(here).push(i));
        } else {
            assert(all.filter(here) == all.drop_last().filter(here));
        }
    }
    assert(nexts_upto(text, ctx, k) =~= all.filter(here).map_values(next));
}

/// What follows a context is listed once for every place of the text where the context stands
/// with something behind it, in text order.
pub proof fn law_what_follows_is_listed(text: Seq<u32>, ctx: Seq<u32>)
    ensures
        nexts(text, ctx) == Seq::new(text.len(), |i: int| i).filter(
            |i: int| i + ctx.len() < text.len() && text.subrange(i, i + ctx.len()) == ctx,
        ).map_values(|i: int| text[i + ctx.len()]),
{
    lemma_nexts_listed(text, ctx, text.len() as int);
}

/// A pattern occurs where the text has a part equal to it, and only there.
pub proof fn law_occurring_is_being_a_part(text: Seq<u32>, pat: Seq<u32>)
    ensures
        occurs_in(text, pat) <==> exists|i: int|
            0 <= i && i + pat.len() <= text.len() && #[trigger] text.subrange(i, i + pat.len())
                == pat,
{
    let n = pat.len() as int;
    if occurs_in(text, pat) {
        let i = choose|i: int| 0 <= i && #[trigger] sais::starts_with(text, i, pat);
        assert(text.subrange(i, i + n) =~= pat);
    }
    if exists|i: int|
        0 <= i && i + pat.len() <= text.len() && #[trigger] text.subrange(i, i + pat.len()) == pat {
        let i = choose|i: int|
            0 <= i && i + pat.len() <= text.len() && #[trigger] text.subrange(i, i + pat.len())
                == pat;
        assert forall|k: int| 0 <= k < pat.len() implies text[i + k] == #[trigger] pat[k] by {
            assert(text.subrange(i, i + n)[k] == text[i + k]);
        }
        assert(sais::starts_with(text, i, pat));
    }
}

} // verus!
