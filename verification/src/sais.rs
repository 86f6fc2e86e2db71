//! SA-IS suffix array over a `u32` alphabet (Nong, Zhang, Chan 2009).
//!
//! The token stream may contain `0` (EOS) many times, so each symbol is mapped
//! `t -> t + 1` and a unique sentinel `0` is appended before construction.
use crate::count;
use crate::ids::TokenId;
use crate::induced;
use crate::reduced;
use crate::suffix;
use vstd::prelude::*;

verus! {

/// Every symbol raised by one, as far as a `u32` goes.
pub open spec fn raised(text: Seq<u32>) -> Seq<u32> {
    text.map_values(
        |c: u32|
            if c == u32::MAX {
                c
            } else {
                (c + 1) as u32
            },
    )
}

/// The suffix at `i` starts with `pat`.
pub open spec fn starts_with(text: Seq<u32>, i: int, pat: Seq<u32>) -> bool {
    &&& i + pat.len() <= text.len()
    &&& forall|k: int| 0 <= k < pat.len() ==> text[i + k] == #[trigger] pat[k]
}

/// Suffix array of a token stream.
///
/// The two largest symbols are not told apart; a stream without the largest is sorted exactly.
pub fn suffix_array(text: &[TokenId]) -> (sa: Vec<u32>)
    requires
        text.len() < i32::MAX,
        forall|i: int| 0 <= i < text.len() ==> #[trigger] raised(text@)[i] < usize::MAX,
    ensures
        suffix::is_suffix_array(raised(text@), sa@),
        (forall|i: int| 0 <= i < text.len() ==> #[trigger] text[i] < u32::MAX)
            ==> suffix::is_suffix_array(text@, sa@),
{
    let n: usize = text.len();
    let ghost tv = text@;
    if n == 0 {
        return Vec::new();
    }
    if n == 1 {
        return vec![0u32];
    }
    let mut s: Vec<u32> = Vec::new();
    let mut max_sym: u32 = 0;
    let mut i: usize = 0;
    while i < n
        invariant
            n == text.len(),
            tv == text@,
            i <= n,
            s.len() == i,
            forall|x: int| 0 <= x < i ==> #[trigger] s[x] == raised(tv)[x] && s[x] <= max_sym,
            forall|x: int| 0 <= x < n ==> #[trigger] raised(tv)[x] < usize::MAX,
            max_sym < usize::MAX,
        decreases n - i,
    {
        let v: u32 = text[i].saturating_add(1);
        assert(v == raised(tv)[i as int]);
        if v > max_sym {
            max_sym = v;
        }
        s.push(v);
        i += 1;
    }
    s.push(0);
    proof {
        assert forall|x: int| 0 <= x < s.len() - 1 implies #[trigger] s[x] > 0 by {
            assert(s[x] == raised(tv)[x]);
        }
    }
    let k: usize = max_sym as usize + 1;
    let sa = sais(&s, k);
    proof {
        lemma_sentinel_first(s@, sa@);
    }
    let mut out: Vec<u32> = Vec::new();
    let mut i: usize = 0;
    while i < sa.len()
        invariant
            n < i32::MAX,
            sa.len() == n + 1,
            i <= n + 1,
            i == 0 ==> out.len() == 0,
            i > 0 ==> out.len() == i - 1,
            sa[0] == n,
            forall|a: int| 0 < a < sa.len() ==> 0 <= #[trigger] sa[a] < n,
            forall|a: int| 0 <= a < out.len() ==> #[trigger] out[a] == sa[a + 1],
        decreases sa.len() - i,
    {
        if sa[i] as usize != n {
            out.push(sa[i] as u32);
        }
        i += 1;
    }
    proof {
        let b = raised(tv);
        assert(s@.subrange(0, n as int) =~= b);
        assert forall|x: int, y: int| 0 <= x < y < n implies #[trigger] suffix::suffix_lt(
            b,
            out[x] as int,
            out[y] as int,
        ) by {
            assert(out[x] == sa[x + 1] && out[y] == sa[y + 1]);
            assert(suffix::suffix_lt(s@, sa[x + 1] as int, sa[y + 1] as int));
            suffix::lemma_suffix_irreflexive(s@, sa[x + 1] as int);
            lemma_drop_sentinel(b, s@, out[x] as int, out[y] as int);
        }
        if forall|i: int| 0 <= i < tv.len() ==> #[trigger] tv[i] < u32::MAX {
            assert forall|x: int, y: int| 0 <= x < y < n implies #[trigger] suffix::suffix_lt(
                tv,
                out[x] as int,
                out[y] as int,
            ) by {
                assert(suffix::suffix_lt(b, out[x] as int, out[y] as int));
                lemma_raised_order(tv, out[x] as int, out[y] as int);
            }
        }
    }
    out
}

/// Raising every symbol keeps the order of the suffixes.
pub proof fn lemma_raised_order(text: Seq<u32>, i: int, j: int)
    requires
        0 <= i,
        0 <= j,
        forall|x: int| 0 <= x < text.len() ==> #[trigger] text[x] < u32::MAX,
    ensures
        suffix::suffix_lt(raised(text), i, j) == suffix::suffix_lt(text, i, j),
    decreases text.len() - i,
{
    let b = raised(text);
    assert(b.len() == text.len());
    if i < text.len() && j < text.len() {
        assert(b[i] == text[i] + 1 && b[j] == text[j] + 1);
        lemma_raised_order(text, i + 1, j + 1);
    }
}

proof fn lemma_drop_sentinel(b: Seq<u32>, s: Seq<u32>, i: int, j: int)
    requires
        induced::sentinel_terminated(s),
        b == s.subrange(0, s.len() - 1),
        0 <= i < s.len(),
        0 <= j < s.len(),
        i != j,
    ensures
        suffix::suffix_lt(b, i, j) == suffix::suffix_lt(s, i, j),
    decreases s.len() - i,
{
    if i < b.len() && j < b.len() && s[i] == s[j] {
        lemma_drop_sentinel(b, s, i + 1, j + 1);
    }
}

proof fn lemma_sentinel_first(s: Seq<u32>, sa: Seq<i32>)
    requires
        induced::sentinel_terminated(s),
        sa.len() == s.len(),
        forall|a: int| 0 <= a < sa.len() ==> 0 <= #[trigger] sa[a] < s.len(),
        forall|a: int, b: int|
            0 <= a < b < sa.len() ==> #[trigger] suffix::suffix_lt(s, sa[a] as int, sa[b] as int),
    ensures
        sa[0] == s.len() - 1,
        forall|a: int| 0 < a < sa.len() ==> 0 <= #[trigger] sa[a] < s.len() - 1,
{
    let n = s.len() as int;
    let f = |a: int| sa[a] as int;
    assert forall|a: int, b: int| 0 <= a < b < n implies #[trigger] f(a) != #[trigger] f(b) by {
        assert(suffix::suffix_lt(s, sa[a] as int, sa[b] as int));
        suffix::lemma_suffix_irreflexive(s, sa[a] as int);
    }
    let z = count::lemma_injective_onto(f, n, n - 1);
    if z > 0 {
        assert(suffix::suffix_lt(s, sa[0] as int, sa[z] as int));
        assert(f(0) != f(z));
    }
    assert forall|a: int| 0 < a < n implies 0 <= #[trigger] sa[a] < n - 1 by {
        assert(f(0) != f(a));
    }
}

/// How the suffix at `i` stands to the pattern, from the pattern's `k`-th symbol on:
/// negative where it is smaller or too short, zero where it starts with it.
pub open spec fn pat_order(text: Seq<u32>, i: int, pat: Seq<u32>, k: int) -> int
    decreases pat.len() - k,
{
    if k >= pat.len() {
        0
    } else if i + k >= text.len() || text[i + k] < pat[k] {
        -1
    } else if text[i + k] > pat[k] {
        1
    } else {
        pat_order(text, i, pat, k + 1)
    }
}

proof fn lemma_pat_order_mono(text: Seq<u32>, i: int, j: int, pat: Seq<u32>, k: int)
    requires
        0 <= i,
        0 <= j,
        0 <= k,
        suffix::suffix_lt(text, i + k, j + k),
    ensures
        pat_order(text, i, pat, k) <= pat_order(text, j, pat, k),
    decreases pat.len() - k,
{
    lemma_pat_order_range(text, i, pat, k);
    lemma_pat_order_range(text, j, pat, k);
    if k < pat.len() && i + k < text.len() && j + k < text.len() && text[i + k] == text[j + k] {
        lemma_pat_order_mono(text, i, j, pat, k + 1);
    }
}

proof fn lemma_pat_order_range(text: Seq<u32>, i: int, pat: Seq<u32>, k: int)
    ensures
        -1 <= pat_order(text, i, pat, k) <= 1,
    decreases pat.len() - k,
{
    if k < pat.len() {
        lemma_pat_order_range(text, i, pat, k + 1);
    }
}

proof fn lemma_pat_order_zero(text: Seq<u32>, i: int, pat: Seq<u32>, k: int)
    requires
        0 <= i,
        0 <= k <= pat.len(),
        i + k <= text.len(),
        forall|x: int| 0 <= x < k ==> text[i + x] == #[trigger] pat[x],
    ensures
        (pat_order(text, i, pat, k) == 0) == starts_with(text, i, pat),
    decreases pat.len() - k,
{
    if k < pat.len() {
        if i + k < text.len() && text[i + k] == pat[k] {
            lemma_pat_order_zero(text, i, pat, k + 1);
        } else {
            assert(starts_with(text, i, pat) ==> text[i + k] == pat[k]);
        }
    }
}

/// How a suffix stands to a pattern.
enum Side {
    Below,
    Match,
    Above,
}

/// Compares the suffix at `i` with a pattern, up to the pattern's length.
fn side_of(text: &[TokenId], i: usize, pat: &[TokenId]) -> (r: Side)
    ensures
        r == (if pat_order(text@, i as int, pat@, 0) < 0 {
            Side::Below
        } else if pat_order(text@, i as int, pat@, 0) > 0 {
            Side::Above
        } else {
            Side::Match
        }),
{
    let mut k: usize = 0;
    while k < pat.len()
        invariant
            k <= pat.len(),
            pat_order(text@, i as int, pat@, 0) == pat_order(text@, i as int, pat@, k as int),
        decreases pat.len() - k,
    {
        if i >= text.len() || k >= text.len() - i {
            return Side::Below;
        }
        let c: u32 = text[i + k];
        if c < pat[k] {
            return Side::Below;
        }
        if c > pat[k] {
            return Side::Above;
        }
        k += 1;
    }
    Side::Match
}

/// Where the suffixes that start with the pattern begin, or where they end.
fn bound(text: &[TokenId], sa: &[u32], pat: &[TokenId], lower: bool) -> (r: usize)
    ensures
        r <= sa.len(),
        suffix::is_suffix_array(text@, sa@) ==> forall|a: int|
            0 <= a < sa.len() ==> (a < r <==> {
                let o = pat_order(text@, #[trigger] sa[a] as int, pat@, 0);
                if lower {
                    o < 0
                } else {
                    o <= 0
                }
            }),
{
    let mut lo: usize = 0;
    let mut hi: usize = sa.len();
    while lo < hi
        invariant
            lo <= hi <= sa.len(),
            suffix::is_suffix_array(text@, sa@) ==> forall|a: int|
                0 <= a < lo ==> {
                    let o = pat_order(text@, #[trigger] sa[a] as int, pat@, 0);
                    if lower {
                        o < 0
                    } else {
                        o <= 0
                    }
                },
            suffix::is_suffix_array(text@, sa@) ==> forall|a: int|
                hi <= a < sa.len() ==> {
                    let o = pat_order(text@, #[trigger] sa[a] as int, pat@, 0);
                    if lower {
                        o >= 0
                    } else {
                        o > 0
                    }
                },
        decreases hi - lo,
    {
        let mid: usize = lo + (hi - lo) / 2;
        let side = side_of(text, sa[mid] as usize, pat);
        let take_left: bool = match side {
            Side::Below => false,
            Side::Match => lower,
            Side::Above => true,
        };
        proof {
            if suffix::is_suffix_array(text@, sa@) {
                assert forall|a: int| 0 <= a < sa.len() implies {
                    let o = pat_order(text@, #[trigger] sa[a] as int, pat@, 0);
                    let m = pat_order(text@, sa[mid as int] as int, pat@, 0);
                    &&& a < mid ==> o <= m
                    &&& a > mid ==> m <= o
                } by {
                    if a < mid {
                        assert(suffix::suffix_lt(text@, sa[a] as int, sa[mid as int] as int));
                        lemma_pat_order_mono(text@, sa[a] as int, sa[mid as int] as int, pat@, 0);
                    } else if a > mid {
                        assert(suffix::suffix_lt(text@, sa[mid as int] as int, sa[a] as int));
                        lemma_pat_order_mono(text@, sa[mid as int] as int, sa[a] as int, pat@, 0);
                    }
                }
            }
        }
        if take_left {
            hi = mid;
        } else {
            lo = mid + 1;
        }
    }
    lo
}

/// Binary-searches the half-open range of the suffix array whose suffixes start with `pat`.
///
/// On an array that is not the text's suffix array, the range is in bounds and no more is said.
pub fn sa_range(text: &[TokenId], sa: &[u32], pat: &[TokenId]) -> (r: Option<(usize, usize)>)
    ensures
        pat.len() == 0 || sa.len() == 0 ==> r is None,
        r matches Some((lo, hi)) ==> lo < hi <= sa.len(),
        suffix::is_suffix_array(text@, sa@) && pat.len() > 0 ==> match r {
            Some((lo, hi)) => forall|a: int|
                0 <= a < sa.len() ==> (lo <= a < hi <==> starts_with(
                    text@,
                    #[trigger] sa[a] as int,
                    pat@,
                )),
            None => forall|a: int|
                0 <= a < sa.len() ==> !starts_with(text@, #[trigger] sa[a] as int, pat@),
        },
{
    if pat.len() == 0 || sa.len() == 0 {
        return None;
    }
    let lo = bound(text, sa, pat, true);
    let hi = bound(text, sa, pat, false);
    proof {
        if suffix::is_suffix_array(text@, sa@) {
            assert forall|a: int| 0 <= a < sa.len() implies (lo <= a < hi <==> starts_with(
                text@,
                #[trigger] sa[a] as int,
                pat@,
            )) by {
                lemma_pat_order_zero(text@, sa[a] as int, pat@, 0);
            }
        }
    }
    if lo < hi {
        Some((lo, hi))
    } else {
        None
    }
}

/// Sum of the first `i` entries.
pub open spec fn sum_to(cnt: Seq<i32>, i: int) -> int
    decreases i,
{
    if i <= 0 {
        0
    } else {
        sum_to(cnt, i - 1) + cnt[i - 1]
    }
}

proof fn lemma_sum_mono(cnt: Seq<i32>, i: int, j: int)
    requires
        0 <= i <= j <= cnt.len(),
        forall|x: int| 0 <= x < cnt.len() ==> #[trigger] cnt[x] >= 0,
    ensures
        sum_to(cnt, i) <= sum_to(cnt, j),
    decreases j - i,
{
    if i < j {
        lemma_sum_mono(cnt, i, j - 1);
    }
}

/// Number of occurrences of each symbol.
fn counts(s: &[u32], k: usize) -> (c: Vec<i32>)
    requires
        s.len() <= i32::MAX,
        forall|i: int| 0 <= i < s.len() ==> #[trigger] s[i] < k,
    ensures
        c.len() == k,
        forall|x: int|
            0 <= x < k ==> #[trigger] c[x] == count::count(
                induced::with(s@, x),
                s.len() as int,
            ),
{
    let mut c: Vec<i32> = vec![0i32; k];
    let mut i: usize = 0;
    while i < s.len()
        invariant
            s.len() <= i32::MAX,
            forall|i: int| 0 <= i < s.len() ==> #[trigger] s[i] < k,
            i <= s.len(),
            c.len() == k,
            forall|x: int|
                0 <= x < k ==> #[trigger] c[x] == count::count(induced::with(s@, x), i as int),
        decreases s.len() - i,
    {
        let x: usize = s[i] as usize;
        proof {
            count::lemma_count_bounds(induced::with(s@, x as int), i as int);
        }
        let v: i32 = c[x];
        c.set(x, v + 1);
        i += 1;
    }
    c
}

/// Start or end of each symbol's bucket.
fn buckets(cnt: &Vec<i32>, end: bool) -> (bkt: Vec<i32>)
    requires
        forall|x: int| 0 <= x < cnt.len() ==> #[trigger] cnt[x] >= 0,
        sum_to(cnt@, cnt.len() as int) <= i32::MAX,
    ensures
        bkt.len() == cnt.len(),
        forall|x: int|
            0 <= x < cnt.len() ==> #[trigger] bkt[x] == sum_to(
                cnt@,
                if end {
                    x + 1
                } else {
                    x
                },
            ),
{
    let mut bkt: Vec<i32> = vec![0i32; cnt.len()];
    let mut sum: i32 = 0;
    let mut i: usize = 0;
    while i < cnt.len()
        invariant
            forall|x: int| 0 <= x < cnt.len() ==> #[trigger] cnt[x] >= 0,
            sum_to(cnt@, cnt.len() as int) <= i32::MAX,
            i <= cnt.len(),
            bkt.len() == cnt.len(),
            sum == sum_to(cnt@, i as int),
            forall|x: int|
                0 <= x < i ==> #[trigger] bkt[x] == sum_to(
                    cnt@,
                    if end {
                        x + 1
                    } else {
                        x
                    },
                ),
        decreases cnt.len() - i,
    {
        proof {
            lemma_sum_mono(cnt@, 0, i as int);
            lemma_sum_mono(cnt@, i + 1, cnt.len() as int);
        }
        sum = sum + cnt[i];
        bkt.set(
            i,
            if end {
                sum
            } else {
                sum - cnt[i]
            },
        );
        i += 1;
    }
    bkt
}

/// The sums of the counts are the bucket borders.
proof fn lemma_sums(s: Seq<u32>, cnt: Seq<i32>, x: int)
    requires
        forall|y: int|
            0 <= y < cnt.len() ==> #[trigger] cnt[y] == count::count(
                induced::with(s, y),
                s.len() as int,
            ),
        0 <= x <= cnt.len(),
    ensures
        sum_to(cnt, x) == induced::bucket_start(s, x),
        x < cnt.len() ==> sum_to(cnt, x + 1) == induced::bucket_end(s, x),
    decreases x,
{
    let n = s.len() as int;
    if x == 0 {
        count::lemma_count_zero(induced::below(s, 0), n);
    } else {
        lemma_sums(s, cnt, x - 1);
        count::lemma_count_eq(induced::below(s, x), induced::upto(s, x - 1), n);
    }
    count::lemma_count_split(induced::upto(s, x), induced::below(s, x), induced::with(s, x), n);
}

fn is_lms(stype: &[bool], i: usize) -> (r: bool)
    requires
        i < stype.len(),
    ensures
        r == induced::lms(stype@, i as int),
{
    i > 0 && stype[i] && !stype[i - 1]
}

/// Puts the listed positions at the ends of their buckets, in their order.
fn place_listed(
    s: &[u32],
    cnt: &Vec<i32>,
    lms: &[usize],
    Ghost(t): Ghost<Seq<bool>>,
) -> (sa: Vec<i32>)
    requires
        induced::sortable(s@, t, lms@),
        s.len() <= i32::MAX,
        forall|i: int| 0 <= i < s.len() ==> #[trigger] s[i] < cnt.len(),
        forall|y: int|
            0 <= y < cnt.len() ==> #[trigger] cnt[y] == count::count(
                induced::with(s@, y),
                s.len() as int,
            ),
    ensures
        sa.len() == s.len(),
        forall|x: int|
            induced::lms(t, x) ==> sa[#[trigger] induced::slot_l(s@, t, lms@, x)] == x,
        forall|p: int|
            0 <= p < sa.len() && #[trigger] sa[p] != -1 ==> induced::lms(t, sa[p] as int) && p
                == induced::slot_l(s@, t, lms@, sa[p] as int),
{
    let n: usize = s.len();
    let ghost sv = s@;
    let ghost l = lms@;
    let mut sa: Vec<i32> = vec![-1i32; n];
    proof {
        lemma_sums_bounds(sv, cnt@);
    }
    let mut bkt = buckets(cnt, true);
    let mut m: usize = lms.len();
    proof {
        assert forall|c: int| 0 <= c < cnt.len() implies #[trigger] bkt[c] == induced::bucket_end(
            sv,
            c,
        ) - count::count(induced::lms_from(sv, t, l, c, m as int), n as int) by {
            lemma_sums(sv, cnt@, c);
            let p = induced::lms_from(sv, t, l, c, m as int);
            assert forall|y: int| 0 <= y < n implies !(#[trigger] p(y)) by {
                if induced::lms(t, y) {
                    induced::lemma_place(t, l, y);
                }
            }
            count::lemma_count_zero(p, n as int);
        }
    }
    while m > 0
        invariant
            sv == s@,
            l == lms@,
            n == s.len(),
            n <= i32::MAX,
            sa.len() == n,
            bkt.len() == cnt.len(),
            m <= lms.len(),
            induced::sortable(sv, t, l),
            forall|i: int| 0 <= i < s.len() ==> #[trigger] s[i] < cnt.len(),
            forall|c: int|
                0 <= c < cnt.len() ==> #[trigger] bkt[c] == induced::bucket_end(sv, c)
                    - count::count(induced::lms_from(sv, t, l, c, m as int), n as int),
            forall|x: int|
                induced::lms(t, x) && induced::place(l, x) >= m
                    ==> sa[#[trigger] induced::slot_l(sv, t, l, x)] == x,
            forall|p: int|
                0 <= p < sa.len() && #[trigger] sa[p] != -1 ==> induced::lms(t, sa[p] as int) && p
                    == induced::slot_l(sv, t, l, sa[p] as int),
        decreases m,
    {
        m -= 1;
        let i: usize = lms[m];
        proof {
            assert(induced::lms(t, l[m as int] as int));
        }
        let c: usize = s[i] as usize;
        proof {
            induced::lemma_place_of(t, l, m as int);
            induced::lemma_slot_l_range(sv, t, l, i as int);
            induced::lemma_bucket_bounds(sv, c as int);
            assert forall|d: int| 0 <= d < cnt.len() implies count::count(
                induced::lms_from(sv, t, l, d, m as int),
                n as int,
            ) == #[trigger] count::count(induced::lms_from(sv, t, l, d, m + 1), n as int) + (if d
                == c {
                1int
            } else {
                0
            }) by {
                let p = induced::lms_from(sv, t, l, d, m + 1);
                let q = induced::lms_from(sv, t, l, d, m as int);
                assert forall|y: int|
                    #![trigger p(y)]
                    #![trigger q(y)]
                    0 <= y < n implies q(y) == (p(y) || (y == i && d == c)) by {
                    if induced::lms(t, y) {
                        induced::lemma_place(t, l, y);
                    }
                }
                if d == c {
                    count::lemma_count_add(p, q, n as int, i as int);
                } else {
                    count::lemma_count_eq(p, q, n as int);
                }
            }
        }
        let b: i32 = bkt[c];
        assert(b == induced::bucket_end(sv, c as int) - count::count(
            induced::lms_from(sv, t, l, c as int, m + 1),
            n as int,
        ));
        bkt.set(c, b - 1);
        sa.set((b - 1) as usize, i as i32);
        proof {
            assert(b - 1 == induced::slot_l(sv, t, l, i as int));
            assert forall|x: int| induced::lms(t, x) && induced::place(l, x) >= m implies sa[
            #[trigger] induced::slot_l(sv, t, l, x)] == x by {
                induced::lemma_slot_l_iff(sv, t, l, x, i as int);
                induced::lemma_slot_l_range(sv, t, l, x);
                induced::lemma_bucket_bounds(sv, sv[x] as int);
                induced::lemma_place(t, l, x);
            }
        }
    }
    proof {
        assert forall|x: int| induced::lms(t, x) implies sa[#[trigger] induced::slot_l(
            sv,
            t,
            l,
            x,
        )] == x by {
            induced::lemma_place(t, l, x);
        }
    }
    sa
}

/// First sweep: puts each L-type position behind those of its bucket that were met before it.
fn sweep_l(s: &[u32], stype: &[bool], cnt: &Vec<i32>, sa: &mut Vec<i32>, Ghost(l): Ghost<Seq<usize>>)
    requires
        induced::sortable(s@, stype@, l),
        s.len() <= i32::MAX,
        old(sa).len() == s.len(),
        forall|i: int| 0 <= i < s.len() ==> #[trigger] s[i] < cnt.len(),
        forall|y: int|
            0 <= y < cnt.len() ==> #[trigger] cnt[y] == count::count(
                induced::with(s@, y),
                s.len() as int,
            ),
        forall|x: int|
            induced::lms(stype@, x) ==> old(sa)[#[trigger] induced::slot_l(s@, stype@, l, x)] == x,
        forall|p: int|
            0 <= p < old(sa).len() && #[trigger] old(sa)[p] != -1 ==> induced::lms(
                stype@,
                old(sa)[p] as int,
            ) && p == induced::slot_l(s@, stype@, l, old(sa)[p] as int),
    ensures
        final(sa).len() == s.len(),
        forall|x: int|
            0 <= x < s.len() && !stype[x] ==> final(sa)[#[trigger] induced::slot_l(
                s@,
                stype@,
                l,
                x,
            )] == x,
        final(sa)[0] == s.len() - 1,
        forall|p: int| 0 <= p < s.len() ==> -1 <= #[trigger] final(sa)[p] < s.len(),
{
    let n: usize = s.len();
    let ghost sv = s@;
    let ghost t = stype@;
    proof {
        lemma_sums_bounds(sv, cnt@);
        induced::lemma_slot_sentinel(sv, t, l);
    }
    let mut bkt = buckets(cnt, false);
    let mut i: usize = 0;
    proof {
        assert forall|c: int| 0 <= c < cnt.len() implies #[trigger] bkt[c]
            == induced::bucket_start(sv, c) + count::count(
            induced::l_seen(sv, t, l, c, 0),
            n as int,
        ) by {
            lemma_sums(sv, cnt@, c);
            let p = induced::l_seen(sv, t, l, c, 0);
            assert forall|y: int| 0 <= y < n implies !(#[trigger] p(y)) by {
                if !t[y] {
                    induced::lemma_slot_l_range(sv, t, l, y + 1);
                    induced::lemma_bucket_bounds(sv, sv[y + 1] as int);
                }
            }
            count::lemma_count_zero(p, n as int);
        }
        assert forall|x: int|
            0 <= x < n && !t[x] implies #[trigger] induced::slot_l(sv, t, l, x + 1) >= 0 by {
            induced::lemma_slot_l_range(sv, t, l, x + 1);
            induced::lemma_bucket_bounds(sv, sv[x + 1] as int);
        }
    }
    while i < n
        invariant
            sv == s@,
            t == stype@,
            n == s.len(),
            n <= i32::MAX,
            i <= n,
            sa.len() == n,
            bkt.len() == cnt.len(),
            induced::sortable(sv, t, l),
            induced::lms(t, n - 1) && induced::slot_l(sv, t, l, n - 1) == 0,
            forall|i: int| 0 <= i < s.len() ==> #[trigger] s[i] < cnt.len(),
            forall|c: int|
                0 <= c < cnt.len() ==> #[trigger] bkt[c] == induced::bucket_start(sv, c)
                    + count::count(induced::l_seen(sv, t, l, c, i as int), n as int),
            forall|x: int|
                induced::lms(t, x) ==> sa[#[trigger] induced::slot_l(sv, t, l, x)] == x,
            forall|x: int|
                0 <= x < n && !t[x] && #[trigger] induced::slot_l(sv, t, l, x + 1) < i ==> sa[
                induced::slot_l(sv, t, l, x)] == x,
            forall|p: int|
                0 <= p < sa.len() && #[trigger] sa[p] != -1 ==> induced::swept(t, sa[p] as int)
                    && p == induced::slot_l(sv, t, l, sa[p] as int),
        decreases n - i,
    {
        let v: i32 = sa[i];
        proof {
            // A swept position whose slot this is has been put here.
            assert forall|x: int|
                #![trigger induced::slot_l(sv, t, l, x)]
                induced::swept(t, x) && induced::slot_l(sv, t, l, x) == i implies v == x by {
                if !t[x] {
                    induced::lemma_l_after_succ(sv, t, l, x);
                    induced::lemma_slot_l_iff(sv, t, l, x + 1, x);
                }
            }
        }
        if v > 0 && !stype[v as usize - 1] {
            let j: usize = v as usize - 1;
            let c: usize = s[j] as usize;
            proof {
                assert(sa[i as int] != -1);
                assert(induced::slot_l(sv, t, l, j + 1) == i);
                assert forall|d: int| 0 <= d < cnt.len() implies #[trigger] count::count(
                    induced::l_seen(sv, t, l, d, i + 1),
                    n as int,
                ) == count::count(induced::l_seen(sv, t, l, d, i as int), n as int) + (if d == c {
                    1int
                } else {
                    0
                }) by {
                    induced::lemma_l_seen_step(sv, t, l, d, i as int, j as int);
                }
                induced::lemma_l_seen_step(sv, t, l, c as int, i as int, j as int);
                induced::lemma_slot_l_range(sv, t, l, j as int);
                induced::lemma_bucket_bounds(sv, c as int);
            }
            let b: i32 = bkt[c];
            assert(b == induced::slot_l(sv, t, l, j as int));
            sa.set(b as usize, j as i32);
            bkt.set(c, b + 1);
            proof {
                assert forall|x: int| induced::lms(t, x) implies sa[#[trigger] induced::slot_l(
                    sv,
                    t,
                    l,
                    x,
                )] == x by {
                    induced::lemma_slot_l_iff(sv, t, l, x, j as int);
                    induced::lemma_slot_l_range(sv, t, l, x);
                    induced::lemma_bucket_bounds(sv, sv[x] as int);
                }
                assert forall|x: int|
                    0 <= x < n && !t[x] && #[trigger] induced::slot_l(sv, t, l, x + 1) < i
                        + 1 implies sa[induced::slot_l(sv, t, l, x)] == x by {
                    induced::lemma_slot_l_iff(sv, t, l, x, j as int);
                    induced::lemma_slot_l_iff(sv, t, l, x + 1, j + 1);
                    induced::lemma_slot_l_range(sv, t, l, x);
                    induced::lemma_bucket_bounds(sv, sv[x] as int);
                }
            }
        } else {
            proof {
                assert forall|x: int| 0 <= x < n && !t[x] implies #[trigger] induced::slot_l(
                    sv,
                    t,
                    l,
                    x + 1,
                ) != i by {
                    assert(induced::swept(t, x + 1));
                }
                assert forall|d: int| 0 <= d < cnt.len() implies #[trigger] count::count(
                    induced::l_seen(sv, t, l, d, i + 1),
                    n as int,
                ) == count::count(induced::l_seen(sv, t, l, d, i as int), n as int) by {
                    induced::lemma_l_seen_skip(sv, t, l, d, i as int);
                }
            }
        }
        i += 1;
    }
    proof {
        assert forall|x: int| 0 <= x < n && !t[x] implies sa[#[trigger] induced::slot_l(
            sv,
            t,
            l,
            x,
        )] == x by {
            induced::lemma_slot_l_range(sv, t, l, x + 1);
            induced::lemma_bucket_bounds(sv, sv[x + 1] as int);
            assert(induced::slot_l(sv, t, l, x + 1) < n);
        }
        assert(sa[induced::slot_l(sv, t, l, n - 1)] == n - 1);
    }
}

/// Second sweep: puts each S-type position before those of its bucket that were met before it.
fn sweep_s(s: &[u32], stype: &[bool], cnt: &Vec<i32>, sa: &mut Vec<i32>, Ghost(l): Ghost<Seq<usize>>)
    requires
        induced::sortable(s@, stype@, l),
        s.len() <= i32::MAX,
        old(sa).len() == s.len(),
        forall|i: int| 0 <= i < s.len() ==> #[trigger] s[i] < cnt.len(),
        forall|y: int|
            0 <= y < cnt.len() ==> #[trigger] cnt[y] == count::count(
                induced::with(s@, y),
                s.len() as int,
            ),
        forall|x: int|
            0 <= x < s.len() && !stype[x] ==> old(sa)[#[trigger] induced::slot_l(
                s@,
                stype@,
                l,
                x,
            )] == x,
        old(sa)[0] == s.len() - 1,
        forall|p: int| 0 <= p < s.len() ==> -1 <= #[trigger] old(sa)[p] < s.len(),
    ensures
        final(sa).len() == s.len(),
        forall|x: int|
            0 <= x < s.len() ==> final(sa)[#[trigger] induced::slot(s@, stype@, l, x)] == x,
{
    let n: usize = s.len();
    let ghost sv = s@;
    let ghost t = stype@;
    proof {
        lemma_sums_bounds(sv, cnt@);
        induced::lemma_slot_sentinel(sv, t, l);
    }
    let mut bkt = buckets(cnt, true);
    let mut i: usize = n;
    proof {
        assert forall|c: int| 0 <= c < cnt.len() implies #[trigger] bkt[c] == induced::bucket_end(
            sv,
            c,
        ) - count::count(induced::s_seen(sv, t, l, c, n as int), n as int) by {
            lemma_sums(sv, cnt@, c);
            let p = induced::s_seen(sv, t, l, c, n as int);
            assert forall|y: int| 0 <= y < n implies !(#[trigger] p(y)) by {
                if y < n - 1 {
                    induced::lemma_slot_iff(sv, t, l, y + 1, y + 1);
                }
            }
            count::lemma_count_zero(p, n as int);
        }
        assert forall|x: int| 0 <= x < n && !t[x] implies sa[#[trigger] induced::slot(
            sv,
            t,
            l,
            x,
        )] == x by {
            induced::lemma_slot_of_l(sv, t, l, x);
        }
        assert forall|x: int| 0 <= x < n - 1 implies #[trigger] induced::slot(sv, t, l, x + 1)
            < n by {
            induced::lemma_slot_iff(sv, t, l, x + 1, x + 1);
        }
    }
    while i > 0
        invariant
            sv == s@,
            t == stype@,
            n == s.len(),
            n <= i32::MAX,
            i <= n,
            sa.len() == n,
            bkt.len() == cnt.len(),
            induced::sortable(sv, t, l),
            induced::slot(sv, t, l, n - 1) == 0,
            sa[0] == n - 1,
            forall|i: int| 0 <= i < s.len() ==> #[trigger] s[i] < cnt.len(),
            forall|c: int|
                0 <= c < cnt.len() ==> #[trigger] bkt[c] == induced::bucket_end(sv, c)
                    - count::count(induced::s_seen(sv, t, l, c, i as int), n as int),
            forall|x: int|
                0 <= x < n && !t[x] ==> sa[#[trigger] induced::slot(sv, t, l, x)] == x,
            forall|x: int|
                0 <= x < n - 1 && t[x] && #[trigger] induced::slot(sv, t, l, x + 1) >= i ==> sa[
                induced::slot(sv, t, l, x)] == x,
        decreases i,
    {
        i -= 1;
        let v: i32 = sa[i as usize];
        proof {
            // The owner of this slot has been put here.
            let x = induced::lemma_slot_owner(sv, t, l, i as int);
            if t[x] && x < n - 1 {
                induced::lemma_s_before_succ(sv, t, l, x);
                induced::lemma_slot_iff(sv, t, l, x, x + 1);
                assert(induced::slot(sv, t, l, x + 1) >= i + 1);
            }
            assert(v == x && induced::slot(sv, t, l, v as int) == i);
        }
        if v > 0 && stype[v as usize - 1] {
            let j: usize = v as usize - 1;
            let c: usize = s[j] as usize;
            proof {
                assert(induced::slot(sv, t, l, j + 1) == i);
                assert forall|d: int| 0 <= d < cnt.len() implies #[trigger] count::count(
                    induced::s_seen(sv, t, l, d, i as int),
                    n as int,
                ) == count::count(induced::s_seen(sv, t, l, d, i + 1), n as int) + (if d == c {
                    1int
                } else {
                    0
                }) by {
                    induced::lemma_s_seen_step(sv, t, l, d, i as int, j as int);
                }
                induced::lemma_s_seen_step(sv, t, l, c as int, i as int, j as int);
                induced::lemma_slot_of_s(sv, t, l, j as int);
                induced::lemma_bucket_bounds(sv, c as int);
                induced::lemma_bucket_split(sv, t, c as int);
                induced::lemma_slot_iff(sv, t, l, j as int, n - 1);
            }
            let b: i32 = bkt[c];
            assert(b - 1 == induced::slot(sv, t, l, j as int));
            bkt.set(c, b - 1);
            sa.set((b - 1) as usize, j as i32);
            proof {
                assert forall|x: int| 0 <= x < n && !t[x] implies sa[#[trigger] induced::slot(
                    sv,
                    t,
                    l,
                    x,
                )] == x by {
                    induced::lemma_slot_iff(sv, t, l, x, j as int);
                }
                assert forall|x: int|
                    0 <= x < n - 1 && t[x] && #[trigger] induced::slot(sv, t, l, x + 1)
                        >= i implies sa[induced::slot(sv, t, l, x)] == x by {
                    induced::lemma_slot_iff(sv, t, l, x, j as int);
                    induced::lemma_slot_iff(sv, t, l, x + 1, j + 1);
                }
            }
        } else {
            proof {
                assert forall|x: int| 0 <= x < n - 1 && t[x] implies #[trigger] induced::slot(
                    sv,
                    t,
                    l,
                    x + 1,
                ) != i by {
                    induced::lemma_slot_iff(sv, t, l, x + 1, v as int);
                }
                assert forall|d: int| 0 <= d < cnt.len() implies #[trigger] count::count(
                    induced::s_seen(sv, t, l, d, i as int),
                    n as int,
                ) == count::count(induced::s_seen(sv, t, l, d, i + 1), n as int) by {
                    induced::lemma_s_seen_skip(sv, t, l, d, i as int);
                }
            }
        }
    }
    proof {
        assert forall|x: int| 0 <= x < n implies sa[#[trigger] induced::slot(sv, t, l, x)]
            == x by {
            if x < n - 1 {
                induced::lemma_slot_iff(sv, t, l, x + 1, x + 1);
                assert(induced::slot(sv, t, l, x + 1) >= 0);
            }
        }
    }
}

/// Sorts every position from the order of the listed leftmost-S positions.
fn induce(s: &[u32], stype: &[bool], k: usize, lms: &[usize]) -> (sa: Vec<i32>)
    requires
        induced::sortable(s@, stype@, lms@),
        s.len() <= i32::MAX,
        forall|i: int| 0 <= i < s.len() ==> #[trigger] s[i] < k,
    ensures
        sa.len() == s.len(),
        forall|x: int|
            0 <= x < s.len() ==> sa[#[trigger] induced::slot(s@, stype@, lms@, x)] == x,
{
    let cnt = counts(s, k);
    let mut sa = place_listed(s, &cnt, lms, Ghost(stype@));
    sweep_l(s, stype, &cnt, &mut sa, Ghost(lms@));
    sweep_s(s, stype, &cnt, &mut sa, Ghost(lms@));
    sa
}

/// Whether two leftmost-S substrings are equal.
fn lms_substr_eq(s: &[u32], stype: &[bool], a: usize, b: usize) -> (r: bool)
    requires
        reduced::typed(s@, stype@),
        induced::lms(stype@, a as int),
        induced::lms(stype@, b as int),
    ensures
        r == (reduced::sub_order(s@, stype@, a as int, b as int, true) == 0),
{
    if a == b {
        proof {
            reduced::lemma_sub_order_same(s@, stype@, a as int, true);
        }
        return true;
    }
    let n: usize = s.len();
    let mut first: bool = true;
    let mut i: usize = a;
    let mut j: usize = b;
    loop
        invariant
            reduced::typed(s@, stype@),
            n == s.len(),
            i < n,
            j < n,
            i != j,
            reduced::in_step(stype@, i as int, j as int, first),
            reduced::sub_order(s@, stype@, a as int, b as int, true) == reduced::sub_order(
                s@,
                stype@,
                i as int,
                j as int,
                first,
            ),
        decreases n - i,
    {
        if s[i] != s[j] || stype[i] != stype[j] {
            return false;
        }
        let i_lms = is_lms(stype, i);
        if !first && i_lms {
            return true;
        }
        first = false;
        i += 1;
        j += 1;
    }
}

/// S-type or L-type, for each position.
fn types(s: &[u32]) -> (stype: Vec<bool>)
    requires
        induced::sentinel_terminated(s@),
    ensures
        reduced::typed(s@, stype@),
{
    let n: usize = s.len();
    let mut stype: Vec<bool> = vec![false; n];
    stype.set(n - 1, true);
    let mut i: usize = n - 1;
    while i > 0
        invariant
            i < n,
            n == s.len(),
            stype.len() == n,
            stype[n - 1],
            forall|x: int|
                #![trigger stype[x]]
                i <= x < n - 1 ==> stype[x] == (s[x] < s[x + 1] || (s[x] == s[x + 1] && stype[x
                    + 1])),
        decreases i,
    {
        i -= 1;
        let b: bool = s[i] < s[i + 1] || (s[i] == s[i + 1] && stype[i + 1]);
        stype.set(i, b);
    }
    stype
}

/// The leftmost-S positions from left to right.
fn lms_positions(stype: &[bool]) -> (lp: Vec<usize>)
    ensures
        reduced::lms_ascending(stype@, lp@),
        stype.len() > 0 ==> lp.len() < stype.len(),
{
    let mut lp: Vec<usize> = Vec::new();
    let mut i: usize = 0;
    let ghost mut at: Map<int, int> = Map::empty();
    while i < stype.len()
        invariant
            i <= stype.len(),
            lp.len() <= i,
            i > 0 ==> lp.len() < i,
            forall|a: int| 0 <= a < lp.len() ==> induced::lms(stype@, #[trigger] lp[a] as int) && lp[a] < i,
            forall|a: int, b: int| 0 <= a < b < lp.len() ==> #[trigger] lp[a] < #[trigger] lp[b],
            forall|p: int| induced::lms(stype@, p) && p < i ==> 0 <= #[trigger] at[p] < lp.len() && lp[at[p]] == p,
        decreases stype.len() - i,
    {
        if is_lms(stype, i) {
            proof {
                at = at.insert(i as int, lp.len() as int);
            }
            lp.push(i);
        }
        i += 1;
    }
    proof {
        assert forall|p: int| induced::lms(stype@, p) implies exists|m: int|
            0 <= m < lp.len() && lp[m] == p by {
            assert(lp[at[p]] == p);
        }
    }
    lp
}

/// The leftmost-S positions in the order in which `sa` holds them.
fn lms_in_order(s: &[u32], stype: &[bool], sa: &Vec<i32>, Ghost(l): Ghost<Seq<usize>>) -> (ls: Vec<
    usize,
>)
    requires
        induced::sortable(s@, stype@, l),
        sa.len() == s.len(),
        forall|x: int| 0 <= x < s.len() ==> sa[#[trigger] induced::slot(s@, stype@, l, x)] == x,
    ensures
        induced::lists_lms(stype@, ls@),
        forall|a: int, b: int|
            0 <= a < b < ls.len() ==> #[trigger] induced::before(
                s@,
                stype@,
                l,
                ls[a] as int,
                ls[b] as int,
            ),
        ls.len() >= 1,
        ls[0] == s.len() - 1,
{
    let n: usize = s.len();
    let ghost sv = s@;
    let ghost t = stype@;
    let mut ls: Vec<usize> = Vec::new();
    let mut i: usize = 0;
    let ghost mut at: Map<int, int> = Map::empty();
    proof {
        induced::lemma_slot_sentinel(sv, t, l);
        assert forall|x: int| 0 <= x < n implies 0 <= #[trigger] induced::slot(sv, t, l, x)
            < n by {
            induced::lemma_slot_iff(sv, t, l, x, x);
        }
    }
    while i < n
        invariant
            n == s.len(),
            sv == s@,
            t == stype@,
            induced::sortable(sv, t, l),
            i <= n,
            sa.len() == n,
            forall|x: int| 0 <= x < n ==> sa[#[trigger] induced::slot(sv, t, l, x)] == x,
            forall|a: int|
                0 <= a < ls.len() ==> induced::lms(t, #[trigger] ls[a] as int) && induced::slot(
                    sv,
                    t,
                    l,
                    ls[a] as int,
                ) < i,
            forall|a: int, b: int|
                0 <= a < b < ls.len() ==> #[trigger] induced::before(
                    sv,
                    t,
                    l,
                    ls[a] as int,
                    ls[b] as int,
                ),
            forall|p: int|
                induced::lms(t, p) && induced::slot(sv, t, l, p) < i ==> 0 <= #[trigger] at[p]
                    < ls.len() && ls[at[p]] == p,
            induced::lms(t, n - 1),
            induced::slot(sv, t, l, n - 1) == 0,
            i == 0 ==> ls.len() == 0,
            i > 0 ==> ls.len() > 0 && ls[0] == n - 1,
        decreases n - i,
    {
        proof {
            let x = induced::lemma_slot_owner(sv, t, l, i as int);
            assert(sa[induced::slot(sv, t, l, x)] == x);
            if i == 0 {
                induced::lemma_slot_iff(sv, t, l, x, n - 1);
            }
        }
        let p: usize = sa[i] as usize;
        if is_lms(stype, p) {
            proof {
                assert forall|a: int| 0 <= a < ls.len() implies #[trigger] induced::before(
                    sv,
                    t,
                    l,
                    ls[a] as int,
                    p as int,
                ) by {
                    induced::lemma_slot_iff(sv, t, l, ls[a] as int, p as int);
                }
                at = at.insert(p as int, ls.len() as int);
            }
            ls.push(p);
        }
        proof {
            assert forall|q: int|
                induced::lms(t, q) && induced::slot(sv, t, l, q) < i + 1 implies 0
                <= #[trigger] at[q] < ls.len() && ls[at[q]] == q by {
                induced::lemma_slot_iff(sv, t, l, q, p as int);
            }
        }
        i += 1;
    }
    proof {
        assert forall|p: int| induced::lms(t, p) implies exists|m: int|
            0 <= m < ls.len() && ls[m] == p by {
            assert(induced::slot(sv, t, l, p) < n) by {
                induced::lemma_slot_iff(sv, t, l, p, p);
            }
            assert(ls[at[p]] == p);
        }
        assert forall|m: int, k: int| 0 <= m < k < ls.len() implies ls[m] != ls[k] by {
            assert(induced::before(sv, t, l, ls[m] as int, ls[k] as int));
            induced::lemma_irreflexive(sv, t, l, ls[m] as int);
        }
    }
    ls
}

/// The name of each position of `ls`: how many substrings before it differ from the one
/// before them.
fn name_substrings(
    s: &[u32],
    stype: &[bool],
    ls: &Vec<usize>,
    Ghost(l): Ghost<Seq<usize>>,
) -> (r: (Vec<i32>, i32))
    requires
        induced::sortable(s@, stype@, l),
        s.len() <= i32::MAX,
        induced::lists_lms(stype@, ls@),
        forall|a: int, b: int|
            0 <= a < b < ls.len() ==> #[trigger] induced::before(
                s@,
                stype@,
                l,
                ls[a] as int,
                ls[b] as int,
            ),
        1 <= ls.len() <= s.len(),
        ls[0] == s.len() - 1,
    ensures
        r.0.len() == s.len(),
        r.0[ls[0] as int] == 0,
        r.0[ls[ls.len() - 1] as int] == r.1,
        0 <= r.1 < ls.len(),
        forall|a: int| 0 <= a < ls.len() ==> 0 <= #[trigger] r.0[ls[a] as int] <= r.1,
        forall|a: int, b: int|
            0 <= a < b < ls.len() ==> (#[trigger] r.0[ls[a] as int] == #[trigger] r.0[ls[b] as int]
                ==> reduced::sub_order(s@, stype@, ls[a] as int, ls[b] as int, true) == 0),
        forall|a: int, b: int|
            0 <= a < b < ls.len() ==> (#[trigger] r.0[ls[a] as int] != #[trigger] r.0[ls[b] as int]
                ==> reduced::sub_order(s@, stype@, ls[a] as int, ls[b] as int, true) < 0),
        forall|a: int, b: int|
            0 <= a <= b < ls.len() ==> #[trigger] r.0[ls[a] as int] <= #[trigger] r.0[ls[b] as int]
                <= r.0[ls[a] as int] + (b - a),
{
    let n: usize = s.len();
    let ghost sv = s@;
    let ghost t = stype@;
    let mut names: Vec<i32> = vec![-1i32; n];
    let mut name: i32 = 0;
    names.set(ls[0], 0);
    proof {
        reduced::lemma_sub_order_same(sv, t, ls[0] as int, true);
    }
    let mut i: usize = 1;
    while i < ls.len()
        invariant
            n == s.len(),
            n <= i32::MAX,
            sv == s@,
            t == stype@,
            induced::sortable(sv, t, l),
            induced::lists_lms(t, ls@),
            forall|a: int, b: int|
                0 <= a < b < ls.len() ==> #[trigger] induced::before(
                    sv,
                    t,
                    l,
                    ls[a] as int,
                    ls[b] as int,
                ),
            1 <= i <= ls.len() <= n,
            names.len() == n,
            names[ls[i - 1] as int] == name,
            names[ls[0] as int] == 0,
            0 <= name < i,
            forall|a: int| 0 <= a < i ==> 0 <= #[trigger] names[ls[a] as int] <= name,
            forall|a: int, b: int|
                0 <= a < b < i ==> (#[trigger] names[ls[a] as int] == #[trigger] names[ls[b] as int]
                    ==> reduced::sub_order(sv, t, ls[a] as int, ls[b] as int, true) == 0),
            forall|a: int, b: int|
                0 <= a < b < i ==> (#[trigger] names[ls[a] as int] != #[trigger] names[ls[b] as int]
                    ==> reduced::sub_order(sv, t, ls[a] as int, ls[b] as int, true) < 0),
            forall|a: int, b: int|
                0 <= a <= b < i ==> #[trigger] names[ls[a] as int] <= #[trigger] names[ls[b] as int]
                    <= names[ls[a] as int] + (b - a),
        decreases ls.len() - i,
    {
        let p: usize = ls[i - 1];
        let q: usize = ls[i as usize];
        assert(induced::lms(t, p as int) && induced::lms(t, q as int));
        proof {
            assert(induced::before(sv, t, l, ls[i - 1] as int, ls[i as int] as int));
            reduced::lemma_before_sub(sv, t, l, p as int, q as int, true);
        }
        let ghost old_names = names@;
        if !lms_substr_eq(s, stype, p, q) {
            name += 1;
        }
        names.set(q, name);
        proof {
            assert forall|a: int| 0 <= a < i implies #[trigger] names[ls[a] as int]
                == old_names[ls[a] as int] by {
                assert(ls[a] != ls[i as int]);
            }
            assert forall|a: int| 0 <= a < i implies {
                let o = reduced::sub_order(sv, t, ls[a] as int, q as int, true);
                &&& #[trigger] names[ls[a] as int] == name ==> o == 0
                &&& names[ls[a] as int] != name ==> o < 0
            } by {
                assert(induced::lms(t, ls[a] as int));
                assert(induced::before(sv, t, l, ls[a] as int, ls[i as int] as int));
                reduced::lemma_before_sub(sv, t, l, ls[a] as int, q as int, true);
                assert(old_names[ls[a] as int] <= old_names[ls[i - 1] as int]);
                if a < i - 1 {
                    reduced::lemma_sub_order_trans(sv, t, ls[a] as int, p as int, q as int, true);
                }
            }
        }
        i += 1;
    }
    (names, name)
}

/// The reduced string: the names from left to right.
proof fn lemma_reduced(
    s: Seq<u32>,
    t: Seq<bool>,
    lp: Seq<usize>,
    ls: Seq<usize>,
    names: Seq<i32>,
    s1: Seq<u32>,
)
    requires
        reduced::typed(s, t),
        reduced::lms_ascending(t, lp),
        induced::lists_lms(t, ls),
        ls.len() >= 1,
        ls[0] == s.len() - 1,
        names.len() == s.len(),
        names[ls[0] as int] == 0,
        forall|a: int| 0 <= a < ls.len() ==> 0 <= #[trigger] names[ls[a] as int],
        forall|a: int, b: int|
            0 <= a < b < ls.len() ==> (#[trigger] names[ls[a] as int] == #[trigger] names[ls[b] as int]
                ==> reduced::sub_order(s, t, ls[a] as int, ls[b] as int, true) == 0),
        forall|a: int, b: int|
            0 <= a < b < ls.len() ==> (#[trigger] names[ls[a] as int] != #[trigger] names[ls[b] as int]
                ==> reduced::sub_order(s, t, ls[a] as int, ls[b] as int, true) < 0),
        forall|a: int, b: int|
            0 <= a <= b < ls.len() ==> #[trigger] names[ls[a] as int] <= #[trigger] names[ls[b] as int],
        s1.len() == lp.len(),
        forall|x: int| 0 <= x < lp.len() ==> #[trigger] s1[x] == names[lp[x] as int],
    ensures
        reduced::names_of(s, t, lp, s1),
        s1.len() >= 1,
        s1[s1.len() - 1] == 0,
        forall|x: int| 0 <= x < s1.len() - 1 ==> #[trigger] s1[x] > 0,
{
    assert forall|x: int| 0 <= x < lp.len() implies {
        let a = induced::place(ls, lp[x] as int);
        &&& 0 <= a < ls.len()
        &&& #[trigger] s1[x] == names[ls[a] as int]
        &&& ls[a] == lp[x]
    } by {
        assert(induced::lms(t, lp[x] as int));
        induced::lemma_place(t, ls, lp[x] as int);
    }
    assert forall|x: int, y: int| 0 <= x < lp.len() && 0 <= y < lp.len() implies {
        &&& #[trigger] s1[x] == #[trigger] s1[y] ==> reduced::sub_order(
            s,
            t,
            lp[x] as int,
            lp[y] as int,
            true,
        ) == 0
        &&& s1[x] < s1[y] ==> reduced::sub_order(s, t, lp[x] as int, lp[y] as int, true) < 0
    } by {
        let a = induced::place(ls, lp[x] as int);
        let b = induced::place(ls, lp[y] as int);
        assert(induced::lms(t, lp[x] as int));
        assert(induced::lms(t, lp[y] as int));
        assert(s1[x] == names[ls[a] as int] && s1[y] == names[ls[b] as int]);
        if a == b {
            reduced::lemma_sub_order_same(s, t, lp[x] as int, true);
        } else if a > b {
            assert(names[ls[b] as int] <= names[ls[a] as int]);
            if s1[x] == s1[y] {
                reduced::lemma_sub_order_flip(s, t, lp[x] as int, lp[y] as int, true);
            }
        }
    }
    reduced::lemma_last_lms(s, t, lp);
    let last = lp.len() - 1;
    assert(s1[last] == 0);
    assert forall|x: int| 0 <= x < s1.len() - 1 implies #[trigger] s1[x] > 0 by {
        if s1[x] == 0 {
            assert(s1[x] == s1[last]);
            assert(lp[x] < lp[last]);
            assert(induced::lms(t, lp[x] as int));
            assert(reduced::sub_order(s, t, lp[x] as int, lp[last] as int, true) == 0);
        }
    }
}

/// Suffix array of a sentinel-terminated string.
fn sais(s: &[u32], k: usize) -> (sa: Vec<i32>)
    requires
        induced::sentinel_terminated(s@),
        s.len() <= i32::MAX,
        forall|i: int| 0 <= i < s.len() ==> #[trigger] s[i] < k,
    ensures
        sa.len() == s.len(),
        forall|a: int| 0 <= a < sa.len() ==> 0 <= #[trigger] sa[a] < s.len(),
        forall|a: int, b: int|
            0 <= a < b < sa.len() ==> #[trigger] suffix::suffix_lt(s@, sa[a] as int, sa[b] as int),
    decreases s.len(),
{
    let stype = types(s);
    let lp = lms_positions(&stype);
    let ghost sv = s@;
    let ghost t = stype@;
    let sa = induce(s, &stype, k, &lp);
    let ls = lms_in_order(s, &stype, &sa, Ghost(lp@));
    proof {
        lemma_same_len(t, lp@, ls@);
    }
    let (names, name) = name_substrings(s, &stype, &ls, Ghost(lp@));
    let s1 = reduce(&lp, &names, Ghost(ls@), Ghost(t), name);
    let n1: usize = s1.len();
    proof {
        lemma_reduced(sv, t, lp@, ls@, names@, s1@);
    }
    let sa1: Vec<i32> = if name as usize + 1 == n1 {
        invert(&s1, &lp, &names, &ls, Ghost(t))
    } else {
        sais(&s1, name as usize + 1)
    };
    let mut ordered: Vec<usize> = Vec::new();
    let mut i: usize = 0;
    while i < n1
        invariant
            n1 == lp.len(),
            sa1.len() == n1,
            i <= n1,
            ordered.len() == i,
            forall|a: int| 0 <= a < n1 ==> 0 <= #[trigger] sa1[a] < n1,
            forall|a: int| 0 <= a < i ==> #[trigger] ordered[a] == lp[sa1[a] as int],
        decreases n1 - i,
    {
        ordered.push(lp[sa1[i] as usize]);
        i += 1;
    }
    proof {
        lemma_ordered(sv, t, lp@, s1@, sa1@, ordered@);
    }
    let sa = induce(s, &stype, k, &ordered);
    proof {
        let l = ordered@;
        assert forall|a: int| 0 <= a < sa.len() implies 0 <= #[trigger] sa[a] < s.len()
            && induced::slot(sv, t, l, sa[a] as int) == a by {
            let x = induced::lemma_slot_owner(sv, t, l, a);
            assert(sa[induced::slot(sv, t, l, x)] == x);
        }
        assert forall|a: int, b: int| 0 <= a < b < sa.len() implies #[trigger] suffix::suffix_lt(
            sv,
            sa[a] as int,
            sa[b] as int,
        ) by {
            assert(0 <= sa[a] < sv.len() && 0 <= sa[b] < sv.len());
            induced::lemma_slot_iff(sv, t, l, sa[a] as int, sa[b] as int);
            reduced::lemma_before_is_suffix(sv, t, l, sa[a] as int, sa[b] as int);
        }
    }
    sa
}

/// Two lists of the leftmost-S positions are equally long.
proof fn lemma_same_len(t: Seq<bool>, a: Seq<usize>, b: Seq<usize>)
    requires
        induced::lists_lms(t, a),
        induced::lists_lms(t, b),
    ensures
        a.len() == b.len(),
{
    lemma_no_longer(t, a, b);
    lemma_no_longer(t, b, a);
}

proof fn lemma_no_longer(t: Seq<bool>, a: Seq<usize>, b: Seq<usize>)
    requires
        induced::lists_lms(t, a),
        induced::lists_lms(t, b),
    ensures
        a.len() <= b.len(),
{
    if a.len() > b.len() {
        // The first positions of `a` fill `b`, so the next is among them again.
        let k = b.len() as int;
        let f = |i: int| induced::place(b, a[i] as int);
        assert forall|i: int| 0 <= i < k implies 0 <= #[trigger] f(i) < k by {
            assert(induced::lms(t, a[i] as int));
            induced::lemma_place(t, b, a[i] as int);
        }
        assert forall|i: int, j: int| 0 <= i < j < k implies #[trigger] f(i) != #[trigger] f(
            j,
        ) by {
            assert(induced::lms(t, a[i] as int) && induced::lms(t, a[j] as int));
            induced::lemma_place(t, b, a[i] as int);
            induced::lemma_place(t, b, a[j] as int);
        }
        assert(induced::lms(t, a[k] as int));
        induced::lemma_place(t, b, a[k] as int);
        let i = count::lemma_injective_onto(f, k, induced::place(b, a[k] as int));
        assert(induced::lms(t, a[i] as int));
        induced::lemma_place(t, b, a[i] as int);
    }
}

/// Spells the names from left to right.
fn reduce(
    lp: &Vec<usize>,
    names: &Vec<i32>,
    Ghost(ls): Ghost<Seq<usize>>,
    Ghost(t): Ghost<Seq<bool>>,
    name: i32,
) -> (s1: Vec<u32>)
    requires
        induced::lists_lms(t, lp@),
        induced::lists_lms(t, ls),
        names.len() == t.len(),
        forall|a: int| 0 <= a < ls.len() ==> 0 <= #[trigger] names[ls[a] as int] <= name,
    ensures
        s1.len() == lp.len(),
        forall|x: int| 0 <= x < lp.len() ==> #[trigger] s1[x] == names[lp[x] as int],
        forall|x: int| 0 <= x < lp.len() ==> #[trigger] s1[x] <= name,
{
    let mut s1: Vec<u32> = Vec::new();
    let mut i: usize = 0;
    while i < lp.len()
        invariant
            induced::lists_lms(t, lp@),
            induced::lists_lms(t, ls),
            names.len() == t.len(),
            forall|a: int| 0 <= a < ls.len() ==> 0 <= #[trigger] names[ls[a] as int] <= name,
            i <= lp.len(),
            s1.len() == i,
            forall|x: int| 0 <= x < i ==> #[trigger] s1[x] == names[lp[x] as int],
            forall|x: int| 0 <= x < i ==> #[trigger] s1[x] <= name,
        decreases lp.len() - i,
    {
        proof {
            assert(induced::lms(t, lp[i as int] as int));
            induced::lemma_place(t, ls, lp[i as int] as int);
            assert(0 <= names[ls[induced::place(ls, lp[i as int] as int)] as int]);
        }
        s1.push(names[lp[i]] as u32);
        i += 1;
    }
    s1
}

/// Suffix array of a string without a repeated symbol: the inverse of the string.
fn invert(
    s1: &Vec<u32>,
    lp: &Vec<usize>,
    names: &Vec<i32>,
    ls: &Vec<usize>,
    Ghost(t): Ghost<Seq<bool>>,
) -> (sa1: Vec<i32>)
    requires
        induced::lists_lms(t, lp@),
        induced::lists_lms(t, ls@),
        lp.len() == ls.len(),
        s1.len() == lp.len(),
        1 <= s1.len() <= i32::MAX,
        names.len() == t.len(),
        forall|x: int| 0 <= x < lp.len() ==> #[trigger] s1[x] == names[lp[x] as int],
        names[ls[0] as int] == 0,
        names[ls[ls.len() - 1] as int] == ls.len() - 1,
        forall|a: int, b: int|
            0 <= a <= b < ls.len() ==> #[trigger] names[ls[a] as int] <= #[trigger] names[ls[b] as int]
                <= names[ls[a] as int] + (b - a),
    ensures
        sa1.len() == s1.len(),
        forall|a: int| 0 <= a < sa1.len() ==> 0 <= #[trigger] sa1[a] < s1.len(),
        forall|a: int, b: int|
            0 <= a < b < sa1.len() ==> #[trigger] suffix::suffix_lt(
                s1@,
                sa1[a] as int,
                sa1[b] as int,
            ),
{
    let n1: usize = s1.len();
    proof {
        assert forall|a: int| 0 <= a < ls.len() implies #[trigger] names[ls[a] as int] == a by {
            assert(names[ls[0] as int] <= names[ls[a] as int]);
            assert(names[ls[a] as int] <= names[ls[ls.len() - 1] as int]);
        }
        assert forall|x: int| 0 <= x < n1 implies #[trigger] s1[x] == induced::place(
            ls@,
            lp[x] as int,
        ) && s1[x] < n1 by {
            assert(induced::lms(t, lp[x] as int));
            induced::lemma_place(t, ls@, lp[x] as int);
        }
        assert forall|x: int, y: int| 0 <= x < y < n1 implies #[trigger] s1[x] != #[trigger] s1[
            y] by {
            assert(induced::lms(t, lp[x] as int) && induced::lms(t, lp[y] as int));
            induced::lemma_place(t, ls@, lp[x] as int);
            induced::lemma_place(t, ls@, lp[y] as int);
        }
    }
    let mut sa1: Vec<i32> = vec![0i32; n1];
    let mut i: usize = 0;
    while i < n1
        invariant
            n1 == s1.len(),
            n1 <= i32::MAX,
            sa1.len() == n1,
            i <= n1,
            forall|x: int| 0 <= x < n1 ==> #[trigger] s1[x] < n1,
            forall|x: int, y: int| 0 <= x < y < n1 ==> #[trigger] s1[x] != #[trigger] s1[y],
            forall|x: int| 0 <= x < i ==> sa1[#[trigger] s1[x] as int] == x,
        decreases n1 - i,
    {
        sa1.set(s1[i] as usize, i as i32);
        i += 1;
    }
    proof {
        assert forall|a: int| 0 <= a < n1 implies 0 <= #[trigger] sa1[a] < n1 && s1[sa1[a] as int]
            == a by {
            assert(induced::lms(t, ls[a] as int));
            induced::lemma_place(t, lp@, ls[a] as int);
            let x = induced::place(lp@, ls[a] as int);
            induced::lemma_place_of(t, ls@, a);
            assert(s1[x] == a);
        }
        assert forall|a: int, b: int| 0 <= a < b < n1 implies #[trigger] suffix::suffix_lt(
            s1@,
            sa1[a] as int,
            sa1[b] as int,
        ) by {
            assert(s1[sa1[a] as int] == a && s1[sa1[b] as int] == b);
        }
    }
    sa1
}

/// The suffix array of the reduced string puts the leftmost-S positions in suffix order.
proof fn lemma_ordered(
    s: Seq<u32>,
    t: Seq<bool>,
    lp: Seq<usize>,
    s1: Seq<u32>,
    sa1: Seq<i32>,
    l: Seq<usize>,
)
    requires
        reduced::typed(s, t),
        reduced::lms_ascending(t, lp),
        reduced::names_of(s, t, lp, s1),
        sa1.len() == s1.len(),
        forall|a: int| 0 <= a < sa1.len() ==> 0 <= #[trigger] sa1[a] < s1.len(),
        forall|a: int, b: int|
            0 <= a < b < sa1.len() ==> #[trigger] suffix::suffix_lt(
                s1,
                sa1[a] as int,
                sa1[b] as int,
            ),
        l.len() == sa1.len(),
        forall|a: int| 0 <= a < l.len() ==> #[trigger] l[a] == lp[sa1[a] as int],
    ensures
        induced::sortable(s, t, l),
        forall|a: int, b: int|
            0 <= a < b < l.len() ==> #[trigger] suffix::suffix_lt(s, l[a] as int, l[b] as int),
{
    let n1 = s1.len() as int;
    assert forall|a: int, b: int| 0 <= a < b < n1 implies sa1[a] != sa1[b] && suffix::suffix_lt(
        s,
        #[trigger] l[a] as int,
        #[trigger] l[b] as int,
    ) by {
        assert(suffix::suffix_lt(s1, sa1[a] as int, sa1[b] as int));
        suffix::lemma_suffix_irreflexive(s1, sa1[a] as int);
        reduced::lemma_reduced_order(s, t, lp, s1, sa1[a] as int, sa1[b] as int);
    }
    let f = |a: int| sa1[a] as int;
    assert forall|a: int, b: int| 0 <= a < b < n1 implies #[trigger] f(a) != #[trigger] f(b) by {
        assert(suffix::suffix_lt(s, l[a] as int, l[b] as int));
        assert(sa1[a] != sa1[b]);
    }
    assert forall|m: int| 0 <= m < l.len() implies induced::lms(t, #[trigger] l[m] as int) by {
        assert(induced::lms(t, lp[sa1[m] as int] as int));
    }
    assert forall|m: int, k: int| 0 <= m < k < l.len() implies l[m] != l[k] by {
        suffix::lemma_suffix_irreflexive(s, l[m] as int);
    }
    assert forall|p: int| induced::lms(t, p) implies exists|m: int|
        0 <= m < l.len() && l[m] == p by {
        induced::lemma_place(t, lp, p);
        let a = count::lemma_injective_onto(f, n1, induced::place(lp, p));
        assert(l[a] == p);
    }
}

proof fn lemma_sums_bounds(s: Seq<u32>, cnt: Seq<i32>)
    requires
        forall|y: int|
            0 <= y < cnt.len() ==> #[trigger] cnt[y] == count::count(
                induced::with(s, y),
                s.len() as int,
            ),
    ensures
        forall|x: int| 0 <= x < cnt.len() ==> #[trigger] cnt[x] >= 0,
        sum_to(cnt, cnt.len() as int) <= s.len(),
{
    assert forall|x: int| 0 <= x < cnt.len() implies #[trigger] cnt[x] >= 0 by {
        count::lemma_count_bounds(induced::with(s, x), s.len() as int);
    }
    lemma_sums(s, cnt, cnt.len() as int);
    induced::lemma_bucket_bounds(s, cnt.len() as int);
}

/// Raising keeps symbols apart and in order, but for the largest one.
pub proof fn law_raising_keeps_the_order(text: Seq<u32>, i: int, j: int)
    requires
        0 <= i < text.len(),
        0 <= j < text.len(),
        text[i] < u32::MAX,
        text[j] < u32::MAX,
    ensures
        raised(text)[i] > 0,
        raised(text)[i] < raised(text)[j] <==> text[i] < text[j],
{
}

} // verus!
