//! The order that induced sorting produces.
//!
//! A sentinel-terminated string is sorted in two sweeps from a list of its
//! leftmost-S positions. The first sweep orders the L-type positions (and the
//! listed ones) by `before_l`, the second orders every position by `before`.
use crate::count;
use vstd::prelude::*;

verus! {

/// A string whose last symbol is 0 and occurs nowhere else in it.
pub open spec fn sentinel_terminated(s: Seq<u32>) -> bool {
    &&& s.len() >= 2
    &&& s[s.len() - 1] == 0
    &&& forall|i: int| 0 <= i < s.len() - 1 ==> #[trigger] s[i] > 0
}

/// `t[i]` says that the suffix at `i` is smaller than the one after it (S-type).
pub open spec fn types_of(s: Seq<u32>, t: Seq<bool>) -> bool {
    &&& t.len() == s.len()
    &&& t[s.len() - 1]
    &&& forall|i: int|
        #![trigger t[i]]
        0 <= i < s.len() - 1 ==> t[i] == (s[i] < s[i + 1] || (s[i] == s[i + 1] && t[i + 1]))
}

/// A leftmost-S position: S-type behind an L-type.
pub open spec fn lms(t: Seq<bool>, i: int) -> bool {
    0 < i < t.len() && t[i] && !t[i - 1]
}

/// The list holds every leftmost-S position once.
pub open spec fn lists_lms(t: Seq<bool>, l: Seq<usize>) -> bool {
    &&& forall|m: int| 0 <= m < l.len() ==> lms(t, #[trigger] l[m] as int)
    &&& forall|m: int, k: int| 0 <= m < k < l.len() ==> l[m] != l[k]
    &&& forall|p: int| lms(t, p) ==> exists|m: int| 0 <= m < l.len() && l[m] == p
}

/// Place of a position in the list.
pub open spec fn place(l: Seq<usize>, p: int) -> int {
    choose|m: int| 0 <= m < l.len() && l[m] == p
}

pub proof fn lemma_place(t: Seq<bool>, l: Seq<usize>, p: int)
    requires
        lists_lms(t, l),
        lms(t, p),
    ensures
        0 <= place(l, p) < l.len(),
        l[place(l, p)] == p,
{
    assert(exists|m: int| 0 <= m < l.len() && l[m] == p);
}

pub proof fn lemma_place_of(t: Seq<bool>, l: Seq<usize>, m: int)
    requires
        lists_lms(t, l),
        0 <= m < l.len(),
    ensures
        place(l, l[m] as int) == m,
{
    lemma_place(t, l, l[m] as int);
}

/// Order of the first sweep, on L-type and leftmost-S positions.
pub open spec fn before_l(s: Seq<u32>, t: Seq<bool>, l: Seq<usize>, i: int, j: int) -> bool
    decreases s.len() - i,
{
    if i < 0 || j < 0 || i >= s.len() || j >= s.len() {
        false
    } else if s[i] != s[j] {
        s[i] < s[j]
    } else if t[i] != t[j] {
        !t[i]
    } else if t[i] {
        place(l, i) < place(l, j)
    } else {
        before_l(s, t, l, i + 1, j + 1)
    }
}

/// Order of the second sweep, on all positions.
pub open spec fn before(s: Seq<u32>, t: Seq<bool>, l: Seq<usize>, i: int, j: int) -> bool
    decreases s.len() - i,
{
    if i < 0 || j < 0 || i >= s.len() || j >= s.len() {
        false
    } else if s[i] != s[j] {
        s[i] < s[j]
    } else if t[i] != t[j] {
        !t[i]
    } else if !t[i] {
        before_l(s, t, l, i, j)
    } else {
        before(s, t, l, i + 1, j + 1)
    }
}

/// What both sweeps start from.
pub open spec fn sortable(s: Seq<u32>, t: Seq<bool>, l: Seq<usize>) -> bool {
    &&& sentinel_terminated(s)
    &&& types_of(s, t)
    &&& lists_lms(t, l)
}

/// The positions that the first sweep handles.
pub open spec fn swept(t: Seq<bool>, i: int) -> bool {
    0 <= i < t.len() && (!t[i] || lms(t, i))
}

proof fn lemma_succ_swept(s: Seq<u32>, t: Seq<bool>, i: int)
    requires
        sentinel_terminated(s),
        types_of(s, t),
        0 <= i < s.len(),
        !t[i],
    ensures
        i + 1 < s.len(),
        swept(t, i + 1),
{
}

pub proof fn lemma_l_total(s: Seq<u32>, t: Seq<bool>, l: Seq<usize>, i: int, j: int)
    requires
        sortable(s, t, l),
        swept(t, i),
        swept(t, j),
        i != j,
    ensures
        before_l(s, t, l, i, j) != before_l(s, t, l, j, i),
    decreases s.len() - i,
{
    if s[i] == s[j] && t[i] == t[j] {
        if t[i] {
            lemma_place(t, l, i);
            lemma_place(t, l, j);
        } else {
            lemma_succ_swept(s, t, i);
            lemma_succ_swept(s, t, j);
            lemma_l_total(s, t, l, i + 1, j + 1);
        }
    }
}

pub proof fn lemma_l_irreflexive(s: Seq<u32>, t: Seq<bool>, l: Seq<usize>, i: int)
    requires
        sortable(s, t, l),
        swept(t, i),
    ensures
        !before_l(s, t, l, i, i),
    decreases s.len() - i,
{
    if !t[i] {
        lemma_succ_swept(s, t, i);
        lemma_l_irreflexive(s, t, l, i + 1);
    }
}

pub proof fn lemma_l_trans(s: Seq<u32>, t: Seq<bool>, l: Seq<usize>, i: int, j: int, k: int)
    requires
        sortable(s, t, l),
        swept(t, i),
        swept(t, j),
        swept(t, k),
        before_l(s, t, l, i, j),
        before_l(s, t, l, j, k),
    ensures
        before_l(s, t, l, i, k),
    decreases s.len() - i,
{
    if s[i] == s[j] && s[j] == s[k] && t[i] == t[j] && t[j] == t[k] && !t[i] {
        lemma_succ_swept(s, t, i);
        lemma_succ_swept(s, t, j);
        lemma_succ_swept(s, t, k);
        lemma_l_trans(s, t, l, i + 1, j + 1, k + 1);
    }
}

pub proof fn lemma_total(s: Seq<u32>, t: Seq<bool>, l: Seq<usize>, i: int, j: int)
    requires
        sortable(s, t, l),
        0 <= i < s.len(),
        0 <= j < s.len(),
        i != j,
    ensures
        before(s, t, l, i, j) != before(s, t, l, j, i),
    decreases s.len() - i,
{
    if s[i] == s[j] && t[i] == t[j] {
        if t[i] {
            assert(i != s.len() - 1 && j != s.len() - 1);
            lemma_total(s, t, l, i + 1, j + 1);
        } else {
            lemma_l_total(s, t, l, i, j);
        }
    }
}

pub proof fn lemma_irreflexive(s: Seq<u32>, t: Seq<bool>, l: Seq<usize>, i: int)
    requires
        sortable(s, t, l),
        0 <= i < s.len(),
    ensures
        !before(s, t, l, i, i),
    decreases s.len() - i,
{
    if t[i] {
        if i + 1 < s.len() {
            lemma_irreflexive(s, t, l, i + 1);
        }
    } else {
        lemma_l_irreflexive(s, t, l, i);
    }
}

pub proof fn lemma_trans(s: Seq<u32>, t: Seq<bool>, l: Seq<usize>, i: int, j: int, k: int)
    requires
        sortable(s, t, l),
        0 <= i < s.len(),
        0 <= j < s.len(),
        0 <= k < s.len(),
        before(s, t, l, i, j),
        before(s, t, l, j, k),
    ensures
        before(s, t, l, i, k),
    decreases s.len() - i,
{
    if s[i] == s[j] && s[j] == s[k] && t[i] == t[j] && t[j] == t[k] {
        if t[i] {
            reveal_with_fuel(before, 2);
            assert(i + 1 < s.len() && j + 1 < s.len());
            if k + 1 < s.len() {
                lemma_trans(s, t, l, i + 1, j + 1, k + 1);
            }
        } else {
            lemma_l_trans(s, t, l, i, j, k);
        }
    }
}

/// An L-type position comes behind its successor.
pub proof fn lemma_l_after_succ(s: Seq<u32>, t: Seq<bool>, l: Seq<usize>, i: int)
    requires
        sortable(s, t, l),
        0 <= i < s.len(),
        !t[i],
    ensures
        before_l(s, t, l, i + 1, i),
    decreases s.len() - i,
{
    lemma_succ_swept(s, t, i);
    assert(t[i] == (s[i] < s[i + 1] || (s[i] == s[i + 1] && t[i + 1])));
    if s[i] == s[i + 1] {
        lemma_l_after_succ(s, t, l, i + 1);
    }
}

/// An S-type position comes ahead of its successor.
pub proof fn lemma_s_before_succ(s: Seq<u32>, t: Seq<bool>, l: Seq<usize>, i: int)
    requires
        sortable(s, t, l),
        0 <= i < s.len() - 1,
        t[i],
    ensures
        before(s, t, l, i, i + 1),
    decreases s.len() - i,
{
    assert(t[i] == (s[i] < s[i + 1] || (s[i] == s[i + 1] && t[i + 1])));
    if s[i] == s[i + 1] {
        assert(i + 1 != s.len() - 1);
        lemma_s_before_succ(s, t, l, i + 1);
    }
}

/// Positions with a symbol below `c`.
pub open spec fn below(s: Seq<u32>, c: int) -> spec_fn(int) -> bool {
    |y: int| s[y] < c
}

/// Positions with a symbol up to `c`.
pub open spec fn upto(s: Seq<u32>, c: int) -> spec_fn(int) -> bool {
    |y: int| s[y] <= c
}

/// Positions with the symbol `c`.
pub open spec fn with(s: Seq<u32>, c: int) -> spec_fn(int) -> bool {
    |y: int| s[y] == c
}

/// L-type positions with the symbol `c`.
pub open spec fn l_with(s: Seq<u32>, t: Seq<bool>, c: int) -> spec_fn(int) -> bool {
    |y: int| !t[y] && s[y] == c
}

/// S-type positions with the symbol `c`.
pub open spec fn s_with(s: Seq<u32>, t: Seq<bool>, c: int) -> spec_fn(int) -> bool {
    |y: int| t[y] && s[y] == c
}

/// L-type positions of the bucket of `x` that come before it.
pub open spec fn l_ahead(s: Seq<u32>, t: Seq<bool>, l: Seq<usize>, x: int) -> spec_fn(int) -> bool {
    |y: int| !t[y] && s[y] == s[x] && before_l(s, t, l, y, x)
}

/// Leftmost-S positions with the symbol `c` whose place is at least `m`.
pub open spec fn lms_from(
    s: Seq<u32>,
    t: Seq<bool>,
    l: Seq<usize>,
    c: int,
    m: int,
) -> spec_fn(int) -> bool {
    |y: int| lms(t, y) && s[y] == c && place(l, y) >= m
}

/// S-type positions of the bucket of `x` that come after it.
pub open spec fn s_behind(
    s: Seq<u32>,
    t: Seq<bool>,
    l: Seq<usize>,
    x: int,
) -> spec_fn(int) -> bool {
    |y: int| t[y] && s[y] == s[x] && before(s, t, l, x, y)
}

/// Positions that come before `x`.
pub open spec fn ahead(s: Seq<u32>, t: Seq<bool>, l: Seq<usize>, x: int) -> spec_fn(int) -> bool {
    |y: int| before(s, t, l, y, x)
}

/// Number of symbols below `c`: where the bucket of `c` starts.
pub open spec fn bucket_start(s: Seq<u32>, c: int) -> int {
    count::count(below(s, c), s.len() as int)
}

/// Number of symbols up to `c`: where the bucket of `c` ends.
pub open spec fn bucket_end(s: Seq<u32>, c: int) -> int {
    count::count(upto(s, c), s.len() as int)
}

/// Where the L-type part of the bucket of `c` ends.
pub open spec fn bucket_mid(s: Seq<u32>, t: Seq<bool>, c: int) -> int {
    bucket_start(s, c) + count::count(l_with(s, t, c), s.len() as int)
}

/// Slot of a position after the first sweep.
pub open spec fn slot_l(s: Seq<u32>, t: Seq<bool>, l: Seq<usize>, x: int) -> int {
    if t[x] {
        bucket_end(s, s[x] as int) - count::count(
            lms_from(s, t, l, s[x] as int, place(l, x)),
            s.len() as int,
        )
    } else {
        bucket_start(s, s[x] as int) + count::count(l_ahead(s, t, l, x), s.len() as int)
    }
}

/// Slot of a position after the second sweep: how many come before it.
pub open spec fn slot(s: Seq<u32>, t: Seq<bool>, l: Seq<usize>, x: int) -> int {
    count::count(ahead(s, t, l, x), s.len() as int)
}

pub proof fn lemma_bucket_bounds(s: Seq<u32>, c: int)
    ensures
        0 <= bucket_start(s, c) <= bucket_end(s, c) <= s.len(),
{
    let n = s.len() as int;
    count::lemma_count_bounds(below(s, c), n);
    count::lemma_count_bounds(upto(s, c), n);
    count::lemma_count_le(below(s, c), upto(s, c), n);
}

pub proof fn lemma_bucket_mono(s: Seq<u32>, c: int, d: int)
    requires
        c < d,
    ensures
        bucket_end(s, c) <= bucket_start(s, d),
{
    count::lemma_count_le(upto(s, c), below(s, d), s.len() as int);
}

/// A bucket holds its L-type positions and its S-type positions.
pub proof fn lemma_bucket_split(s: Seq<u32>, t: Seq<bool>, c: int)
    ensures
        bucket_end(s, c) == bucket_mid(s, t, c) + count::count(s_with(s, t, c), s.len() as int),
        bucket_start(s, c) <= bucket_mid(s, t, c) <= bucket_end(s, c),
{
    let n = s.len() as int;
    count::lemma_count_split(upto(s, c), below(s, c), with(s, c), n);
    count::lemma_count_split(with(s, c), l_with(s, t, c), s_with(s, t, c), n);
    count::lemma_count_bounds(l_with(s, t, c), n);
    count::lemma_count_bounds(s_with(s, t, c), n);
}

/// The slots of the first sweep lie in their buckets, L-type ones ahead of listed ones.
pub proof fn lemma_slot_l_range(s: Seq<u32>, t: Seq<bool>, l: Seq<usize>, x: int)
    requires
        sortable(s, t, l),
        swept(t, x),
    ensures
        bucket_start(s, s[x] as int) <= slot_l(s, t, l, x) < bucket_end(s, s[x] as int),
        !t[x] ==> slot_l(s, t, l, x) < bucket_mid(s, t, s[x] as int),
        t[x] ==> slot_l(s, t, l, x) >= bucket_mid(s, t, s[x] as int),
{
    let n = s.len() as int;
    let c = s[x] as int;
    lemma_bucket_split(s, t, c);
    if t[x] {
        let m = place(l, x);
        let pm = lms_from(s, t, l, c, m);
        count::lemma_count_le(pm, s_with(s, t, c), n);
        let none = |y: int| false;
        count::lemma_count_zero(none, n);
        count::lemma_count_lt(none, pm, n, x);
    } else {
        count::lemma_count_bounds(l_ahead(s, t, l, x), n);
        lemma_l_irreflexive(s, t, l, x);
        count::lemma_count_lt(l_ahead(s, t, l, x), l_with(s, t, c), n, x);
    }
}

/// The first sweep's slots follow the first sweep's order.
pub proof fn lemma_slot_l_order(s: Seq<u32>, t: Seq<bool>, l: Seq<usize>, x: int, y: int)
    requires
        sortable(s, t, l),
        swept(t, x),
        swept(t, y),
        before_l(s, t, l, x, y),
    ensures
        slot_l(s, t, l, x) < slot_l(s, t, l, y),
{
    let n = s.len() as int;
    lemma_slot_l_range(s, t, l, x);
    lemma_slot_l_range(s, t, l, y);
    if s[x] != s[y] {
        lemma_bucket_mono(s, s[x] as int, s[y] as int);
    } else if t[x] == t[y] {
        let c = s[x] as int;
        if t[x] {
            let px = lms_from(s, t, l, c, place(l, x));
            let py = lms_from(s, t, l, c, place(l, y));
            count::lemma_count_lt(py, px, n, x);
        } else {
            let px = l_ahead(s, t, l, x);
            let py = l_ahead(s, t, l, y);
            assert forall|z: int| 0 <= z < n && #[trigger] px(z) implies py(z) by {
                lemma_l_trans(s, t, l, z, x, y);
            }
            assert forall|z: int| 0 <= z < n && px(z) implies #[trigger] py(z) by {
                assert(px(z));
            }
            lemma_l_irreflexive(s, t, l, x);
            count::lemma_count_lt(px, py, n, x);
        }
    }
}

/// Different positions have different slots in the first sweep, ordered as the positions are.
pub proof fn lemma_slot_l_iff(s: Seq<u32>, t: Seq<bool>, l: Seq<usize>, x: int, y: int)
    requires
        sortable(s, t, l),
        swept(t, x),
        swept(t, y),
    ensures
        slot_l(s, t, l, x) < slot_l(s, t, l, y) <==> before_l(s, t, l, x, y),
        slot_l(s, t, l, x) == slot_l(s, t, l, y) <==> x == y,
{
    if x == y {
        lemma_l_irreflexive(s, t, l, x);
    } else {
        lemma_l_total(s, t, l, x, y);
        if before_l(s, t, l, x, y) {
            lemma_slot_l_order(s, t, l, x, y);
        } else {
            lemma_slot_l_order(s, t, l, y, x);
        }
    }
}

proof fn lemma_ahead_grows(s: Seq<u32>, t: Seq<bool>, l: Seq<usize>, x: int, y: int)
    requires
        sortable(s, t, l),
        0 <= x < s.len(),
        0 <= y < s.len(),
        before(s, t, l, x, y),
    ensures
        slot(s, t, l, x) < slot(s, t, l, y),
{
    let n = s.len() as int;
    let px = ahead(s, t, l, x);
    let py = ahead(s, t, l, y);
    assert forall|z: int| 0 <= z < n && #[trigger] px(z) implies py(z) by {
        lemma_trans(s, t, l, z, x, y);
    }
    assert forall|z: int| 0 <= z < n && px(z) implies #[trigger] py(z) by {
        assert(px(z));
    }
    lemma_irreflexive(s, t, l, x);
    count::lemma_count_lt(px, py, n, x);
}

/// The second sweep's slots follow the second sweep's order.
pub proof fn lemma_slot_iff(s: Seq<u32>, t: Seq<bool>, l: Seq<usize>, x: int, y: int)
    requires
        sortable(s, t, l),
        0 <= x < s.len(),
        0 <= y < s.len(),
    ensures
        0 <= slot(s, t, l, x) < s.len(),
        slot(s, t, l, x) < slot(s, t, l, y) <==> before(s, t, l, x, y),
        slot(s, t, l, x) == slot(s, t, l, y) <==> x == y,
{
    let n = s.len() as int;
    let px = ahead(s, t, l, x);
    let all = |z: int| true;
    count::lemma_count_bounds(px, n);
    lemma_irreflexive(s, t, l, x);
    count::lemma_count_lt(px, all, n, x);
    count::lemma_count_all(all, n);
    if x != y {
        lemma_total(s, t, l, x, y);
        if before(s, t, l, x, y) {
            lemma_ahead_grows(s, t, l, x, y);
        } else {
            lemma_ahead_grows(s, t, l, y, x);
        }
    }
}

/// Where an L-type position stands after the first sweep it stands after the second.
pub proof fn lemma_slot_of_l(s: Seq<u32>, t: Seq<bool>, l: Seq<usize>, x: int)
    requires
        sortable(s, t, l),
        0 <= x < s.len(),
        !t[x],
    ensures
        slot(s, t, l, x) == slot_l(s, t, l, x),
{
    count::lemma_count_split(
        ahead(s, t, l, x),
        below(s, s[x] as int),
        l_ahead(s, t, l, x),
        s.len() as int,
    );
}

/// An S-type position stands before the end of its bucket by the number of S-type positions
/// there that come after it, and one.
pub proof fn lemma_slot_of_s(s: Seq<u32>, t: Seq<bool>, l: Seq<usize>, x: int)
    requires
        sortable(s, t, l),
        0 <= x < s.len(),
        t[x],
    ensures
        slot(s, t, l, x) == bucket_end(s, s[x] as int) - count::count(
            s_behind(s, t, l, x),
            s.len() as int,
        ) - 1,
        bucket_mid(s, t, s[x] as int) <= slot(s, t, l, x) < bucket_end(s, s[x] as int),
{
    let n = s.len() as int;
    let c = s[x] as int;
    let less = |y: int| t[y] && s[y] == c && before(s, t, l, y, x);
    let more = s_behind(s, t, l, x);
    let rest = |y: int| t[y] && s[y] == c && (before(s, t, l, x, y) || y == x);
    lemma_irreflexive(s, t, l, x);
    count::lemma_count_add(more, rest, n, x);
    let ps = s_with(s, t, c);
    assert forall|y: int|
        #![trigger ps(y)]
        #![trigger less(y)]
        #![trigger rest(y)]
        0 <= y < n implies (ps(y) == (less(y) || rest(y))) && !(less(y) && rest(y)) by {
        if y != x {
            lemma_total(s, t, l, x, y);
        }
    }
    count::lemma_count_split(ps, less, rest, n);
    let lowl = |y: int| s[y] < c || (s[y] == c && !t[y]);
    count::lemma_count_split(lowl, below(s, c), l_with(s, t, c), n);
    count::lemma_count_split(ahead(s, t, l, x), lowl, less, n);
    lemma_bucket_split(s, t, c);
    count::lemma_count_bounds(less, n);
    count::lemma_count_bounds(more, n);
}

/// L-type positions with the symbol `c` whose successor's slot is below `i`.
pub open spec fn l_seen(
    s: Seq<u32>,
    t: Seq<bool>,
    l: Seq<usize>,
    c: int,
    i: int,
) -> spec_fn(int) -> bool {
    |y: int| !t[y] && s[y] == c && slot_l(s, t, l, y + 1) < i
}

/// The first sweep meets `j` at slot `i` and puts it behind those of its bucket met before.
pub proof fn lemma_l_seen_step(
    s: Seq<u32>,
    t: Seq<bool>,
    l: Seq<usize>,
    c: int,
    i: int,
    j: int,
)
    requires
        sortable(s, t, l),
        0 <= j < s.len(),
        !t[j],
        slot_l(s, t, l, j + 1) == i,
    ensures
        count::count(l_seen(s, t, l, c, i + 1), s.len() as int) == count::count(
            l_seen(s, t, l, c, i),
            s.len() as int,
        ) + (if s[j] == c {
            1int
        } else {
            0
        }),
        s[j] == c ==> slot_l(s, t, l, j) == bucket_start(s, c) + count::count(
            l_seen(s, t, l, c, i),
            s.len() as int,
        ),
{
    let n = s.len() as int;
    let p = l_seen(s, t, l, c, i);
    let q = l_seen(s, t, l, c, i + 1);
    lemma_succ_swept(s, t, j);
    assert forall|y: int|
        #![trigger p(y)]
        #![trigger q(y)]
        0 <= y < n implies q(y) == (p(y) || (y == j && s[j] == c)) by {
        if !t[y] {
            lemma_succ_swept(s, t, y);
            lemma_slot_l_iff(s, t, l, y + 1, j + 1);
        }
    }
    if s[j] == c {
        count::lemma_count_add(p, q, n, j);
        let r = l_ahead(s, t, l, j);
        assert forall|y: int|
            #![trigger p(y)]
            #![trigger r(y)]
            0 <= y < n implies p(y) == r(y) by {
            if !t[y] && s[y] == c {
                lemma_succ_swept(s, t, y);
                lemma_slot_l_iff(s, t, l, y + 1, j + 1);
            }
        }
        count::lemma_count_eq(p, r, n);
    } else {
        count::lemma_count_eq(p, q, n);
    }
}

/// A slot that is not that of an L-type position's successor adds nothing.
pub proof fn lemma_l_seen_skip(s: Seq<u32>, t: Seq<bool>, l: Seq<usize>, c: int, i: int)
    requires
        sortable(s, t, l),
        forall|j: int| 0 <= j < s.len() && !t[j] ==> #[trigger] slot_l(s, t, l, j + 1) != i,
    ensures
        count::count(l_seen(s, t, l, c, i + 1), s.len() as int) == count::count(
            l_seen(s, t, l, c, i),
            s.len() as int,
        ),
{
    count::lemma_count_eq(l_seen(s, t, l, c, i + 1), l_seen(s, t, l, c, i), s.len() as int);
}

/// S-type positions with the symbol `c`, but for the last, whose successor's slot is at
/// least `i`.
pub open spec fn s_seen(
    s: Seq<u32>,
    t: Seq<bool>,
    l: Seq<usize>,
    c: int,
    i: int,
) -> spec_fn(int) -> bool {
    |y: int| t[y] && s[y] == c && y != s.len() - 1 && slot(s, t, l, y + 1) >= i
}

/// The second sweep meets `j` at slot `i` and puts it before those of its bucket met earlier.
pub proof fn lemma_s_seen_step(
    s: Seq<u32>,
    t: Seq<bool>,
    l: Seq<usize>,
    c: int,
    i: int,
    j: int,
)
    requires
        sortable(s, t, l),
        0 <= j < s.len() - 1,
        t[j],
        slot(s, t, l, j + 1) == i,
    ensures
        count::count(s_seen(s, t, l, c, i), s.len() as int) == count::count(
            s_seen(s, t, l, c, i + 1),
            s.len() as int,
        ) + (if s[j] == c {
            1int
        } else {
            0
        }),
        s[j] == c ==> slot(s, t, l, j) == bucket_end(s, c) - count::count(
            s_seen(s, t, l, c, i + 1),
            s.len() as int,
        ) - 1,
{
    let n = s.len() as int;
    let p = s_seen(s, t, l, c, i + 1);
    let q = s_seen(s, t, l, c, i);
    assert forall|y: int|
        #![trigger p(y)]
        #![trigger q(y)]
        0 <= y < n implies q(y) == (p(y) || (y == j && s[j] == c)) by {
        if y < n - 1 {
            lemma_slot_iff(s, t, l, y + 1, j + 1);
        }
    }
    if s[j] == c {
        count::lemma_count_add(p, q, n, j);
        lemma_slot_of_s(s, t, l, j);
        let r = s_behind(s, t, l, j);
        assert forall|y: int|
            #![trigger p(y)]
            #![trigger r(y)]
            0 <= y < n implies p(y) == r(y) by {
            if t[y] && s[y] == c {
                assert(y != n - 1);
                lemma_slot_iff(s, t, l, j + 1, y + 1);
            }
        }
        count::lemma_count_eq(p, r, n);
    } else {
        count::lemma_count_eq(p, q, n);
    }
}

/// A slot that is not that of an S-type position's successor adds nothing.
pub proof fn lemma_s_seen_skip(s: Seq<u32>, t: Seq<bool>, l: Seq<usize>, c: int, i: int)
    requires
        sortable(s, t, l),
        forall|j: int| 0 <= j < s.len() - 1 && t[j] ==> #[trigger] slot(s, t, l, j + 1) != i,
    ensures
        count::count(s_seen(s, t, l, c, i), s.len() as int) == count::count(
            s_seen(s, t, l, c, i + 1),
            s.len() as int,
        ),
{
    count::lemma_count_eq(s_seen(s, t, l, c, i), s_seen(s, t, l, c, i + 1), s.len() as int);
}

/// Every slot is some position's.
pub proof fn lemma_slot_owner(s: Seq<u32>, t: Seq<bool>, l: Seq<usize>, i: int) -> (x: int)
    requires
        sortable(s, t, l),
        0 <= i < s.len(),
    ensures
        0 <= x < s.len(),
        slot(s, t, l, x) == i,
{
    let f = |y: int| slot(s, t, l, y);
    let n = s.len() as int;
    assert forall|y: int| 0 <= y < n implies 0 <= #[trigger] f(y) < n by {
        lemma_slot_iff(s, t, l, y, y);
    }
    assert forall|y: int, z: int| 0 <= y < z < n implies #[trigger] f(y) != #[trigger] f(z) by {
        lemma_slot_iff(s, t, l, y, z);
    }
    count::lemma_injective_onto(f, n, i)
}

/// The sentinel stands first.
pub proof fn lemma_slot_sentinel(s: Seq<u32>, t: Seq<bool>, l: Seq<usize>)
    requires
        sortable(s, t, l),
    ensures
        slot(s, t, l, s.len() - 1) == 0,
        lms(t, s.len() - 1) && slot_l(s, t, l, s.len() - 1) == 0,
{
    let n = s.len() as int;
    lemma_irreflexive(s, t, l, n - 1);
    let p = ahead(s, t, l, n - 1);
    count::lemma_count_zero(p, n);
    assert(!t[n - 2]);
    let q = lms_from(s, t, l, 0, place(l, n - 1));
    let none = |y: int| false;
    count::lemma_count_zero(none, n);
    count::lemma_count_add(none, q, n, n - 1);
    count::lemma_count_add(none, upto(s, 0), n, n - 1);
}

} // verus!
