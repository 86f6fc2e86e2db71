//! Stable sorting by an integer key.
use crate::count;
use vstd::prelude::*;

verus! {

/// Index `i` comes before index `j`: by key, then by index.
pub open spec fn goes_before(keys: Seq<i64>, i: int, j: int) -> bool {
    keys[i] < keys[j] || (keys[i] == keys[j] && i < j)
}

/// `r` lists the indices from `lo` up to `hi`, in order of key and then of index.
pub open spec fn sorted_indices(keys: Seq<i64>, r: Seq<usize>, lo: int, hi: int) -> bool {
    &&& r.len() == hi - lo
    &&& forall|a: int| 0 <= a < r.len() ==> lo <= #[trigger] r[a] < hi
    &&& forall|a: int, b: int|
        0 <= a < b < r.len() ==> goes_before(keys, #[trigger] r[a] as int, #[trigger] r[b] as int)
}

/// The list holds every index.
pub proof fn lemma_sorted_onto(keys: Seq<i64>, r: Seq<usize>, x: int) -> (a: int)
    requires
        sorted_indices(keys, r, 0, keys.len() as int),
        0 <= x < keys.len(),
    ensures
        0 <= a < r.len(),
        r[a] == x,
{
    let f = |a: int| r[a] as int;
    assert forall|a: int, b: int| 0 <= a < b < r.len() implies #[trigger] f(a) != #[trigger] f(
        b,
    ) by {
        assert(goes_before(keys, r[a] as int, r[b] as int));
    }
    count::lemma_injective_onto(f, r.len() as int, x)
}

fn merge_sorted(keys: &Vec<i64>, a: &Vec<usize>, b: &Vec<usize>, Ghost(lo): Ghost<int>, Ghost(mid): Ghost<int>, Ghost(hi): Ghost<int>) -> (r: Vec<usize>)
    requires
        0 <= lo <= mid <= hi <= keys.len(),
        sorted_indices(keys@, a@, lo, mid),
        sorted_indices(keys@, b@, mid, hi),
    ensures
        sorted_indices(keys@, r@, lo, hi),
{
    let mut r: Vec<usize> = Vec::new();
    let mut i: usize = 0;
    let mut j: usize = 0;
    while i < a.len() || j < b.len()
        invariant
            0 <= lo <= mid <= hi <= keys.len(),
            sorted_indices(keys@, a@, lo, mid),
            sorted_indices(keys@, b@, mid, hi),
            i <= a.len(),
            j <= b.len(),
            r.len() == i + j,
            forall|x: int| 0 <= x < r.len() ==> lo <= #[trigger] r[x] < hi,
            forall|x: int, y: int|
                0 <= x < y < r.len() ==> goes_before(
                    keys@,
                    #[trigger] r[x] as int,
                    #[trigger] r[y] as int,
                ),
            forall|x: int, y: int|
                0 <= x < r.len() && i <= y < a.len() ==> goes_before(
                    keys@,
                    #[trigger] r[x] as int,
                    #[trigger] a[y] as int,
                ),
            forall|x: int, y: int|
                0 <= x < r.len() && j <= y < b.len() ==> goes_before(
                    keys@,
                    #[trigger] r[x] as int,
                    #[trigger] b[y] as int,
                ),
        decreases a.len() - i + b.len() - j,
    {
        let take_a: bool = if i >= a.len() {
            false
        } else if j >= b.len() {
            true
        } else {
            keys[a[i]] <= keys[b[j]]
        };
        if take_a {
            r.push(a[i]);
            i += 1;
        } else {
            r.push(b[j]);
            j += 1;
        }
    }
    r
}

fn sort_range(keys: &Vec<i64>, lo: usize, hi: usize) -> (r: Vec<usize>)
    requires
        lo <= hi <= keys.len(),
    ensures
        sorted_indices(keys@, r@, lo as int, hi as int),
    decreases hi - lo,
{
    if hi - lo == 0 {
        return Vec::new();
    }
    if hi - lo == 1 {
        return vec![lo];
    }
    let mid: usize = lo + (hi - lo) / 2;
    let a = sort_range(keys, lo, mid);
    let b = sort_range(keys, mid, hi);
    merge_sorted(keys, &a, &b, Ghost(lo as int), Ghost(mid as int), Ghost(hi as int))
}

/// The indices of `keys` in ascending order of key; equal keys keep their order.
pub fn sort_indices(keys: &Vec<i64>) -> (r: Vec<usize>)
    ensures
        sorted_indices(keys@, r@, 0, keys.len() as int),
{
    sort_range(keys, 0, keys.len())
}

/// Every index is listed once, small keys first, and of equal keys the one that came first.
pub proof fn law_small_keys_come_first(keys: Seq<i64>, r: Seq<usize>, a: int, b: int, x: usize)
    requires
        sorted_indices(keys, r, 0, keys.len() as int),
        0 <= a < b < r.len(),
        x < keys.len(),
    ensures
        keys[r[a] as int] <= keys[r[b] as int],
        keys[r[a] as int] == keys[r[b] as int] ==> r[a] < r[b],
        r[a] != r[b],
        r.contains(x),
{
    assert(goes_before(keys, r[a] as int, r[b] as int));
    let i = lemma_sorted_onto(keys, r, x as int);
    assert(r[i] == x);
}

} // verus!
