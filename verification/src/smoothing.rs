//! How raw next-token counts become a distribution: the counts, classes and supports that the
//! interpolation is made of. The interpolation itself is floating-point arithmetic of the host.
use crate::fx;
use crate::ids::TokenId;
use crate::params::SmoothingKind;
use vstd::prelude::*;

verus! {

/// Maximum-likelihood with Witten-Bell interpolation against the backoff
/// distribution: the weight of what was counted is `N/(N+T)`, where T is the number of unique
/// continuations. More unique continuations, more backoff.
#[derive(Debug, Clone, Copy)]
pub struct NaiveBackoff;

/// Interpolated absolute-discounting (Kneser-Ney shaped), with the bit pattern of its discount.
#[derive(Debug, Clone, Copy)]
pub struct KneserNey {
    pub discount: u64,
}

/// The weight of what was counted, as numerator and denominator.
pub open spec fn weight_of(total: int, n1plus: int) -> (int, int) {
    (
        total,
        total + (if n1plus == 0 {
            1
        } else {
            n1plus
        }),
    )
}

impl NaiveBackoff {
    pub fn name(&self) -> (r: &'static str)
        ensures
            r@ == "naive"@,
    {
        "naive"
    }

    /// The weight of what was counted, as numerator and denominator.
    pub fn weight(&self, total: u32, n1plus: u32) -> (r: (u64, u64))
        ensures
            (r.0 as int, r.1 as int) == weight_of(total as int, n1plus as int),
            r.1 > 0,
            r.0 < r.1,
    {
        let t: u64 = if n1plus == 0 {
            1
        } else {
            n1plus as u64
        };
        (total as u64, total as u64 + t)
    }
}

impl KneserNey {
    pub fn name(&self) -> (r: &'static str)
        ensures
            r@ == "kn"@,
    {
        "kn"
    }
}

/// The name of a kind of smoothing.
pub fn kind_name(kind: SmoothingKind) -> (r: &'static str)
    ensures
        r@ == (match kind {
            SmoothingKind::Naive => "naive"@,
            SmoothingKind::Kn => "kn"@,
        }),
{
    match kind {
        SmoothingKind::Naive => "naive",
        SmoothingKind::Kn => "kn",
    }
}

/// The tokens of a table.
pub open spec fn tokens_of(table: Seq<(u32, u32)>) -> Seq<u32> {
    table.map_values(|e: (u32, u32)| e.0)
}

/// The tokens of a list that another does not hold.
pub open spec fn beyond(xs: Seq<u32>, seen: Seq<u32>) -> Seq<u32>
    decreases xs.len(),
{
    if xs.len() == 0 {
        Seq::empty()
    } else if seen.contains(xs.last()) {
        beyond(xs.drop_last(), seen)
    } else {
        beyond(xs.drop_last(), seen).push(xs.last())
    }
}

/// What an interpolated distribution speaks of: first what was counted, then what only the
/// backoff knows.
pub fn support(local: &Vec<(TokenId, u32)>, backoff: &Vec<TokenId>) -> (r: Vec<TokenId>)
    ensures
        r@ == tokens_of(local@) + beyond(backoff@, tokens_of(local@)),
{
    let ghost mine = tokens_of(local@);
    let mut seen = fx::new_ids();
    let mut r: Vec<TokenId> = Vec::new();
    let mut i: usize = 0;
    while i < local.len()
        invariant
            i <= local.len(),
            mine == tokens_of(local@),
            r@ == mine.take(i as int),
            forall|t: u32| #[trigger]
                seen@.contains(t) <==> exists|k: int| 0 <= k < i && #[trigger] mine[k] == t,
        decreases local.len() - i,
    {
        let id: TokenId = local[i].0;
        let _ = fx::add_id(&mut seen, id);
        r.push(id);
        proof {
            assert(mine[i as int] == id);
            assert(mine.take(i + 1) =~= mine.take(i as int).push(id));
        }
        i += 1;
    }
    proof {
        assert(mine.take(i as int) =~= mine);
        assert forall|t: u32| #[trigger] seen@.contains(t) <==> mine.contains(t) by {
            if mine.contains(t) {
                let k = choose|k: int| 0 <= k < mine.len() && mine[k] == t;
                assert(mine[k] == t);
            }
        }
        assert(mine + beyond(backoff@.take(0), mine) =~= mine);
    }
    let mut j: usize = 0;
    while j < backoff.len()
        invariant
            j <= backoff.len(),
            r@ == mine + beyond(backoff@.take(j as int), mine),
            forall|t: u32| #[trigger] seen@.contains(t) <==> mine.contains(t),
        decreases backoff.len() - j,
    {
        proof {
            assert(backoff@.take(j + 1).drop_last() =~= backoff@.take(j as int));
        }
        if !fx::has_id(&seen, backoff[j]) {
            r.push(backoff[j]);
            proof {
                assert(r@ =~= mine + beyond(backoff@.take(j + 1), mine));
            }
        }
        j += 1;
    }
    proof {
        assert(backoff@.take(j as int) =~= backoff@);
    }
    r
}

/// Which of the discounts a count takes: none, the first, the second or the third.
pub open spec fn class_of_count(c: u32) -> int {
    if c >= 3 {
        3
    } else {
        c as int
    }
}

/// Which of the discounts a count takes.
pub fn discount_class(c: u32) -> (r: usize)
    ensures
        r == class_of_count(c),
{
    if c >= 3 {
        3
    } else {
        c as usize
    }
}

/// How many entries of a table are of a class.
pub open spec fn in_class(table: Seq<(u32, u32)>, class: int) -> int
    decreases table.len(),
{
    if table.len() == 0 {
        0
    } else {
        in_class(table.drop_last(), class) + (if class_of_count(table.last().1) == class {
            1int
        } else {
            0
        })
    }
}

/// How many entries were counted once, twice, and more often.
pub fn count_classes(table: &Vec<(TokenId, u32)>) -> (r: (usize, usize, usize))
    ensures
        r.0 == in_class(table@, 1),
        r.1 == in_class(table@, 2),
        r.2 == in_class(table@, 3),
{
    let mut n1: usize = 0;
    let mut n2: usize = 0;
    let mut n3: usize = 0;
    let mut i: usize = 0;
    while i < table.len()
        invariant
            i <= table.len(),
            n1 == in_class(table@.take(i as int), 1),
            n2 == in_class(table@.take(i as int), 2),
            n3 == in_class(table@.take(i as int), 3),
            n1 + n2 + n3 <= i,
        decreases table.len() - i,
    {
        proof {
            assert(table@.take(i + 1).drop_last() =~= table@.take(i as int));
        }
        let c: usize = discount_class(table[i].1);
        if c == 1 {
            n1 += 1;
        } else if c == 2 {
            n2 += 1;
        } else if c == 3 {
            n3 += 1;
        }
        i += 1;
    }
    proof {
        assert(table@.take(i as int) =~= table@);
    }
    (n1, n2, n3)
}

/// With more unique continuations, less weight stays with what was counted: the weights,
/// compared as fractions, fall. (One continuation weighs like none.)
pub proof fn law_more_types_more_backoff(total: u32, few: u32, many: u32)
    requires
        0 < total,
        few < many,
        2 <= many,
    ensures
        ({
            let a = weight_of(total as int, few as int);
            let b = weight_of(total as int, many as int);
            b.0 * a.1 < a.0 * b.1
        }),
{
    let a = weight_of(total as int, few as int);
    let b = weight_of(total as int, many as int);
    assert(total * a.1 < total * b.1) by (nonlinear_arith)
        requires
            0 < total,
            a.1 < b.1,
    ;
}

/// Counts of one and of two have a discount each, all larger ones share the third; what was
/// not counted has none of them.
pub proof fn law_counts_have_their_discount(c: u32, table: Seq<(u32, u32)>)
    ensures
        class_of_count(0) == 0,
        class_of_count(1) == 1,
        class_of_count(2) == 2,
        c > 2 ==> class_of_count(c) == 3,
        in_class(table, 1) == table.filter(|e: (u32, u32)| e.1 == 1).len(),
        in_class(table, 2) == table.filter(|e: (u32, u32)| e.1 == 2).len(),
        in_class(table, 3) == table.filter(|e: (u32, u32)| e.1 >= 3).len(),
    decreases table.len(),
{
    reveal(Seq::filter);
    if table.len() > 0 {
        law_counts_have_their_discount(c, table.drop_last());
    }
}

/// What only the backoff knows is what was not counted, in its order.
pub proof fn law_the_backoff_adds_what_is_missing(xs: Seq<u32>, seen: Seq<u32>)
    ensures
        beyond(xs, seen) == xs.filter(|x: u32| !seen.contains(x)),
    decreases xs.len(),
{
    reveal(Seq::filter);
    if xs.len() > 0 {
        law_the_backoff_adds_what_is_missing(xs.drop_last(), seen);
    }
    assert(beyond(xs, seen) =~= xs.filter(|x: u32| !seen.contains(x)));
}

/// What was counted weighs as much as its count against the number of its continuations, one at
/// least.
pub proof fn law_weights_are_counts_against_types(total: int, n1plus: int)
    requires
        0 <= total,
        0 <= n1plus,
    ensures
        weight_of(total, n1plus).0 == total,
        weight_of(total, 0).1 == total + 1,
        n1plus >= 1 ==> weight_of(total, n1plus).1 == total + n1plus,
{
}

} // verus!
