//! Deterministic sampling primitives over a raw ChaCha8 stream.
//!
//! The reply-sequence contract is the raw stream plus the functions below.
//! Outside crates' distribution code is no part of it: uniform-sampling
//! implementations are not value-stable across major versions.
use rand_chacha::ChaCha8Rng;
use rand_core::Rng;
use rand_core::SeedableRng;
use vstd::prelude::*;

verus! {

/// Number of 32-bit words after which the stream repeats.
pub const PERIOD: u128 = 0x10_0000_0000_0000_0000;

/// The 64 bits that the ChaCha8 stream of a seed holds at a word position.
pub uninterp spec fn chacha8_u64_at(seed: u64, pos: u128) -> u64;

/// `ChaCha8Rng::seed_from_u64`, `set_word_pos` and `next_u64`: the two words of the seed's
/// stream at the position. What they are is the cipher's business; here they have a name.
#[verifier::external_body]
fn draw_at(seed: u64, pos: u128) -> (r: u64)
    ensures
        r == chacha8_u64_at(seed, pos),
{
    let mut rng = ChaCha8Rng::seed_from_u64(seed);
    rng.set_word_pos(pos);
    rng.next_u64()
}

/// A place in a seed's stream.
#[derive(Clone, Copy)]
pub struct Stream {
    pub seed: u64,
    /// Word position, below `PERIOD`.
    pub pos: u128,
}

/// The position behind `k` draws.
pub open spec fn after(pos: u128, k: int) -> u128 {
    ((pos + 2 * k) % (PERIOD as int)) as u128
}

/// The `k`-th draw from here on.
pub open spec fn nth_draw(s: Stream, k: int) -> u64 {
    chacha8_u64_at(s.seed, after(s.pos, k))
}

/// The integer below `n` that a draw stands for, or nothing where it is rejected: the high
/// half of the product with `n`, unless the low half is below `2^64 mod n`.
#[verifier::opaque]
pub open spec fn draw_below(draw: u64, n: int) -> Option<int> {
    let m = draw * n;
    if m % 0x1_0000_0000_0000_0000 < 0x1_0000_0000_0000_0000int % n {
        None
    } else {
        Some(m / 0x1_0000_0000_0000_0000)
    }
}

/// Widening multiply with rejection (Lemire 2019), for one draw.
pub fn accept(draw: u64, n: u64) -> (r: Option<u64>)
    requires
        n > 0,
    ensures
        match r {
            Some(v) => draw_below(draw, n as int) == Some(v as int) && v < n,
            None => draw_below(draw, n as int) is None,
        },
{
    let two64: u128 = 0x1_0000_0000_0000_0000;
    proof {
        reveal(draw_below);
        assert(draw * n <= 0xffff_ffff_ffff_ffff * 0xffff_ffff_ffff_ffff) by (nonlinear_arith)
            requires
                draw <= 0xffff_ffff_ffff_ffff,
                n <= 0xffff_ffff_ffff_ffff,
        ;
        assert((draw * n) / 0x1_0000_0000_0000_0000 < n) by (nonlinear_arith)
            requires
                draw < 0x1_0000_0000_0000_0000,
                n > 0,
        ;
    }
    let m: u128 = draw as u128 * n as u128;
    let lo: u128 = m % two64;
    let t: u128 = two64 % (n as u128);
    if lo < t {
        None
    } else {
        Some((m / two64) as u64)
    }
}

impl Stream {
    pub open spec fn wf(&self) -> bool {
        self.pos < PERIOD
    }

    /// The start of a seed's stream.
    pub fn new(seed: u64) -> (r: Self)
        ensures
            r.seed == seed,
            r.pos == 0,
            r.wf(),
    {
        Stream { seed, pos: 0 }
    }

    /// The stream at a saved position.
    pub fn at(seed: u64, pos: u128) -> (r: Self)
        ensures
            r.seed == seed,
            r.pos == pos as int % PERIOD as int,
            r.wf(),
    {
        Stream { seed, pos: pos % PERIOD }
    }

    /// One raw draw.
    pub fn next_u64(&mut self) -> (r: u64)
        requires
            old(self).wf(),
        ensures
            r == nth_draw(*old(self), 0),
            final(self).seed == old(self).seed,
            final(self).pos == after(old(self).pos, 1),
            final(self).wf(),
    {
        let r: u64 = draw_at(self.seed, self.pos);
        self.pos = (self.pos + 2) % PERIOD;
        r
    }

    /// The top 53 bits of one draw: a standard-uniform number in [0, 1) in units of 2^-53.
    pub fn rand_53(&mut self) -> (r: u64)
        requires
            old(self).wf(),
        ensures
            r == nth_draw(*old(self), 0) / 2048,
            final(self).seed == old(self).seed,
            final(self).pos == after(old(self).pos, 1),
            final(self).wf(),
    {
        self.next_u64() / 2048
    }

    /// Uniform integer in [0, n). One draw in the common case; `n <= 1` returns 0 without
    /// consuming the stream. Where a whole period holds no draw that `n` accepts, 0.
    pub fn rand_below(&mut self, n: usize) -> (r: usize)
        requires
            old(self).wf(),
        ensures
            final(self).seed == old(self).seed,
            final(self).wf(),
            n <= 1 ==> r == 0 && final(self).pos == old(self).pos,
            n > 1 ==> r < n,
            n > 1 ==> below_from(*old(self), n as int, r as int, final(self).pos),
            (r as int, final(self).pos) == drawn(*old(self), n as int),
    {
        let ghost start = *self;
        let r: usize = if n <= 1 {
            0
        } else {
            self.first_accepted(n)
        };
        proof {
            let d = (r as int, self.pos);
            assert(draws_below(start, n as int, d.0, d.1));
            let e = drawn(start, n as int);
            if n > 1 {
                law_draws_repeat(start, n as int, d.0, d.1, e.0, e.1);
            }
        }
        r
    }

    /// The first accepted draw.
    fn first_accepted(&mut self, n: usize) -> (r: usize)
        requires
            old(self).wf(),
            n > 1,
        ensures
            final(self).seed == old(self).seed,
            final(self).wf(),
            r < n,
            below_from(*old(self), n as int, r as int, final(self).pos),
    {
        let ghost start = *self;
        let mut k: u128 = 0;
        while k < PERIOD
            invariant
                k <= PERIOD,
                n > 1,
                self.wf(),
                start.wf(),
                start == *old(self),
                self.seed == start.seed,
                self.pos == after(start.pos, k as int),
                forall|j: int| 0 <= j < k ==> draw_below(#[trigger] nth_draw(start, j), n as int) is None,
            decreases PERIOD - k,
        {
            let d: u64 = self.next_u64();
            proof {
                lemma_after(start.pos, k as int, 1);
                lemma_after(start.pos, k as int, 0);
            }
            match accept(d, n as u64) {
                Some(v) => {
                    proof {
                        assert(draw_below(nth_draw(start, k as int), n as int) == Some(v as int));
                    }
                    return v as usize;
                },
                None => {},
            }
            k += 1;
        }
        0
    }
}

/// `r` is what the first accepted draw from `s` on stands for, and `pos` the position behind
/// it; without an accepted draw in a whole period, 0 and the position behind that period.
pub open spec fn below_from(s: Stream, n: int, r: int, pos: u128) -> bool {
    ||| exists|k: int|
        {
            &&& 0 <= k < PERIOD
            &&& draw_below(#[trigger] nth_draw(s, k), n) == Some(r)
            &&& forall|j: int| 0 <= j < k ==> draw_below(#[trigger] nth_draw(s, j), n) is None
            &&& pos == after(s.pos, k + 1)
        }
    ||| {
        &&& forall|j: int| 0 <= j < PERIOD ==> draw_below(#[trigger] nth_draw(s, j), n) is None
        &&& r == 0
        &&& pos == after(s.pos, PERIOD as int)
    }
}

/// What a draw below `n` gives, and where it leaves the stream.
pub open spec fn drawn(s: Stream, n: int) -> (int, u128) {
    choose|d: (int, u128)| #[trigger] draws_below(s, n, d.0, d.1)
}

/// The 53-bit roll at the head of a stream.
pub open spec fn roll_of(s: Stream) -> int {
    nth_draw(s, 0) as int / 2048
}

/// The stream at another position.
pub open spec fn moved(s: Stream, pos: u128) -> Stream {
    Stream { seed: s.seed, pos }
}

/// A draw below `n` gives `r` and leaves the stream at `pos`; below two there is nothing to draw.
pub open spec fn draws_below(s: Stream, n: int, r: int, pos: u128) -> bool {
    if n <= 1 {
        r == 0 && pos == s.pos
    } else {
        below_from(s, n, r, pos)
    }
}

proof fn lemma_after(pos: u128, k: int, j: int)
    requires
        0 <= k,
        0 <= j,
    ensures
        after(after(pos, k), j) == after(pos, k + j),
        after(pos, k) < PERIOD,
{
    let p = PERIOD as int;
    vstd::arithmetic::div_mod::lemma_mod_bound(pos + 2 * k, p);
    vstd::arithmetic::div_mod::lemma_mod_bound(pos + 2 * (k + j), p);
    vstd::arithmetic::div_mod::lemma_add_mod_noop(pos + 2 * k, 2 * j, p);
    vstd::arithmetic::div_mod::lemma_add_mod_noop((pos + 2 * k) % p, 2 * j, p);
    vstd::arithmetic::div_mod::lemma_mod_twice(pos + 2 * k, p);
}

/// What a draw below `n` comes to, and where it leaves the stream, is fixed by the stream's
/// place and `n`.
pub proof fn law_draws_repeat(s: Stream, n: int, r1: int, pos1: u128, r2: int, pos2: u128)
    requires
        below_from(s, n, r1, pos1),
        below_from(s, n, r2, pos2),
    ensures
        r1 == r2,
        pos1 == pos2,
{
    if exists|k: int| 0 <= k < PERIOD && #[trigger] draw_below(nth_draw(s, k), n) is Some {
        let k1 = choose|k: int|
            {
                &&& 0 <= k < PERIOD
                &&& draw_below(#[trigger] nth_draw(s, k), n) == Some(r1)
                &&& forall|j: int|
                    0 <= j < k ==> draw_below(#[trigger] nth_draw(s, j), n) is None
                &&& pos1 == after(s.pos, k + 1)
            };
        let k2 = choose|k: int|
            {
                &&& 0 <= k < PERIOD
                &&& draw_below(#[trigger] nth_draw(s, k), n) == Some(r2)
                &&& forall|j: int|
                    0 <= j < k ==> draw_below(#[trigger] nth_draw(s, j), n) is None
                &&& pos2 == after(s.pos, k + 1)
            };
        if k1 < k2 {
            assert(draw_below(nth_draw(s, k1), n) is None);
        } else if k2 < k1 {
            assert(draw_below(nth_draw(s, k2), n) is None);
        }
    }
}

/// Up to `k` draws either all miss, or there is a first that is accepted.
proof fn lemma_first_accepted(s: Stream, n: int, k: int)
    requires
        0 <= k,
    ensures
        (forall|j: int| 0 <= j < k ==> draw_below(#[trigger] nth_draw(s, j), n) is None) || exists|
            i: int,
        |
            {
                &&& 0 <= i < k
                &&& draw_below(#[trigger] nth_draw(s, i), n) is Some
                &&& forall|j: int|
                    0 <= j < i ==> draw_below(#[trigger] nth_draw(s, j), n) is None
            },
    decreases k,
{
    if k > 0 {
        lemma_first_accepted(s, n, k - 1);
        if draw_below(nth_draw(s, k - 1), n) is Some {
            assert(draw_below(nth_draw(s, k - 1), n) is Some);
        }
    }
}

/// There is something that a draw comes to.
proof fn lemma_draw_comes(s: Stream, n: int) -> (d: (int, u128))
    requires
        1 < n,
    ensures
        below_from(s, n, d.0, d.1),
{
    lemma_first_accepted(s, n, PERIOD as int);
    if forall|j: int| 0 <= j < PERIOD ==> draw_below(#[trigger] nth_draw(s, j), n) is None {
        (0, after(s.pos, PERIOD as int))
    } else {
        let i = choose|i: int|
            {
                &&& 0 <= i < PERIOD
                &&& draw_below(#[trigger] nth_draw(s, i), n) is Some
                &&& forall|j: int|
                    0 <= j < i ==> draw_below(#[trigger] nth_draw(s, j), n) is None
            };
        (draw_below(nth_draw(s, i), n)->0, after(s.pos, i + 1))
    }
}

proof fn lemma_draw_range(s: Stream, n: int, r: int, pos: u128)
    requires
        1 < n,
        below_from(s, n, r, pos),
    ensures
        0 <= r < n,
{
    if exists|k: int| 0 <= k < PERIOD && #[trigger] draw_below(nth_draw(s, k), n) is Some {
        let k = choose|k: int|
            {
                &&& 0 <= k < PERIOD
                &&& draw_below(#[trigger] nth_draw(s, k), n) == Some(r)
                &&& forall|j: int|
                    0 <= j < k ==> draw_below(#[trigger] nth_draw(s, j), n) is None
                &&& pos == after(s.pos, k + 1)
            };
        lemma_accepted_range(nth_draw(s, k), n);
    }
}

/// A draw below a positive number stays below it.
pub proof fn law_draws_stay_below(s: Stream, n: int)
    requires
        0 < n,
    ensures
        0 <= drawn(s, n).0 < n,
        draws_below(s, n, drawn(s, n).0, drawn(s, n).1),
{
    let d: (int, u128) = if n == 1 {
        (0, s.pos)
    } else {
        lemma_draw_comes(s, n)
    };
    assert(draws_below(s, n, d.0, d.1));
    let e = drawn(s, n);
    if n > 1 {
        lemma_draw_range(s, n, e.0, e.1);
    }
}

/// What an accepted draw stands for.
proof fn lemma_accepted_range(draw: u64, n: int)
    requires
        0 < n,
    ensures
        draw_below(draw, n) matches Some(v) ==> 0 <= v < n,
{
    reveal(draw_below);
    let m = draw * n;
    assert(0 <= m / 0x1_0000_0000_0000_0000 < n) by (nonlinear_arith)
        requires
            m == draw * n,
            0 <= draw < 0x1_0000_0000_0000_0000,
            n > 0,
    ;
}

/// A roll is a number of 53 bits.
pub proof fn lemma_rolls(s: Stream)
    ensures
        0 <= roll_of(s) < 0x20_0000_0000_0000,
{
}

/// A draw moves the stream by two words, round and round.
pub proof fn law_draws_move_by_two_words(pos: u128, k: int)
    requires
        pos < PERIOD,
        0 <= k,
    ensures
        pos + 2 * k < PERIOD ==> after(pos, k) == pos + 2 * k,
        pos + 2 * k >= PERIOD && pos + 2 * k < 2 * PERIOD as int ==> after(pos, k) == pos + 2 * k
            - PERIOD,
        after(pos, 0) == pos,
{
    let p = PERIOD as int;
    if pos + 2 * k < p {
        vstd::arithmetic::div_mod::lemma_small_mod((pos + 2 * k) as nat, p as nat);
    } else if pos + 2 * k < 2 * p {
        vstd::arithmetic::div_mod::lemma_small_mod((pos + 2 * k - p) as nat, p as nat);
        vstd::arithmetic::div_mod::lemma_mod_add_multiples_vanish(pos + 2 * k - p, p);
    }
    vstd::arithmetic::div_mod::lemma_small_mod(pos as nat, p as nat);
}

/// Draws below a bound are fair: every number below it stands for equally many draws, which
/// follow one another.
pub proof fn law_draws_are_fair(n: int, r: int) -> (start: int)
    requires
        0 < n <= 0x1_0000_0000_0000_0000,
        0 <= r < n,
    ensures
        0 <= start,
        start + 0x1_0000_0000_0000_0000int / n <= 0x1_0000_0000_0000_0000,
        forall|d: u64| (#[trigger] draw_below(d, n)) == Some(r) <==> start <= d < start
            + 0x1_0000_0000_0000_0000int / n,
{
    reveal(draw_below);
    let w = 0x1_0000_0000_0000_0000int;
    let q = w / n;
    let t = w % n;
    vstd::arithmetic::div_mod::lemma_fundamental_div_mod(w, n);
    vstd::arithmetic::div_mod::lemma_mod_bound(w, n);
    let low = r * w + t;
    let start = (low + n - 1) / n;
    vstd::arithmetic::div_mod::lemma_fundamental_div_mod(low + n - 1, n);
    vstd::arithmetic::div_mod::lemma_mod_bound(low + n - 1, n);
    assert(0 <= low) by (nonlinear_arith)
        requires
            0 <= r,
            w > 0,
            0 <= t,
            low == r * w + t,
    ;
    assert(w == q * n + t) by (nonlinear_arith)
        requires
            w == n * q + t,
    ;
    assert(low <= start * n < low + n) by (nonlinear_arith)
        requires
            low + n - 1 == n * start + (low + n - 1) % n,
            0 <= (low + n - 1) % n < n,
    ;
    assert(0 <= start) by (nonlinear_arith)
        requires
            low <= start * n,
            0 <= low,
            0 < n,
    ;
    assert forall|d: u64| (#[trigger] draw_below(d, n)) == Some(r) <==> start <= d < start + q by {
        let m = d * n;
        vstd::arithmetic::div_mod::lemma_fundamental_div_mod(m, w);
        vstd::arithmetic::div_mod::lemma_mod_bound(m, w);
        let hi = m / w;
        let lo = m % w;
        assert(m == hi * w + lo);
        assert(hi == r && lo >= t <==> low <= m < low + q * n) by (nonlinear_arith)
            requires
                m == hi * w + lo,
                0 <= lo < w,
                low == r * w + t,
                w == q * n + t,
                0 <= t,
                w > 0,
        ;
        assert(low <= m <==> start <= d) by (nonlinear_arith)
            requires
                m == d * n,
                low <= start * n < low + n,
                0 < n,
        ;
        assert(m < low + q * n <==> d < start + q) by (nonlinear_arith)
            requires
                m == d * n,
                low <= start * n < low + n,
                0 < n,
        ;
    }
    assert(start + q <= w) by (nonlinear_arith)
        requires
            start * n < low + n,
            low == r * w + t,
            w == q * n + t,
            r + 1 <= n,
            0 < n,
            w > 0,
    ;
    start
}

/// A roll is the high part of a draw: 53 bits of it.
pub proof fn law_rolls_have_53_bits(s: Stream)
    ensures
        0 <= roll_of(s) < 0x20_0000_0000_0000,
        roll_of(s) * 2048 <= nth_draw(s, 0) < (roll_of(s) + 1) * 2048,
{
}

/// A draw below a bound takes the first draw of the stream that is not rejected, and leaves the
/// stream just behind it; with nothing to choose from it draws nothing.
pub proof fn law_the_first_accepted_draw_counts(s: Stream, n: int, k: int, r: int)
    requires
        2 <= n,
        0 <= k < PERIOD,
        draw_below(nth_draw(s, k), n) == Some(r),
        forall|j: int| 0 <= j < k ==> draw_below(#[trigger] nth_draw(s, j), n) is None,
    ensures
        drawn(s, n) == (r, after(s.pos, k + 1)),
        drawn(s, 1) == (0int, s.pos),
        drawn(s, 0) == (0int, s.pos),
{
    let pos = after(s.pos, k + 1);
    assert(below_from(s, n, r, pos));
    let e = (r, pos);
    assert(draws_below(s, n, e.0, e.1));
    let d = drawn(s, n);
    assert(draws_below(s, n, d.0, d.1));
    law_draws_repeat(s, n, r, pos, d.0, d.1);
    let none = (0int, s.pos);
    assert(draws_below(s, 1, none.0, none.1));
    assert(draws_below(s, 0, none.0, none.1));
}

} // verus!
