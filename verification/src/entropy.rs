//! Character n-gram statistics, collected from the conversation log only.
use crate::count;
use crate::fx;
use crate::nexts;
use crate::sais;
use crate::tally;
use crate::text;
use rustc_hash::FxHashMap;
use vstd::prelude::*;

verus! {

pub struct NextStats {
    pub count: u32,
    pub next: FxHashMap<u32, u32>,
}

pub struct EntropyModel {
    /// Where the statistics of a gram stand in `stats`.
    pub fwd: FxHashMap<Vec<u32>, usize>,
    pub stats: Vec<NextStats>,
    pub max_n: usize,
    pub total_chars: u64,
}

/// The code points of a text.
pub open spec fn codes(s: Seq<char>) -> Seq<u32> {
    s.map_values(|c: char| (c as int) as u32)
}

/// The code points of a text.
pub fn codes_of(v: &Vec<char>) -> (r: Vec<u32>)
    ensures
        r@ == codes(v@),
{
    let mut r: Vec<u32> = Vec::new();
    let mut i: usize = 0;
    while i < v.len()
        invariant
            i <= v.len(),
            r.len() == i,
            forall|k: int| 0 <= k < i ==> r[k] == (#[trigger] codes(v@)[k]),
        decreases v.len() - i,
    {
        let c: char = v[i];
        r.push(text::code(c));
        i += 1;
    }
    proof {
        assert(r@ =~= codes(v@));
    }
    r
}

/// Where a gram stands.
pub open spec fn stands(chars: Seq<u32>, g: Seq<u32>) -> spec_fn(int) -> bool {
    |i: int| sais::starts_with(chars, i, g)
}

/// How often a gram of an order up to `max_n` stands in a text.
pub open spec fn gram_hits(chars: Seq<u32>, g: Seq<u32>, max_n: int) -> int {
    if 1 <= g.len() <= max_n {
        count::count(stands(chars, g), chars.len() as int)
    } else {
        0
    }
}

/// How often a gram of an order up to `max_n` stands in a text with `c` behind it.
pub open spec fn next_hits(chars: Seq<u32>, g: Seq<u32>, max_n: int, c: u32) -> int {
    if 1 <= g.len() <= max_n {
        tally::occ(nexts::nexts(chars, g), c)
    } else {
        0
    }
}

pub proof fn lemma_gram_hits_nonneg(chars: Seq<u32>, g: Seq<u32>, max_n: int)
    ensures
        gram_hits(chars, g, max_n) >= 0,
{
    count::lemma_count_bounds(stands(chars, g), chars.len() as int);
}

pub proof fn lemma_gram_count_bound(m: EntropyModel, g: Seq<u32>)
    ensures
        0 <= m.gram_count(g) <= u32::MAX,
{
}

/// As far as a `u32` goes.
pub open spec fn saturated(x: int) -> int {
    if x > u32::MAX {
        u32::MAX as int
    } else {
        x
    }
}

impl EntropyModel {
    /// How often a gram was counted.
    pub open spec fn gram_count(&self, g: Seq<u32>) -> int {
        if fx::runs(self.fwd).dom().contains(g) {
            self.stats[fx::runs(self.fwd)[g] as int].count as int
        } else {
            0
        }
    }

    /// How often a code point was counted behind a gram.
    pub open spec fn next_count(&self, g: Seq<u32>, c: u32) -> int {
        if fx::runs(self.fwd).dom().contains(g) && self.stats[fx::runs(
            self.fwd,
        )[g] as int].next@.dom().contains(c) {
            self.stats[fx::runs(self.fwd)[g] as int].next@[c] as int
        } else {
            0
        }
    }

    pub open spec fn wf(&self) -> bool {
        &&& self.max_n >= 2
        &&& self.total_chars < u32::MAX
        &&& forall|g: Seq<u32>| #[trigger]
            fx::runs(self.fwd).dom().contains(g) ==> fx::runs(self.fwd)[g] < self.stats.len()
        &&& forall|g: Seq<u32>, h: Seq<u32>|
            #![trigger fx::runs(self.fwd)[g], fx::runs(self.fwd)[h]]
            fx::runs(self.fwd).dom().contains(g) && fx::runs(self.fwd).dom().contains(h) && g != h
                ==> fx::runs(self.fwd)[g] != fx::runs(self.fwd)[h]
        &&& forall|g: Seq<u32>, c: u32| #[trigger] self.next_count(g, c) <= self.total_chars
    }

    pub fn new(max_n: usize) -> (r: Self)
        ensures
            r.wf(),
            r.max_n == (if max_n < 2 {
                2
            } else {
                max_n
            }),
            r.total_chars == 0,
            forall|g: Seq<u32>| #[trigger] r.gram_count(g) == 0,
            forall|g: Seq<u32>, c: u32| #[trigger] r.next_count(g, c) == 0,
    {
        EntropyModel {
            fwd: fx::new_runs(),
            stats: Vec::new(),
            max_n: if max_n < 2 {
                2
            } else {
                max_n
            },
            total_chars: 0,
        }
    }

    /// Whether enough was seen to cut by.
    pub fn ready(&self) -> (r: bool)
        ensures
            r == (self.total_chars >= 256),
    {
        self.total_chars >= 256
    }

    /// Counts one occurrence of a gram, with what stands behind it.
    fn bump(&mut self, gram: Vec<u32>, behind: Option<u32>)
        requires
            old(self).wf(),
            behind matches Some(c) ==> old(self).next_count(gram@, c) < old(self).total_chars,
        ensures
            final(self).wf(),
            final(self).max_n == old(self).max_n,
            final(self).total_chars == old(self).total_chars,
            forall|g: Seq<u32>| #[trigger]
                final(self).gram_count(g) == (if g == gram@ {
                    saturated(old(self).gram_count(g) + 1)
                } else {
                    old(self).gram_count(g)
                }),
            forall|g: Seq<u32>, c: u32| #[trigger]
                final(self).next_count(g, c) == old(self).next_count(g, c) + (if g == gram@
                    && behind == Some(c) {
                    1int
                } else {
                    0
                }),
    {
        let ghost g0 = gram@;
        let at: usize = match fx::get_run(&self.fwd, &gram) {
            Some(i) => i,
            None => {
                let i: usize = self.stats.len();
                fx::set_run(&mut self.fwd, gram, i);
                self.stats.push(NextStats { count: 0, next: fx::new_counts() });
                i
            },
        };
        let ghost mid = *self;
        proof {
            assert(fx::runs(mid.fwd).dom().contains(g0) && fx::runs(mid.fwd)[g0] == at);
            assert forall|g: Seq<u32>| true implies #[trigger] mid.gram_count(g) == old(
                self,
            ).gram_count(g) by {
                if g != g0 && fx::runs(old(self).fwd).dom().contains(g) {
                    assert(fx::runs(old(self).fwd)[g] < old(self).stats.len());
                }
            }
            assert forall|g: Seq<u32>, c: u32| true implies #[trigger] mid.next_count(g, c) == old(
                self,
            ).next_count(g, c) by {
                if g != g0 && fx::runs(old(self).fwd).dom().contains(g) {
                    assert(fx::runs(old(self).fwd)[g] < old(self).stats.len());
                }
            }
            assert(forall|g: Seq<u32>, h: Seq<u32>|
                #![trigger fx::runs(mid.fwd)[g], fx::runs(mid.fwd)[h]]
                fx::runs(mid.fwd).dom().contains(g) && fx::runs(mid.fwd).dom().contains(h) && g != h
                    ==> fx::runs(mid.fwd)[g] != fx::runs(mid.fwd)[h]);
        }
        let n: u32 = self.stats[at].count;
        let bumped: u32 = if n < u32::MAX {
            n + 1
        } else {
            n
        };
        let mut st = NextStats { count: 0, next: fx::new_counts() };
        std::mem::swap(&mut self.stats[at], &mut st);
        st.count = bumped;
        let ghost before = st.next@;
        match behind {
            Some(c) => {
                proof {
                    assert(mid.next_count(g0, c) == old(self).next_count(g0, c));
                }
                let k: u32 = match fx::get_count(&st.next, c) {
                    Some(v) => v + 1,
                    None => 1,
                };
                fx::set_count(&mut st.next, c, k);
            },
            None => {},
        }
        self.stats.set(at, st);
        proof {
            assert(self.stats@ =~= mid.stats@.update(at as int, self.stats@[at as int]));
            assert forall|g: Seq<u32>| true implies #[trigger] self.gram_count(g) == (if g == g0 {
                saturated(old(self).gram_count(g) + 1)
            } else {
                old(self).gram_count(g)
            }) by {
                assert(mid.gram_count(g) == old(self).gram_count(g));
                if g != g0 && fx::runs(mid.fwd).dom().contains(g) {
                    assert(fx::runs(mid.fwd)[g] != fx::runs(mid.fwd)[g0]);
                }
            }
            assert forall|g: Seq<u32>, c: u32| true implies #[trigger] self.next_count(g, c) == old(
                self,
            ).next_count(g, c) + (if g == g0 && behind == Some(c) {
                1int
            } else {
                0
            }) by {
                assert(mid.next_count(g, c) == old(self).next_count(g, c));
                if g != g0 && fx::runs(mid.fwd).dom().contains(g) {
                    assert(fx::runs(mid.fwd)[g] != fx::runs(mid.fwd)[g0]);
                }
            }
        }
    }

    /// Counts every gram of a text, of every order up to `max_n`, with what stands behind it.
    pub fn observe(&mut self, text: &str)
        requires
            old(self).wf(),
            old(self).total_chars + text@.len() < u32::MAX,
        ensures
            final(self).wf(),
            final(self).max_n == old(self).max_n,
            final(self).total_chars == old(self).total_chars + text@.len(),
            forall|g: Seq<u32>| #[trigger]
                final(self).gram_count(g) == saturated(
                    old(self).gram_count(g) + gram_hits(codes(text@), g, old(self).max_n as int),
                ),
            forall|g: Seq<u32>, c: u32| #[trigger]
                final(self).next_count(g, c) == old(self).next_count(g, c) + next_hits(
                    codes(text@),
                    g,
                    old(self).max_n as int,
                    c,
                ),
    {
        let chars = codes_of(&text::chars_of(text));
        let ghost cs = chars@;
        let ghost start = *self;
        let ghost top = self.max_n as int;
        self.total_chars = self.total_chars + chars.len() as u64;
        proof {
            lemma_counted_none(*self, start, cs);
        }
        let mut n: usize = 1;
        while n <= self.max_n && n <= chars.len()
            invariant
                cs == chars@,
                1 <= n,
                n <= top + 1,
                self.max_n == top,
                self.wf(),
                self.total_chars == start.total_chars + cs.len(),
                self.total_chars < u32::MAX,
                start.wf(),
                counted(*self, start, cs, n as int, 0),
            decreases chars.len() + 1 - n,
        {
            let last: usize = chars.len() - n;
            let mut i: usize = 0;
            while i < last + 1
                invariant
                    cs == chars@,
                    1 <= n <= chars.len(),
                    n <= top,
                    self.max_n == top,
                    last == chars.len() - n,
                    i <= last + 1,
                    self.wf(),
                    self.total_chars == start.total_chars + cs.len(),
                    self.total_chars < u32::MAX,
                    start.wf(),
                    counted(*self, start, cs, n as int, i as int),
                decreases last + 1 - i,
            {
                let gram = run_of(&chars, i, i + n);
                let behind: Option<u32> = if i + n < chars.len() {
                    Some(chars[i + n])
                } else {
                    None
                };
                let ghost before = *self;
                let ghost g0 = gram@;
                proof {
                    match behind {
                        Some(c) => {
                            nexts::lemma_nexts_len(cs, g0, i as int);
                            tally::lemma_occ_bounds(nexts::nexts_upto(cs, g0, i as int), c);
                            assert(start.next_count(g0, c) <= start.total_chars);
                            assert(before.next_count(g0, c) == start.next_count(g0, c) + tally::occ(
                                nexts::nexts_upto(cs, g0, i as int),
                                c,
                            ));
                        },
                        None => {},
                    }
                }
                self.bump(gram, behind);
                proof {
                    lemma_counted_step(*self, before, start, cs, n as int, i as int, g0);
                }
                i += 1;
            }
            proof {
                lemma_counted_order(*self, start, cs, n as int, i as int);
            }
            n += 1;
        }
        proof {
            lemma_counted_all(*self, start, cs, n as int);
        }
    }

    /// What was counted behind a gram, in no stated order.
    pub fn nexts_of(&self, gram: &Vec<u32>) -> (r: Vec<(u32, u32)>)
        requires
            self.wf(),
        ensures
            forall|i: int|
                0 <= i < r.len() ==> self.next_count(gram@, (#[trigger] r[i]).0) == r[i].1,
            forall|i: int, j: int|
                0 <= i < j < r.len() ==> (#[trigger] r[i]).0 != (#[trigger] r[j]).0,
            forall|c: u32| #[trigger]
                self.next_count(gram@, c) > 0 ==> exists|i: int|
                    0 <= i < r.len() && (#[trigger] r[i]).0 == c,
    {
        match fx::get_run(&self.fwd, gram) {
            Some(i) => fx::counts(&self.stats[i].next),
            None => Vec::new(),
        }
    }
}

/// A stretch of a vector.
pub fn run_of(v: &Vec<u32>, lo: usize, hi: usize) -> (r: Vec<u32>)
    requires
        lo <= hi <= v.len(),
    ensures
        r@ == v@.subrange(lo as int, hi as int),
{
    let mut r: Vec<u32> = Vec::new();
    let mut i: usize = lo;
    while i < hi
        invariant
            lo <= i <= hi <= v.len(),
            r@ == v@.subrange(lo as int, i as int),
        decreases hi - i,
    {
        r.push(v[i]);
        proof {
            assert(v@.subrange(lo as int, i + 1) =~= v@.subrange(lo as int, i as int).push(
                v@[i as int],
            ));
        }
        i += 1;
    }
    r
}

/// `m` is `start` with every gram below order `n` counted, and the grams of order `n` that
/// stand before `i`.
spec fn counted(m: EntropyModel, start: EntropyModel, cs: Seq<u32>, n: int, i: int) -> bool {
    &&& forall|g: Seq<u32>| #[trigger]
        m.gram_count(g) == saturated(
            start.gram_count(g) + (if 1 <= g.len() < n {
                count::count(stands(cs, g), cs.len() as int)
            } else if g.len() == n {
                count::count(stands(cs, g), i)
            } else {
                0
            }),
        )
    &&& forall|g: Seq<u32>, c: u32| #[trigger]
        m.next_count(g, c) == start.next_count(g, c) + (if 1 <= g.len() < n {
            tally::occ(nexts::nexts(cs, g), c)
        } else if g.len() == n {
            tally::occ(nexts::nexts_upto(cs, g, i), c)
        } else {
            0
        })
}

proof fn lemma_counted_none(m: EntropyModel, start: EntropyModel, cs: Seq<u32>)
    requires
        m.fwd == start.fwd,
        m.stats == start.stats,
    ensures
        counted(m, start, cs, 1, 0),
{
    assert forall|g: Seq<u32>| true implies #[trigger] m.gram_count(g) == saturated(
        start.gram_count(g),
    ) && m.gram_count(g) == start.gram_count(g) by {}
    assert forall|g: Seq<u32>, c: u32| true implies #[trigger] m.next_count(g, c)
        == start.next_count(g, c) by {}
}

proof fn lemma_counted_step(
    m: EntropyModel,
    before: EntropyModel,
    start: EntropyModel,
    cs: Seq<u32>,
    n: int,
    i: int,
    g0: Seq<u32>,
)
    requires
        1 <= n,
        0 <= i,
        i + n <= cs.len(),
        g0 == cs.subrange(i, i + n),
        counted(before, start, cs, n, i),
        forall|g: Seq<u32>| #[trigger]
            m.gram_count(g) == (if g == g0 {
                saturated(before.gram_count(g) + 1)
            } else {
                before.gram_count(g)
            }),
        forall|g: Seq<u32>, c: u32| #[trigger]
            m.next_count(g, c) == before.next_count(g, c) + (if g == g0 && i + n < cs.len()
                && cs[i + n] == c {
                1int
            } else {
                0
            }),
    ensures
        counted(m, start, cs, n, i + 1),
{
    assert forall|g: Seq<u32>| g.len() == n implies (#[trigger] stands(cs, g))(i) == (g
        == g0) by {
        if g == g0 {
            assert forall|k: int| 0 <= k < g.len() implies cs[i + k] == #[trigger] g[k] by {}
        } else if sais::starts_with(cs, i, g) {
            assert forall|k: int| 0 <= k < n implies g0[k] == g[k] by {
                assert(cs[i + k] == g[k]);
            }
            assert(g =~= g0);
        }
    }
    assert forall|g: Seq<u32>| true implies #[trigger] m.gram_count(g) == saturated(
        start.gram_count(g) + (if 1 <= g.len() < n {
            count::count(stands(cs, g), cs.len() as int)
        } else if g.len() == n {
            count::count(stands(cs, g), i + 1)
        } else {
            0
        }),
    ) by {
        assert(m.gram_count(g) == (if g == g0 {
            saturated(before.gram_count(g) + 1)
        } else {
            before.gram_count(g)
        }));
        if g.len() == n {
            count::lemma_count_bounds(stands(cs, g), i);
            assert(stands(cs, g)(i) == (g == g0));
        }
    }
    assert forall|g: Seq<u32>, c: u32| true implies #[trigger] m.next_count(g, c)
        == start.next_count(g, c) + (if 1 <= g.len() < n {
        tally::occ(nexts::nexts(cs, g), c)
    } else if g.len() == n {
        tally::occ(nexts::nexts_upto(cs, g, i + 1), c)
    } else {
        0
    }) by {
        assert(before.next_count(g, c) == before.next_count(g, c));
        if g.len() == n {
            assert(stands(cs, g)(i) == (g == g0));
            if g == g0 && i + n < cs.len() {
                tally::lemma_occ_push(nexts::nexts_upto(cs, g, i), cs[i + n], c);
            }
        }
    }
}

/// A gram cannot stand where the text is shorter than it.
proof fn lemma_stands_tail(cs: Seq<u32>, g: Seq<u32>, k: int, m: int)
    requires
        0 <= k <= m,
        k + g.len() > cs.len(),
    ensures
        count::count(stands(cs, g), m) == count::count(stands(cs, g), k),
        nexts::nexts_upto(cs, g, m) == nexts::nexts_upto(cs, g, k),
    decreases m - k,
{
    if k < m {
        lemma_stands_tail(cs, g, k, m - 1);
    }
}

proof fn lemma_counted_order(m: EntropyModel, start: EntropyModel, cs: Seq<u32>, n: int, i: int)
    requires
        counted(m, start, cs, n, i),
        1 <= n <= cs.len(),
        i == cs.len() - n + 1,
    ensures
        counted(m, start, cs, n + 1, 0),
{
    assert forall|g: Seq<u32>| g.len() == n implies #[trigger] count::count(
        stands(cs, g),
        cs.len() as int,
    ) == count::count(stands(cs, g), i) && nexts::nexts(cs, g) == nexts::nexts_upto(cs, g, i) by {
        lemma_stands_tail(cs, g, i, cs.len() as int);
    }
    assert forall|g: Seq<u32>, c: u32| true implies #[trigger] m.next_count(g, c)
        == start.next_count(g, c) + (if 1 <= g.len() < n + 1 {
        tally::occ(nexts::nexts(cs, g), c)
    } else {
        0
    }) by {
        if g.len() == n {
            lemma_stands_tail(cs, g, i, cs.len() as int);
        }
    }
    assert forall|g: Seq<u32>, c: u32| g.len() == n + 1 implies #[trigger] tally::occ(
        nexts::nexts_upto(cs, g, 0),
        c,
    ) == 0 by {}
}

proof fn lemma_counted_all(m: EntropyModel, start: EntropyModel, cs: Seq<u32>, n: int)
    requires
        counted(m, start, cs, n, 0),
        1 <= n <= start.max_n + 1,
        n == start.max_n + 1 || n > cs.len(),
    ensures
        forall|g: Seq<u32>| #[trigger]
            m.gram_count(g) == saturated(
                start.gram_count(g) + gram_hits(cs, g, start.max_n as int),
            ),
        forall|g: Seq<u32>, c: u32| #[trigger]
            m.next_count(g, c) == start.next_count(g, c) + next_hits(
                cs,
                g,
                start.max_n as int,
                c,
            ),
{
    assert forall|g: Seq<u32>| true implies #[trigger] m.gram_count(g) == saturated(
        start.gram_count(g) + gram_hits(cs, g, start.max_n as int),
    ) by {
        if g.len() >= n {
            if g.len() <= start.max_n {
                lemma_stands_tail(cs, g, 0, cs.len() as int);
            }
        }
    }
    assert forall|g: Seq<u32>, c: u32| true implies #[trigger] m.next_count(g, c)
        == start.next_count(g, c) + next_hits(cs, g, start.max_n as int, c) by {
        if g.len() >= n {
            if g.len() <= start.max_n {
                lemma_stands_tail(cs, g, 0, cs.len() as int);
            }
        }
    }
}

/// A gram of an order that is counted is hit once for every place where the text has it, and
/// once with a character behind it where that follows. Longer grams and the empty one are not
/// counted.
pub proof fn law_grams_are_hit_where_they_stand(chars: Seq<u32>, g: Seq<u32>, max_n: int, c: u32)
    ensures
        g.len() == 0 || g.len() > max_n ==> gram_hits(chars, g, max_n) == 0 && next_hits(
            chars,
            g,
            max_n,
            c,
        ) == 0,
        1 <= g.len() <= max_n ==> gram_hits(chars, g, max_n) == Seq::new(
            chars.len(),
            |i: int| i,
        ).filter(|i: int| sais::starts_with(chars, i, g)).len(),
        1 <= g.len() <= max_n ==> next_hits(chars, g, max_n, c) == Seq::new(
            chars.len(),
            |i: int| i,
        ).filter(
            |i: int| i + g.len() < chars.len() && chars.subrange(i, i + g.len()) == g,
        ).map_values(|i: int| chars[i + g.len()]).to_multiset().count(c),
{
    if 1 <= g.len() <= max_n {
        count::law_count_is_how_many_are_picked(stands(chars, g), chars.len() as int);
        assert(stands(chars, g) =~= (|i: int| sais::starts_with(chars, i, g)));
        nexts::law_what_follows_is_listed(chars, g);
        tally::law_occurrences_are_counted(nexts::nexts(chars, g), c);
    }
}

/// Counts stop at the largest 32-bit number, and are exact below it.
pub proof fn law_counts_stop_at_the_top(x: int)
    ensures
        x <= 0xffff_ffff ==> saturated(x) == x,
        x >= 0xffff_ffff ==> saturated(x) == 0xffff_ffff,
{
}

} // verus!
