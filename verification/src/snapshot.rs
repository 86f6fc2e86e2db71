//! Snapshot: byte format of a pure cache of the replay-equivalent open state.
//!
//! Anything that could diverge is keyed out: the header carries a schema revision, a params
//! hash, and the log file's length and hash. Any mismatch falls back to the
//! full build, which rewrites the file. The JSONL log stays the source of
//! truth; deleting the snapshot is always safe.
//!
//! Format: little-endian, length-prefixed. Floating-point numbers are written as their bits.
use crate::ids::TokenId;
use vstd::prelude::*;
use vstd::utf8;

verus! {

/// Bump on any change that alters replay outcomes for the same params
/// (tokenizer, store semantics, replay order).
pub const SNAP_REV: u32 = 1;

/// Logs smaller than this open in milliseconds anyway; skip the file churn.
pub const MIN_LOG_BYTES: u64 = 4096;

/// The first bytes of a snapshot: MNSN.
pub open spec fn magic() -> Seq<u8> {
    seq![77u8, 78u8, 83u8, 78u8]
}

/// 256 to the power of `n`.
pub open spec fn span(n: nat) -> int
    decreases n,
{
    if n == 0 {
        1
    } else {
        256 * span((n - 1) as nat)
    }
}

/// The `n` low bytes of a number, lowest first.
pub open spec fn le(v: int, n: nat) -> Seq<u8>
    decreases n,
{
    if n == 0 {
        Seq::empty()
    } else {
        seq![(v % 256) as u8] + le(v / 256, (n - 1) as nat)
    }
}

/// The number that bytes stand for, lowest first.
pub open spec fn value(b: Seq<u8>) -> int
    decreases b.len(),
{
    if b.len() == 0 {
        0
    } else {
        b[0] + 256 * value(b.subrange(1, b.len() as int))
    }
}

proof fn lemma_le(v: int, n: nat)
    requires
        0 <= v < span(n),
    ensures
        le(v, n).len() == n,
        value(le(v, n)) == v,
    decreases n,
{
    if n > 0 {
        let rest = le(v / 256, (n - 1) as nat);
        assert(0 <= v / 256 < span((n - 1) as nat)) by (nonlinear_arith)
            requires
                0 <= v < 256 * span((n - 1) as nat),
        ;
        lemma_le(v / 256, (n - 1) as nat);
        assert(le(v, n).subrange(1, le(v, n).len() as int) =~= rest);
        assert(0 <= v % 256 < 256);
        assert(v == v % 256 + 256 * (v / 256));
    }
}

proof fn lemma_le_len(v: int, n: nat)
    ensures
        le(v, n).len() == n,
    decreases n,
{
    if n > 0 {
        lemma_le_len(v / 256, (n - 1) as nat);
    }
}

proof fn lemma_value_bound(b: Seq<u8>)
    ensures
        0 <= value(b) < span(b.len()),
    decreases b.len(),
{
    if b.len() > 0 {
        lemma_value_bound(b.subrange(1, b.len() as int));
    }
}

proof fn lemma_spans()
    ensures
        span(1) == 0x100,
        span(4) == 0x1_0000_0000,
        span(8) == 0x1_0000_0000_0000_0000,
        span(16) == 0x1_0000_0000_0000_0000 * 0x1_0000_0000_0000_0000,
{
    reveal_with_fuel(span, 17);
}

/// FNV-1a over bytes, from a hash on.
pub open spec fn hashed_on(h: u64, bytes: Seq<u8>) -> u64
    decreases bytes.len(),
{
    if bytes.len() == 0 {
        h
    } else {
        let before = hashed_on(h, bytes.drop_last());
        (((before ^ bytes.last() as u64) * 0x100_0000_01b3int) % 0x1_0000_0000_0000_0000) as u64
    }
}

/// The hash of nothing.
pub const FNV_START: u64 = 0xcbf2_9ce4_8422_2325;

/// FNV-1a over bytes.
pub open spec fn hashed(bytes: Seq<u8>) -> u64 {
    hashed_on(FNV_START, bytes)
}

/// Hashes on over more bytes.
pub fn fnv64_on(h: u64, bytes: &[u8]) -> (r: u64)
    ensures
        r == hashed_on(h, bytes@),
{
    let mut r: u64 = h;
    let mut i: usize = 0;
    while i < bytes.len()
        invariant
            i <= bytes.len(),
            r == hashed_on(h, bytes@.take(i as int)),
        decreases bytes.len() - i,
    {
        proof {
            assert(bytes@.take(i + 1).drop_last() =~= bytes@.take(i as int));
        }
        let x: u64 = r ^ (bytes[i] as u64);
        r = x.wrapping_mul(0x100_0000_01b3);
        i += 1;
    }
    proof {
        assert(bytes@.take(i as int) =~= bytes@);
    }
    r
}

/// FNV-1a over bytes.
pub fn fnv64(bytes: &[u8]) -> (r: u64)
    ensures
        r == hashed(bytes@),
{
    fnv64_on(FNV_START, bytes)
}

/// A file can be hashed in pieces.
pub proof fn law_hash_in_pieces(h: u64, a: Seq<u8>, b: Seq<u8>)
    ensures
        hashed_on(hashed_on(h, a), b) == hashed_on(h, a + b),
    decreases b.len(),
{
    if b.len() == 0 {
        assert(a + b =~= a);
    } else {
        law_hash_in_pieces(h, a, b.drop_last());
        assert((a + b).drop_last() =~= a + b.drop_last());
    }
}

/// The header of a snapshot.
pub open spec fn header_bytes(params_fnv: u64, log_len: u64, log_fnv: u64) -> Seq<u8> {
    magic() + le(SNAP_REV as int, 4) + le(params_fnv as int, 8) + le(log_len as int, 8) + le(
        log_fnv as int,
        8,
    )
}

/// How a text is written.
pub open spec fn text_bytes(s: Seq<char>) -> Seq<u8> {
    le(utf8::encode_utf8(s).len() as int, 4) + utf8::encode_utf8(s)
}

/// How tokens are written one after the other.
pub open spec fn run_bytes(ts: Seq<u32>) -> Seq<u8>
    decreases ts.len(),
{
    if ts.len() == 0 {
        Seq::empty()
    } else {
        run_bytes(ts.drop_last()) + le(ts.last() as int, 4)
    }
}

/// How a list of tokens is written.
pub open spec fn toks_bytes(ts: Seq<u32>) -> Seq<u8> {
    le(ts.len() as int, 4) + run_bytes(ts)
}

/// How an optional text is written.
pub open spec fn opt_text_bytes(s: Option<Seq<char>>) -> Seq<u8> {
    match s {
        None => seq![0u8],
        Some(t) => seq![1u8] + text_bytes(t),
    }
}

/// How an optional number is written.
pub open spec fn opt_number_bytes(v: Option<u64>) -> Seq<u8> {
    match v {
        None => seq![0u8],
        Some(n) => seq![1u8] + le(n as int, 8),
    }
}

// ---- writer ----
#[derive(Debug)]
pub struct W(pub Vec<u8>);

impl W {
    fn put_le(&mut self, v: u128, n: usize)
        ensures
            final(self).0@ == old(self).0@ + le(v as int, n as nat),
    {
        let mut rest: u128 = v;
        let mut k: usize = 0;
        proof {
            assert(self.0@ + le(rest as int, n as nat) =~= old(self).0@ + le(v as int, n as nat));
        }
        while k < n
            invariant
                k <= n,
                self.0@ + le(rest as int, (n - k) as nat) == old(self).0@ + le(v as int, n as nat),
            decreases n - k,
        {
            let ghost before = self.0@;
            let ghost was = rest;
            self.0.push((rest % 256) as u8);
            rest = rest / 256;
            proof {
                assert(before + le(was as int, (n - k) as nat) =~= self.0@ + le(
                    rest as int,
                    (n - k - 1) as nat,
                ));
            }
            k += 1;
        }
        proof {
            assert(self.0@ + le(rest as int, 0) =~= self.0@);
        }
    }

    fn put_bytes(&mut self, b: &[u8])
        ensures
            final(self).0@ == old(self).0@ + b@,
    {
        let mut i: usize = 0;
        proof {
            assert(self.0@ =~= old(self).0@ + b@.take(0));
        }
        while i < b.len()
            invariant
                i <= b.len(),
                self.0@ == old(self).0@ + b@.take(i as int),
            decreases b.len() - i,
        {
            self.0.push(b[i]);
            proof {
                assert(self.0@ =~= old(self).0@ + b@.take(i + 1));
            }
            i += 1;
        }
        proof {
            assert(b@.take(i as int) =~= b@);
        }
    }

    pub fn header(params_fnv: u64, log_len: u64, log_fnv: u64) -> (r: Self)
        ensures
            r.0@ == header_bytes(params_fnv, log_len, log_fnv),
    {
        let mut w = W(Vec::new());
        w.u8(77);
        w.u8(78);
        w.u8(83);
        w.u8(78);
        proof {
            assert(w.0@ =~= magic());
        }
        w.u32(SNAP_REV);
        w.u64(params_fnv);
        w.u64(log_len);
        w.u64(log_fnv);
        w
    }

    pub fn u8(&mut self, v: u8)
        ensures
            final(self).0@ == old(self).0@.push(v),
    {
        self.0.push(v);
    }

    pub fn u32(&mut self, v: u32)
        ensures
            final(self).0@ == old(self).0@ + le(v as int, 4),
    {
        self.put_le(v as u128, 4);
    }

    pub fn u64(&mut self, v: u64)
        ensures
            final(self).0@ == old(self).0@ + le(v as int, 8),
    {
        self.put_le(v as u128, 8);
    }

    pub fn u128(&mut self, v: u128)
        ensures
            final(self).0@ == old(self).0@ + le(v as int, 16),
    {
        self.put_le(v, 16);
    }

    /// The bits of a 32-bit number.
    pub fn f32_bits(&mut self, v: u32)
        ensures
            final(self).0@ == old(self).0@ + le(v as int, 4),
    {
        self.u32(v);
    }

    /// The bits of a 64-bit number.
    pub fn f64_bits(&mut self, v: u64)
        ensures
            final(self).0@ == old(self).0@ + le(v as int, 8),
    {
        self.u64(v);
    }

    pub fn str(&mut self, s: &str)
        requires
            utf8::encode_utf8(s@).len() <= u32::MAX,
        ensures
            final(self).0@ == old(self).0@ + text_bytes(s@),
    {
        let b = s.as_bytes();
        self.u32(b.len() as u32);
        self.put_bytes(b);
        proof {
            assert(self.0@ =~= old(self).0@ + text_bytes(s@));
        }
    }

    pub fn toks(&mut self, ts: &[TokenId])
        requires
            ts.len() <= u32::MAX,
        ensures
            final(self).0@ == old(self).0@ + toks_bytes(ts@),
    {
        self.u32(ts.len() as u32);
        let ghost head = self.0@;
        let mut i: usize = 0;
        proof {
            assert(self.0@ =~= head + run_bytes(ts@.take(0)));
        }
        while i < ts.len()
            invariant
                i <= ts.len(),
                self.0@ == head + run_bytes(ts@.take(i as int)),
            decreases ts.len() - i,
        {
            proof {
                assert(ts@.take(i + 1).drop_last() =~= ts@.take(i as int));
            }
            self.u32(ts[i]);
            proof {
                assert(self.0@ =~= head + run_bytes(ts@.take(i + 1)));
            }
            i += 1;
        }
        proof {
            assert(ts@.take(i as int) =~= ts@);
            assert(self.0@ =~= old(self).0@ + toks_bytes(ts@));
        }
    }

    pub fn opt_str(&mut self, s: Option<&str>)
        requires
            s is Some ==> utf8::encode_utf8(s->0@).len() <= u32::MAX,
        ensures
            final(self).0@ == old(self).0@ + opt_text_bytes(
                match s {
                    Some(t) => Some(t@),
                    None => None,
                },
            ),
    {
        match s {
            None => {
                self.u8(0);
                proof {
                    assert(self.0@ =~= old(self).0@ + opt_text_bytes(None));
                }
            },
            Some(t) => {
                self.u8(1);
                self.str(t);
                proof {
                    assert(self.0@ =~= old(self).0@ + opt_text_bytes(Some(t@)));
                }
            },
        }
    }

    pub fn opt_u64(&mut self, v: Option<u64>)
        ensures
            final(self).0@ == old(self).0@ + opt_number_bytes(v),
    {
        match v {
            None => {
                self.u8(0);
            },
            Some(n) => {
                self.u8(1);
                self.u64(n);
            },
        }
        proof {
            assert(self.0@ =~= old(self).0@ + opt_number_bytes(v));
        }
    }
}

// ---- reader ----
/// What reading `n` bytes at `i` gives, and where it leaves the reader.
pub open spec fn number_at(b: Seq<u8>, i: int, n: int) -> (Option<int>, int) {
    if i + n <= b.len() {
        (Some(value(b.subrange(i, i + n))), i + n)
    } else {
        (None, i)
    }
}

/// What reading a text at `i` gives, and where it leaves the reader.
pub open spec fn text_at(b: Seq<u8>, i: int) -> (Option<Seq<char>>, int) {
    match number_at(b, i, 4).0 {
        None => (None, i),
        Some(n) => if i + 4 + n > b.len() {
            (None, i + 4)
        } else if utf8::valid_utf8(b.subrange(i + 4, i + 4 + n)) {
            (Some(utf8::decode_utf8(b.subrange(i + 4, i + 4 + n))), i + 4 + n)
        } else {
            (None, i + 4 + n)
        },
    }
}

/// What reading `n` tokens at `i` gives, and where it leaves the reader.
pub open spec fn run_at(b: Seq<u8>, i: int, n: nat) -> (Option<Seq<u32>>, int)
    decreases n,
{
    if n == 0 {
        (Some(Seq::empty()), i)
    } else {
        let before = run_at(b, i, (n - 1) as nat);
        match before.0 {
            None => before,
            Some(ts) => match number_at(b, before.1, 4).0 {
                None => (None, before.1),
                Some(t) => (Some(ts.push(t as u32)), before.1 + 4),
            },
        }
    }
}

/// What reading a list of tokens at `i` gives, and where it leaves the reader.
pub open spec fn toks_at(b: Seq<u8>, i: int) -> (Option<Seq<u32>>, int) {
    match number_at(b, i, 4).0 {
        None => (None, i),
        Some(n) => run_at(b, i + 4, n as nat),
    }
}

/// What reading an optional text at `i` gives, and where it leaves the reader.
pub open spec fn opt_text_at(b: Seq<u8>, i: int) -> (Option<Option<Seq<char>>>, int) {
    if i >= b.len() {
        (None, i)
    } else if b[i] == 0 {
        (Some(None), i + 1)
    } else {
        match text_at(b, i + 1).0 {
            None => (None, text_at(b, i + 1).1),
            Some(t) => (Some(Some(t)), text_at(b, i + 1).1),
        }
    }
}

/// What reading an optional number at `i` gives, and where it leaves the reader.
pub open spec fn opt_number_at(b: Seq<u8>, i: int) -> (Option<Option<int>>, int) {
    if i >= b.len() {
        (None, i)
    } else if b[i] == 0 {
        (Some(None), i + 1)
    } else {
        match number_at(b, i + 1, 8).0 {
            None => (None, i + 1),
            Some(n) => (Some(Some(n)), i + 9),
        }
    }
}

/// `String::from_utf8`: the text of the bytes where they are valid UTF-8, nothing otherwise.
#[verifier::external_body]
fn text_of(bytes: Vec<u8>) -> (r: Option<String>)
    ensures
        match r {
            Some(s) => utf8::valid_utf8(bytes@) && s@ == utf8::decode_utf8(bytes@),
            None => !utf8::valid_utf8(bytes@),
        },
{
    String::from_utf8(bytes).ok()
}

#[derive(Debug)]
pub struct R<'a> {
    pub b: &'a [u8],
    pub i: usize,
}

impl<'a> R<'a> {
    pub open spec fn wf(&self) -> bool {
        self.i <= self.b.len()
    }

    /// None unless magic, revision, params and log identity all match.
    pub fn open(bytes: &'a [u8], params_fnv: u64, log_len: u64, log_fnv: u64) -> (r: Option<Self>)
        ensures
            match r {
                Some(s) => {
                    &&& s.wf()
                    &&& s.b@ == bytes@
                    &&& s.i == 32
                    &&& bytes.len() >= 32
                    &&& bytes@.take(32) == header_bytes(params_fnv, log_len, log_fnv)
                },
                None => bytes.len() < 32 || bytes@.take(32) != header_bytes(
                    params_fnv,
                    log_len,
                    log_fnv,
                ),
            },
    {
        let want = W::header(params_fnv, log_len, log_fnv);
        proof {
            lemma_header_len(params_fnv, log_len, log_fnv);
        }
        if bytes.len() < 32 {
            return None;
        }
        let mut k: usize = 0;
        while k < 32
            invariant
                k <= 32,
                bytes.len() >= 32,
                want.0.len() == 32,
                want.0@ == header_bytes(params_fnv, log_len, log_fnv),
                forall|j: int| 0 <= j < k ==> bytes@[j] == want.0@[j],
            decreases 32 - k,
        {
            if bytes[k] != want.0[k] {
                proof {
                    assert(bytes@.take(32)[k as int] != want.0@[k as int]);
                }
                return None;
            }
            k += 1;
        }
        proof {
            assert(bytes@.take(32) =~= want.0@);
        }
        Some(R { b: bytes, i: 32 })
    }

    /// The number in the next `n` bytes.
    fn number(&mut self, n: usize) -> (r: Option<u128>)
        requires
            old(self).wf(),
            n <= 16,
        ensures
            final(self).wf(),
            final(self).b == old(self).b,
            ({
                let read = number_at(old(self).b@, old(self).i as int, n as int);
                &&& final(self).i == read.1
                &&& match r {
                    Some(v) => read.0 == Some(v as int),
                    None => read.0 is None,
                }
            }),
    {
        if n > self.b.len() - self.i {
            return None;
        }
        let ghost part = self.b@.subrange(self.i as int, self.i + n);
        let mut v: u128 = 0;
        let mut k: usize = n;
        proof {
            lemma_value_bound(part);
            lemma_spans();
            lemma_span_mono(n as nat, 16);
            assert(part.subrange(n as int, n as int) =~= Seq::empty());
        }
        while k > 0
            invariant
                k <= n <= 16,
                n <= self.b.len() - self.i,
                part == self.b@.subrange(self.i as int, self.i + n),
                v == value(part.subrange(k as int, n as int)),
            decreases k,
        {
            proof {
                let wider = part.subrange(k - 1, n as int);
                assert(wider.subrange(1, wider.len() as int) =~= part.subrange(k as int, n as int));
                lemma_value_bound(wider);
                lemma_spans();
                lemma_span_mono((n - k + 1) as nat, 16);
                assert(wider[0] == self.b@[self.i + (k - 1)]);
            }
            let x: u8 = self.b[self.i + (k - 1)];
            v = v * 256 + x as u128;
            k -= 1;
        }
        proof {
            assert(part.subrange(0, n as int) =~= part);
        }
        self.i = self.i + n;
        Some(v)
    }

    pub fn u8(&mut self) -> (r: Option<u8>)
        requires
            old(self).wf(),
        ensures
            final(self).wf(),
            final(self).b == old(self).b,
            match r {
                Some(v) => {
                    &&& old(self).i < old(self).b.len()
                    &&& v == old(self).b@[old(self).i as int]
                    &&& final(self).i == old(self).i + 1
                },
                None => old(self).i >= old(self).b.len() && final(self).i == old(self).i,
            },
    {
        if self.i >= self.b.len() {
            return None;
        }
        let v: u8 = self.b[self.i];
        self.i = self.i + 1;
        Some(v)
    }

    pub fn u32(&mut self) -> (r: Option<u32>)
        requires
            old(self).wf(),
        ensures
            final(self).wf(),
            final(self).b == old(self).b,
            ({
                let read = number_at(old(self).b@, old(self).i as int, 4);
                &&& final(self).i == read.1
                &&& match r {
                    Some(v) => read.0 == Some(v as int),
                    None => read.0 is None,
                }
            }),
    {
        let ghost at = self.i as int;
        match self.number(4) {
            Some(v) => {
                proof {
                    lemma_value_bound(self.b@.subrange(at, at + 4));
                    lemma_spans();
                }
                Some(v as u32)
            },
            None => None,
        }
    }

    pub fn u64(&mut self) -> (r: Option<u64>)
        requires
            old(self).wf(),
        ensures
            final(self).wf(),
            final(self).b == old(self).b,
            ({
                let read = number_at(old(self).b@, old(self).i as int, 8);
                &&& final(self).i == read.1
                &&& match r {
                    Some(v) => read.0 == Some(v as int),
                    None => read.0 is None,
                }
            }),
    {
        let ghost at = self.i as int;
        match self.number(8) {
            Some(v) => {
                proof {
                    lemma_value_bound(self.b@.subrange(at, at + 8));
                    lemma_spans();
                }
                Some(v as u64)
            },
            None => None,
        }
    }

    pub fn u128(&mut self) -> (r: Option<u128>)
        requires
            old(self).wf(),
        ensures
            final(self).wf(),
            final(self).b == old(self).b,
            ({
                let read = number_at(old(self).b@, old(self).i as int, 16);
                &&& final(self).i == read.1
                &&& match r {
                    Some(v) => read.0 == Some(v as int),
                    None => read.0 is None,
                }
            }),
    {
        self.number(16)
    }

    /// The bits of a 32-bit number.
    pub fn f32_bits(&mut self) -> (r: Option<u32>)
        requires
            old(self).wf(),
        ensures
            final(self).wf(),
            final(self).b == old(self).b,
            ({
                let read = number_at(old(self).b@, old(self).i as int, 4);
                &&& final(self).i == read.1
                &&& match r {
                    Some(v) => read.0 == Some(v as int),
                    None => read.0 is None,
                }
            }),
    {
        self.u32()
    }

    /// The bits of a 64-bit number.
    pub fn f64_bits(&mut self) -> (r: Option<u64>)
        requires
            old(self).wf(),
        ensures
            final(self).wf(),
            final(self).b == old(self).b,
            ({
                let read = number_at(old(self).b@, old(self).i as int, 8);
                &&& final(self).i == read.1
                &&& match r {
                    Some(v) => read.0 == Some(v as int),
                    None => read.0 is None,
                }
            }),
    {
        self.u64()
    }

    pub fn str(&mut self) -> (r: Option<String>)
        requires
            old(self).wf(),
        ensures
            final(self).wf(),
            final(self).b == old(self).b,
            ({
                let read = text_at(old(self).b@, old(self).i as int);
                &&& final(self).i == read.1
                &&& match r {
                    Some(s) => read.0 == Some(s@),
                    None => read.0 is None,
                }
            }),
    {
        let n: usize = match self.u32() {
            Some(n) => n as usize,
            None => {
                return None;
            },
        };
        if n > self.b.len() - self.i {
            return None;
        }
        let from: usize = self.i;
        let mut part: Vec<u8> = Vec::new();
        while part.len() < n
            invariant
                self.i == from,
                n <= self.b.len() - from,
                from <= self.b.len(),
                part.len() <= n,
                part@ == self.b@.subrange(from as int, from + part.len()),
            decreases n - part.len(),
        {
            let k: usize = part.len();
            part.push(self.b[from + k]);
            proof {
                assert(part@ =~= self.b@.subrange(from as int, from + k + 1));
            }
        }
        self.i = self.i + n;
        text_of(part)
    }

    pub fn toks(&mut self) -> (r: Option<Vec<TokenId>>)
        requires
            old(self).wf(),
        ensures
            final(self).wf(),
            final(self).b == old(self).b,
            ({
                let read = toks_at(old(self).b@, old(self).i as int);
                &&& final(self).i == read.1
                &&& match r {
                    Some(ts) => read.0 == Some(ts@),
                    None => read.0 is None,
                }
            }),
    {
        let n: usize = match self.u32() {
            Some(n) => n as usize,
            None => {
                return None;
            },
        };
        let ghost from = self.i as int;
        let mut v: Vec<TokenId> = Vec::new();
        let mut k: usize = 0;
        proof {
            assert(v@ =~= Seq::<u32>::empty());
        }
        while k < n
            invariant
                k <= n,
                self.wf(),
                self.b == old(self).b,
                toks_at(old(self).b@, old(self).i as int) == run_at(self.b@, from, n as nat),
                run_at(self.b@, from, k as nat) == (Some(v@), self.i as int),
            decreases n - k,
        {
            let ghost at = self.i as int;
            match self.u32() {
                Some(t) => {
                    v.push(t);
                },
                None => {
                    proof {
                        assert(run_at(self.b@, from, (k + 1) as nat) == (
                            None::<Seq<u32>>,
                            self.i as int,
                        ));
                        lemma_run_stops(self.b@, from, (k + 1) as nat, n as nat);
                    }
                    return None;
                },
            }
            k += 1;
        }
        Some(v)
    }

    pub fn opt_str(&mut self) -> (r: Option<Option<String>>)
        requires
            old(self).wf(),
        ensures
            final(self).wf(),
            final(self).b == old(self).b,
            ({
                let read = opt_text_at(old(self).b@, old(self).i as int);
                &&& final(self).i == read.1
                &&& match r {
                    Some(Some(s)) => read.0 == Some(Some(s@)),
                    Some(None) => read.0 == Some(None::<Seq<char>>),
                    None => read.0 is None,
                }
            }),
    {
        match self.u8() {
            None => None,
            Some(tag) => {
                if tag == 0 {
                    return Some(None);
                }
                match self.str() {
                    Some(s) => Some(Some(s)),
                    None => None,
                }
            },
        }
    }

    pub fn opt_u64(&mut self) -> (r: Option<Option<u64>>)
        requires
            old(self).wf(),
        ensures
            final(self).wf(),
            final(self).b == old(self).b,
            ({
                let read = opt_number_at(old(self).b@, old(self).i as int);
                &&& final(self).i == read.1
                &&& match r {
                    Some(Some(v)) => read.0 == Some(Some(v as int)),
                    Some(None) => read.0 == Some(None::<int>),
                    None => read.0 is None,
                }
            }),
    {
        match self.u8() {
            None => None,
            Some(tag) => {
                if tag == 0 {
                    return Some(None);
                }
                match self.u64() {
                    Some(v) => Some(Some(v)),
                    None => None,
                }
            },
        }
    }
}

proof fn lemma_run_stops(b: Seq<u8>, i: int, k: nat, n: nat)
    requires
        k <= n,
        run_at(b, i, k).0 is None,
    ensures
        run_at(b, i, n) == run_at(b, i, k),
    decreases n,
{
    if k < n {
        lemma_run_stops(b, i, k, (n - 1) as nat);
    }
}

proof fn lemma_span_mono(a: nat, b: nat)
    requires
        a <= b,
    ensures
        0 < span(a) <= span(b),
    decreases b,
{
    if a < b {
        lemma_span_mono(a, (b - 1) as nat);
    } else if b > 0 {
        lemma_span_mono((a - 1) as nat, (b - 1) as nat);
    }
}

proof fn lemma_header_len(params_fnv: u64, log_len: u64, log_fnv: u64)
    ensures
        header_bytes(params_fnv, log_len, log_fnv).len() == 32,
{
    lemma_le_len(SNAP_REV as int, 4);
    lemma_le_len(params_fnv as int, 8);
    lemma_le_len(log_len as int, 8);
    lemma_le_len(log_fnv as int, 8);
}

/// A number reads back as it was written, whatever stands around it.
pub proof fn law_number_round_trip(head: Seq<u8>, v: int, n: nat, rest: Seq<u8>)
    requires
        0 <= v < span(n),
    ensures
        number_at(head + le(v, n) + rest, head.len() as int, n as int) == (
            Some(v),
            head.len() as int + n,
        ),
{
    lemma_le(v, n);
    let b = head + le(v, n) + rest;
    assert(b.subrange(head.len() as int, head.len() as int + n) =~= le(v, n));
}

/// A text reads back as it was written.
pub proof fn law_text_round_trip(head: Seq<u8>, s: Seq<char>, rest: Seq<u8>)
    requires
        utf8::encode_utf8(s).len() <= u32::MAX,
    ensures
        text_at(head + text_bytes(s) + rest, head.len() as int) == (
            Some(s),
            (head + text_bytes(s)).len() as int,
        ),
{
    let e = utf8::encode_utf8(s);
    let n = e.len() as int;
    let b = head + text_bytes(s) + rest;
    lemma_spans();
    law_number_round_trip(head, n, 4, e + rest);
    lemma_le_len(n, 4);
    assert(b =~= head + le(n, 4) + (e + rest));
    assert(b.subrange(head.len() as int + 4, head.len() as int + 4 + n) =~= e);
    utf8::encode_utf8_valid_utf8(s);
    utf8::encode_utf8_decode_utf8(s);
}

proof fn lemma_run_round_trip(head: Seq<u8>, ts: Seq<u32>, rest: Seq<u8>)
    ensures
        run_at(head + run_bytes(ts) + rest, head.len() as int, ts.len()) == (
            Some(ts),
            head.len() as int + 4 * ts.len(),
        ),
        run_bytes(ts).len() == 4 * ts.len(),
    decreases ts.len(),
{
    let b = head + run_bytes(ts) + rest;
    if ts.len() > 0 {
        let front = ts.drop_last();
        let last = ts.last() as int;
        lemma_le_len(last, 4);
        lemma_run_round_trip(head, front, le(last, 4) + rest);
        assert(b =~= head + run_bytes(front) + (le(last, 4) + rest));
        lemma_spans();
        law_number_round_trip(head + run_bytes(front), last, 4, rest);
        assert(b =~= head + run_bytes(front) + le(last, 4) + rest);
        assert(front.push(ts.last()) =~= ts);
    } else {
        assert(ts =~= Seq::empty());
    }
}

/// A list of tokens reads back as it was written.
pub proof fn law_toks_round_trip(head: Seq<u8>, ts: Seq<u32>, rest: Seq<u8>)
    requires
        ts.len() <= u32::MAX,
    ensures
        toks_at(head + toks_bytes(ts) + rest, head.len() as int) == (
            Some(ts),
            (head + toks_bytes(ts)).len() as int,
        ),
{
    let n = ts.len() as int;
    let b = head + toks_bytes(ts) + rest;
    lemma_spans();
    lemma_le_len(n, 4);
    law_number_round_trip(head, n, 4, run_bytes(ts) + rest);
    assert(b =~= head + le(n, 4) + (run_bytes(ts) + rest));
    lemma_run_round_trip(head + le(n, 4), ts, rest);
    assert(b =~= (head + le(n, 4)) + run_bytes(ts) + rest);
}

/// An optional text reads back as it was written.
pub proof fn law_opt_text_round_trip(head: Seq<u8>, s: Option<Seq<char>>, rest: Seq<u8>)
    requires
        s is Some ==> utf8::encode_utf8(s->0).len() <= u32::MAX,
    ensures
        opt_text_at(head + opt_text_bytes(s) + rest, head.len() as int) == (
            Some(s),
            (head + opt_text_bytes(s)).len() as int,
        ),
{
    let b = head + opt_text_bytes(s) + rest;
    match s {
        None => {
            assert(b[head.len() as int] == 0);
        },
        Some(t) => {
            assert(b[head.len() as int] == 1);
            law_text_round_trip(head.push(1), t, rest);
            assert(b =~= head.push(1) + text_bytes(t) + rest);
        },
    }
}

/// An optional number reads back as it was written.
pub proof fn law_opt_number_round_trip(head: Seq<u8>, v: Option<u64>, rest: Seq<u8>)
    ensures
        opt_number_at(head + opt_number_bytes(v) + rest, head.len() as int) == (
            match v {
                Some(n) => Some(Some(n as int)),
                None => Some(None),
            },
            (head + opt_number_bytes(v)).len() as int,
        ),
{
    let b = head + opt_number_bytes(v) + rest;
    match v {
        None => {
            assert(b[head.len() as int] == 0);
        },
        Some(n) => {
            assert(b[head.len() as int] == 1);
            lemma_spans();
            lemma_le_len(n as int, 8);
            law_number_round_trip(head.push(1), n as int, 8, rest);
            assert(b =~= head.push(1) + le(n as int, 8) + rest);
        },
    }
}

/// Two headers are equal only for the same params, log length and log hash.
pub proof fn law_header_is_identity(p1: u64, l1: u64, h1: u64, p2: u64, l2: u64, h2: u64)
    requires
        header_bytes(p1, l1, h1) == header_bytes(p2, l2, h2),
    ensures
        p1 == p2,
        l1 == l2,
        h1 == h2,
{
    let a = header_bytes(p1, l1, h1);
    let b = header_bytes(p2, l2, h2);
    lemma_spans();
    lemma_le_len(SNAP_REV as int, 4);
    lemma_le(p1 as int, 8);
    lemma_le(p2 as int, 8);
    lemma_le(l1 as int, 8);
    lemma_le(l2 as int, 8);
    lemma_le(h1 as int, 8);
    lemma_le(h2 as int, 8);
    assert(a.subrange(8, 16) =~= le(p1 as int, 8));
    assert(b.subrange(8, 16) =~= le(p2 as int, 8));
    assert(a.subrange(16, 24) =~= le(l1 as int, 8));
    assert(b.subrange(16, 24) =~= le(l2 as int, 8));
    assert(a.subrange(24, 32) =~= le(h1 as int, 8));
    assert(b.subrange(24, 32) =~= le(h2 as int, 8));
}

/// Numbers are written lowest byte first: the byte at a place counts how often that power of
/// 256 goes into the number, round the byte.
pub proof fn law_the_lowest_byte_comes_first(v: int, n: nat)
    requires
        0 <= v,
    ensures
        le(v, n).len() == n,
        n >= 1 ==> le(v, n)[0] as int == v % 256,
        n >= 1 ==> le(v, n).drop_first() == le(v / 256, (n - 1) as nat),
        v < 256 && n >= 1 ==> forall|i: int| 1 <= i < n ==> #[trigger] le(v, n)[i] == 0,
    decreases n,
{
    if n >= 1 {
        law_the_lowest_byte_comes_first(v / 256, (n - 1) as nat);
        assert(le(v, n).drop_first() =~= le(v / 256, (n - 1) as nat));
        if v < 256 {
            let rest = le(v / 256, (n - 1) as nat);
            assert forall|i: int| 1 <= i < n implies #[trigger] le(v, n)[i] == 0 by {
                assert(le(v, n)[i] == rest[i - 1]);
                if i - 1 >= 1 {
                    assert(rest[i - 1] == 0);
                }
            }
        }
    }
}

/// A header tells the format, its revision, the parameters and the log, in this order, in 32
/// bytes.
pub proof fn law_the_header_tells_what_it_is_of(params_fnv: u64, log_len: u64, log_fnv: u64)
    ensures
        ({
            let h = header_bytes(params_fnv, log_len, log_fnv);
            &&& h.len() == 32
            &&& h.take(4) == seq!['M' as u8, 'N' as u8, 'S' as u8, 'N' as u8]
            &&& value(h.subrange(4, 8)) == SNAP_REV
            &&& value(h.subrange(8, 16)) == params_fnv
            &&& value(h.subrange(16, 24)) == log_len
            &&& value(h.subrange(24, 32)) == log_fnv
        }),
{
    let h = header_bytes(params_fnv, log_len, log_fnv);
    lemma_spans();
    lemma_le(SNAP_REV as int, 4);
    lemma_le(params_fnv as int, 8);
    lemma_le(log_len as int, 8);
    lemma_le(log_fnv as int, 8);
    assert(h.take(4) =~= seq!['M' as u8, 'N' as u8, 'S' as u8, 'N' as u8]);
    assert(h.subrange(4, 8) =~= le(SNAP_REV as int, 4));
    assert(h.subrange(8, 16) =~= le(params_fnv as int, 8));
    assert(h.subrange(16, 24) =~= le(log_len as int, 8));
    assert(h.subrange(24, 32) =~= le(log_fnv as int, 8));
}

/// One more byte turns a hash into the product with the prime of what the byte makes of it.
pub proof fn law_one_more_byte(h: u64, bytes: Seq<u8>, b: u8)
    ensures
        hashed_on(h, Seq::empty()) == h,
        hashed_on(h, bytes.push(b)) as int == ((hashed_on(h, bytes) ^ b as u64) * 1_099_511_628_211int)
            % 0x1_0000_0000_0000_0000,
{
    assert(bytes.push(b).drop_last() =~= bytes);
}

/// What is cut short is not read: a text or a list of tokens that the bytes do not hold whole
/// gives nothing.
pub proof fn law_what_is_cut_short_is_not_read(b: Seq<u8>, i: int)
    requires
        0 <= i,
    ensures
        i + 4 > b.len() ==> text_at(b, i).0 is None && toks_at(b, i).0 is None,
        i + 4 <= b.len() && i + 4 + value(b.subrange(i, i + 4)) > b.len() ==> text_at(b, i).0 is None,
        i >= b.len() ==> opt_text_at(b, i).0 is None && opt_number_at(b, i).0 is None,
        i < b.len() < i + 9 && b[i] != 0 ==> opt_number_at(b, i).0 is None,
{
}

} // verus!
