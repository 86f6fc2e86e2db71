//! Text as a sequence of characters.
use vstd::prelude::*;

verus! {

/// Whether Unicode counts the character as white space.
pub open spec fn char_is_whitespace(c: char) -> bool {
    let u = c as int;
    ||| 0x9 <= u <= 0xd
    ||| u == 0x20
    ||| u == 0x85
    ||| u == 0xa0
    ||| u == 0x1680
    ||| 0x2000 <= u <= 0x200a
    ||| 0x2028 <= u <= 0x2029
    ||| u == 0x202f
    ||| u == 0x205f
    ||| u == 0x3000
}

/// Whether Unicode counts the character as a letter or a number.
pub uninterp spec fn char_is_alphanumeric(c: char) -> bool;

/// `char::is_whitespace`: the character has the property White_Space of Unicode, which these
/// characters have and no others.
#[verifier::external_body]
pub(crate) fn is_whitespace(c: char) -> (r: bool)
    ensures
        r == char_is_whitespace(c),
{
    c.is_whitespace()
}

/// `char::is_alphanumeric`: a fixed property of the character, which is named here.
#[verifier::external_body]
pub(crate) fn is_alphanumeric(c: char) -> (r: bool)
    ensures
        r == char_is_alphanumeric(c),
{
    c.is_alphanumeric()
}

/// `String::push`: the character stands behind the text.
pub assume_specification[ String::push ](s: &mut String, ch: char)
    ensures
        final(s)@ == old(s)@.push(ch),
;

/// The string made of characters.
pub(crate) fn string_of(chars: &Vec<char>) -> (r: String)
    ensures
        r@ == chars@,
{
    let mut r = String::new();
    let mut i: usize = 0;
    proof {
        assert(r@ =~= chars@.take(0));
    }
    while i < chars.len()
        invariant
            i <= chars.len(),
            r@ == chars@.take(i as int),
        decreases chars.len() - i,
    {
        r.push(chars[i]);
        proof {
            assert(chars@.take(i + 1) =~= chars@.take(i as int).push(chars@[i as int]));
        }
        i += 1;
    }
    proof {
        assert(chars@.take(i as int) =~= chars@);
    }
    r
}

/// The characters of a string.
pub fn chars_of(s: &str) -> (r: Vec<char>)
    ensures
        r@ == s@,
{
    let mut r: Vec<char> = Vec::new();
    for c in it: s.chars()
        invariant
            r@ == it.seq().take(it.index()),
    {
        r.push(c);
    }
    proof {
        assert(r@ =~= s@);
    }
    r
}

/// Without leading white space.
pub open spec fn trimmed_start(s: Seq<char>) -> Seq<char>
    decreases s.len(),
{
    if s.len() > 0 && char_is_whitespace(s[0]) {
        trimmed_start(s.drop_first())
    } else {
        s
    }
}

/// Without trailing white space.
pub open spec fn trimmed_end(s: Seq<char>) -> Seq<char>
    decreases s.len(),
{
    if s.len() > 0 && char_is_whitespace(s.last()) {
        trimmed_end(s.drop_last())
    } else {
        s
    }
}

/// Without white space at either end.
pub open spec fn trimmed(s: Seq<char>) -> Seq<char> {
    trimmed_end(trimmed_start(s))
}

proof fn lemma_trimmed_start_len(s: Seq<char>)
    ensures
        trimmed_start(s).len() <= s.len(),
    decreases s.len(),
{
    if s.len() > 0 && char_is_whitespace(s[0]) {
        lemma_trimmed_start_len(s.drop_first());
    }
}

proof fn lemma_trimmed_end_len(s: Seq<char>)
    ensures
        trimmed_end(s).len() <= s.len(),
    decreases s.len(),
{
    if s.len() > 0 && char_is_whitespace(s.last()) {
        lemma_trimmed_end_len(s.drop_last());
    }
}

/// Trimming makes nothing longer.
pub proof fn lemma_trimmed_len(s: Seq<char>)
    ensures
        trimmed(s).len() <= s.len(),
{
    lemma_trimmed_start_len(s);
    lemma_trimmed_end_len(trimmed_start(s));
}

/// A part of a vector.
pub fn slice_of(v: &Vec<char>, lo: usize, hi: usize) -> (r: Vec<char>)
    requires
        lo <= hi <= v.len(),
    ensures
        r@ == v@.subrange(lo as int, hi as int),
{
    let mut r: Vec<char> = Vec::new();
    let mut i: usize = lo;
    while i < hi
        invariant
            lo <= i <= hi <= v.len(),
            r@ == v@.subrange(lo as int, i as int),
        decreases hi - i,
    {
        r.push(v[i]);
        proof {
            assert(v@.subrange(lo as int, i + 1) =~= v@.subrange(lo as int, i as int).push(
                v@[i as int],
            ));
        }
        i += 1;
    }
    r
}

/// Removes white space at both ends.
pub fn trim_chars(v: &Vec<char>) -> (r: Vec<char>)
    ensures
        r@ == trimmed(v@),
{
    let n: usize = v.len();
    let mut lo: usize = 0;
    proof {
        assert(v@.subrange(0, n as int) =~= v@);
    }
    while lo < n && is_whitespace(v[lo])
        invariant
            lo <= n,
            n == v.len(),
            trimmed_start(v@) == trimmed_start(v@.subrange(lo as int, n as int)),
        decreases n - lo,
    {
        proof {
            assert(v@.subrange(lo as int, n as int).drop_first() =~= v@.subrange(
                lo + 1,
                n as int,
            ));
        }
        lo += 1;
    }
    let mut hi: usize = n;
    while hi > lo && is_whitespace(v[hi - 1])
        invariant
            lo <= hi <= n,
            n == v.len(),
            trimmed(v@) == trimmed_end(v@.subrange(lo as int, hi as int)),
        decreases hi,
    {
        proof {
            assert(v@.subrange(lo as int, hi as int).drop_last() =~= v@.subrange(
                lo as int,
                hi - 1,
            ));
        }
        hi -= 1;
    }
    slice_of(v, lo, hi)
}

/// Removes white space at both ends.
pub fn trim(s: &str) -> (r: String)
    ensures
        r@ == trimmed(s@),
{
    string_of(&trim_chars(&chars_of(s)))
}

/// Whether nothing but white space is left of the text.
pub fn is_blank(s: &str) -> (r: bool)
    ensures
        r == (trimmed(s@).len() == 0),
{
    trim_chars(&chars_of(s)).len() == 0
}

/// The text holds `pat`.
pub open spec fn holds(s: Seq<char>, pat: Seq<char>) -> bool {
    exists|i: int|
        0 <= i && i + pat.len() <= s.len() && #[trigger] s.subrange(i, i + pat.len()) == pat
}

/// Whether two vectors of characters are equal.
pub fn same_chars(a: &Vec<char>, b: &Vec<char>) -> (r: bool)
    ensures
        r == (a@ == b@),
{
    if a.len() != b.len() {
        return false;
    }
    let mut i: usize = 0;
    while i < a.len()
        invariant
            i <= a.len(),
            a.len() == b.len(),
            forall|k: int| 0 <= k < i ==> a[k] == b[k],
        decreases a.len() - i,
    {
        if a[i] != b[i] {
            return false;
        }
        i += 1;
    }
    proof {
        assert(a@ =~= b@);
    }
    true
}

/// Whether the text holds `pat`.
pub fn contains(s: &str, pat: &str) -> (r: bool)
    ensures
        r == holds(s@, pat@),
{
    let a = chars_of(s);
    let b = chars_of(pat);
    if b.len() > a.len() {
        return false;
    }
    let last: usize = a.len() - b.len();
    let mut i: usize = 0;
    loop
        invariant
            a@ == s@,
            b@ == pat@,
            b.len() <= a.len(),
            last == a.len() - b.len(),
            i <= last,
            forall|k: int|
                0 <= k < i ==> #[trigger] s@.subrange(k, k + pat@.len()) != pat@,
        decreases last - i,
    {
        let part = slice_of(&a, i, i + b.len());
        if same_chars(&part, &b) {
            assert(s@.subrange(i as int, i + pat@.len()) == pat@);
            return true;
        }
        if i == last {
            return false;
        }
        i += 1;
    }
}

/// Dictionary order by character.
pub open spec fn word_lt(a: Seq<char>, b: Seq<char>) -> bool
    decreases a.len(),
{
    if b.len() == 0 {
        false
    } else if a.len() == 0 {
        true
    } else if a[0] != b[0] {
        (a[0] as int) < (b[0] as int)
    } else {
        word_lt(a.drop_first(), b.drop_first())
    }
}

pub proof fn lemma_word_irreflexive(a: Seq<char>)
    ensures
        !word_lt(a, a),
    decreases a.len(),
{
    if a.len() > 0 {
        lemma_word_irreflexive(a.drop_first());
    }
}

/// Of two different words exactly one comes first.
pub proof fn lemma_word_total(a: Seq<char>, b: Seq<char>)
    requires
        a != b,
    ensures
        word_lt(a, b) != word_lt(b, a),
    decreases a.len(),
{
    if a.len() > 0 && b.len() > 0 && a[0] == b[0] {
        assert(a.drop_first() != b.drop_first()) by {
            if a.drop_first() == b.drop_first() {
                assert(a =~= seq![a[0]] + a.drop_first());
                assert(b =~= seq![b[0]] + b.drop_first());
            }
        }
        lemma_word_total(a.drop_first(), b.drop_first());
    } else if a.len() == 0 && b.len() == 0 {
        assert(a =~= b);
    }
}

pub proof fn lemma_word_trans(a: Seq<char>, b: Seq<char>, c: Seq<char>)
    requires
        word_lt(a, b),
        word_lt(b, c),
    ensures
        word_lt(a, c),
    decreases a.len(),
{
    if a.len() > 0 && b.len() > 0 && c.len() > 0 && a[0] == b[0] && b[0] == c[0] {
        lemma_word_trans(a.drop_first(), b.drop_first(), c.drop_first());
    }
}

/// The code point of a character.
pub fn code(c: char) -> (r: u32)
    ensures
        r == c as int,
{
    c as u32
}

/// Whether a word comes before another in dictionary order.
pub fn word_before(a: &Vec<char>, b: &Vec<char>) -> (r: bool)
    ensures
        r == word_lt(a@, b@),
{
    let mut i: usize = 0;
    proof {
        assert(a@.subrange(0, a.len() as int) =~= a@);
        assert(b@.subrange(0, b.len() as int) =~= b@);
    }
    while i < a.len() && i < b.len() && a[i] == b[i]
        invariant
            i <= a.len(),
            i <= b.len(),
            word_lt(a@, b@) == word_lt(
                a@.subrange(i as int, a.len() as int),
                b@.subrange(i as int, b.len() as int),
            ),
        decreases a.len() - i,
    {
        proof {
            assert(a@.subrange(i as int, a.len() as int).drop_first() =~= a@.subrange(
                i + 1,
                a.len() as int,
            ));
            assert(b@.subrange(i as int, b.len() as int).drop_first() =~= b@.subrange(
                i + 1,
                b.len() as int,
            ));
        }
        i += 1;
    }
    if i < a.len() && i < b.len() {
        let x: char = a[i];
        let y: char = b[i];
        code(x) < code(y)
    } else {
        i < b.len()
    }
}

/// Strictly ascending words.
pub open spec fn ascending(ws: Seq<Seq<char>>) -> bool {
    forall|i: int, j: int| 0 <= i < j < ws.len() ==> word_lt(#[trigger] ws[i], #[trigger] ws[j])
}

proof fn lemma_ascending_rest(a: Seq<Seq<char>>)
    requires
        ascending(a),
        a.len() > 0,
    ensures
        ascending(a.drop_first()),
        forall|w: Seq<char>| #[trigger]
            a.drop_first().contains(w) <==> a.contains(w) && w != a[0],
{
    let r = a.drop_first();
    assert forall|i: int, j: int| 0 <= i < j < r.len() implies word_lt(
        #[trigger] r[i],
        #[trigger] r[j],
    ) by {
        assert(word_lt(a[i + 1], a[j + 1]));
    }
    assert forall|w: Seq<char>| #[trigger] r.contains(w) <==> a.contains(w) && w != a[0] by {
        if r.contains(w) {
            let k = choose|k: int| 0 <= k < r.len() && r[k] == w;
            assert(a[k + 1] == w);
            assert(word_lt(a[0], a[k + 1]));
            lemma_word_irreflexive(w);
        }
        if a.contains(w) && w != a[0] {
            let k = choose|k: int| 0 <= k < a.len() && a[k] == w;
            assert(r[k - 1] == w);
        }
    }
}

/// A list in dictionary order is determined by what it holds.
pub proof fn lemma_ascending_unique(a: Seq<Seq<char>>, b: Seq<Seq<char>>)
    requires
        ascending(a),
        ascending(b),
        forall|w: Seq<char>| #[trigger] a.contains(w) <==> b.contains(w),
    ensures
        a == b,
    decreases a.len(),
{
    if a.len() == 0 {
        if b.len() > 0 {
            assert(b.contains(b[0]));
            assert(a.contains(b[0]));
        }
        assert(a =~= b);
    } else {
        assert(a.contains(a[0]));
        assert(b.contains(a[0]));
        let j = choose|j: int| 0 <= j < b.len() && b[j] == a[0];
        assert(b.contains(b[0]));
        assert(a.contains(b[0]));
        let i = choose|i: int| 0 <= i < a.len() && a[i] == b[0];
        if i > 0 && j > 0 {
            assert(word_lt(a[0], a[i]));
            assert(word_lt(b[0], b[j]));
            lemma_word_trans(a[0], b[0], a[0]);
            lemma_word_irreflexive(a[0]);
        }
        assert(a[0] == b[0]);
        lemma_ascending_rest(a);
        lemma_ascending_rest(b);
        assert forall|w: Seq<char>| #[trigger] a.drop_first().contains(w)
            <==> b.drop_first().contains(w) by {
            assert(a.contains(w) <==> b.contains(w));
        }
        lemma_ascending_unique(a.drop_first(), b.drop_first());
        assert(a =~= seq![a[0]] + a.drop_first());
        assert(b =~= seq![b[0]] + b.drop_first());
    }
}

/// The texts of a list of words.
pub open spec fn views(ws: Seq<Vec<char>>) -> Seq<Seq<char>> {
    ws.map_values(|w: Vec<char>| w@)
}

/// The texts of a list of strings.
pub open spec fn texts(ws: Seq<String>) -> Seq<Seq<char>> {
    ws.map_values(|w: String| w@)
}

/// The words in dictionary order, each once.
pub fn sort_words(words: &Vec<String>) -> (r: Vec<Vec<char>>)
    ensures
        ascending(views(r@)),
        forall|w: Seq<char>| views(r@).contains(w) <==> texts(words@).contains(w),
{
    let mut r: Vec<Vec<char>> = Vec::new();
    let mut i: usize = 0;
    while i < words.len()
        invariant
            i <= words.len(),
            ascending(views(r@)),
            forall|k: int| 0 <= k < i ==> views(r@).contains(#[trigger] words[k]@),
            forall|k: int|
                0 <= k < r.len() ==> exists|j: int| 0 <= j < i && words[j]@ == #[trigger] r[k]@,
        decreases words.len() - i,
    {
        let w = chars_of(words[i].as_str());
        let ghost before = views(r@);
        let mut k: usize = 0;
        while k < r.len() && word_before(&r[k], &w)
            invariant
                k <= r.len(),
                forall|x: int| 0 <= x < k ==> word_lt(#[trigger] r[x]@, w@),
            decreases r.len() - k,
        {
            k += 1;
        }
        let found: bool = k < r.len() && same_chars(&r[k], &w);
        proof {
            if k < r.len() && !found {
                lemma_word_total(r[k as int]@, w@);
            }
        }
        if found {
            proof {
                assert(views(r@)[k as int] == w@);
                assert forall|m: int| 0 <= m < i + 1 implies views(r@).contains(
                    #[trigger] words[m]@,
                ) by {}
                assert forall|m: int| 0 <= m < r.len() implies exists|j: int|
                    0 <= j < i + 1 && words[j]@ == #[trigger] r[m]@ by {
                    let j = choose|j: int| 0 <= j < i && words[j]@ == r[m]@;
                    assert(words[j]@ == r[m]@);
                }
            }
        } else {
            let ghost old_r = r@;
            r.insert(k, w);
            proof {
                assert(r@[k as int]@ == words[i as int]@);
                assert forall|a: int, b: int| 0 <= a < b < r.len() implies word_lt(
                    #[trigger] views(r@)[a],
                    #[trigger] views(r@)[b],
                ) by {
                    if a < k && b == k {
                        assert(word_lt(old_r[a]@, w@));
                    } else if a == k && b > k {
                        assert(before[b - 1] == old_r[b - 1]@);
                        assert(word_lt(w@, old_r[k as int]@));
                        if b - 1 > k {
                            assert(word_lt(before[k as int], before[b - 1]));
                            lemma_word_trans(w@, old_r[k as int]@, old_r[b - 1]@);
                        }
                    } else if b < k {
                        assert(word_lt(before[a], before[b]));
                    } else if a < k {
                        assert(word_lt(before[a], before[b - 1]));
                    } else {
                        assert(word_lt(before[a - 1], before[b - 1]));
                    }
                }
                assert forall|m: int| 0 <= m < i + 1 implies views(r@).contains(
                    #[trigger] words[m]@,
                ) by {
                    if m == i {
                        assert(views(r@)[k as int] == words[m]@);
                    } else {
                        let x = choose|x: int| 0 <= x < before.len() && before[x] == words[m]@;
                        if x < k {
                            assert(views(r@)[x] == words[m]@);
                        } else {
                            assert(views(r@)[x + 1] == words[m]@);
                        }
                    }
                }
                assert forall|m: int| 0 <= m < r.len() implies exists|j: int|
                    0 <= j < i + 1 && words[j]@ == #[trigger] r[m]@ by {
                    if m == k {
                        assert(words[i as int]@ == r[m]@);
                    } else {
                        let x = if m < k {
                            m
                        } else {
                            m - 1
                        };
                        assert(r[m] == old_r[x]);
                        let j = choose|j: int| 0 <= j < i && words[j]@ == old_r[x]@;
                        assert(words[j]@ == r[m]@);
                    }
                }
            }
        }
        i += 1;
    }
    proof {
        assert forall|w: Seq<char>| views(r@).contains(w) <==> texts(words@).contains(w) by {
            if views(r@).contains(w) {
                let k = choose|k: int| 0 <= k < views(r@).len() && views(r@)[k] == w;
                assert(r[k]@ == w);
                let j = choose|j: int| 0 <= j < i && words[j]@ == r[k]@;
                assert(texts(words@)[j] == w);
            }
            if texts(words@).contains(w) {
                let j = choose|j: int| 0 <= j < texts(words@).len() && texts(words@)[j] == w;
                assert(words[j]@ == w);
            }
        }
    }
    r
}

/// The decimal digits of a number.
pub open spec fn digits(n: nat) -> Seq<char>
    decreases n,
{
    if n < 10 {
        seq![(48 + n) as char]
    } else {
        digits(n / 10).push((48 + n % 10) as char)
    }
}

fn digit(d: u8) -> (c: char)
    requires
        d < 10,
    ensures
        c == (48 + d) as char,
{
    (48 + d) as char
}

/// Writes a number in decimal.
pub fn decimal(n: u64) -> (r: Vec<char>)
    ensures
        r@ == digits(n as nat),
    decreases n,
{
    if n < 10 {
        return vec![digit(n as u8)];
    }
    let mut r = decimal(n / 10);
    r.push(digit((n % 10) as u8));
    r
}

/// A text in front of which `fill` stands as often as needed for a width.
pub open spec fn padded(s: Seq<char>, width: int, fill: char) -> Seq<char>
    decreases width - s.len(),
{
    if s.len() >= width {
        s
    } else {
        padded(seq![fill] + s, width, fill)
    }
}

/// Writes a number in decimal with leading zeros up to a width.
pub fn zero_padded(n: u64, width: usize) -> (r: Vec<char>)
    ensures
        r@ == padded(digits(n as nat), width as int, '0'),
{
    let mut r = decimal(n);
    while r.len() < width
        invariant
            padded(r@, width as int, '0') == padded(digits(n as nat), width as int, '0'),
        decreases width - r.len(),
    {
        let ghost before = r@;
        r.insert(0, '0');
        proof {
            assert(r@ =~= seq!['0'] + before);
        }
    }
    r
}

/// Puts a string behind a vector of characters.
pub fn put_str(out: &mut Vec<char>, s: &str)
    ensures
        final(out)@ == old(out)@ + s@,
{
    let mut add = chars_of(s);
    out.append(&mut add);
}

/// Puts characters behind a vector of characters.
pub fn put(out: &mut Vec<char>, s: &Vec<char>)
    ensures
        final(out)@ == old(out)@ + s@,
{
    let mut i: usize = 0;
    while i < s.len()
        invariant
            i <= s.len(),
            out@ == old(out)@ + s@.subrange(0, i as int),
        decreases s.len() - i,
    {
        out.push(s[i]);
        proof {
            assert(s@.subrange(0, i + 1) =~= s@.subrange(0, i as int).push(s@[i as int]));
        }
        i += 1;
    }
    proof {
        assert(s@.subrange(0, i as int) =~= s@);
    }
}

/// The texts with a separator between them.
pub open spec fn joined(parts: Seq<Seq<char>>, sep: Seq<char>) -> Seq<char>
    decreases parts.len(),
{
    if parts.len() == 0 {
        Seq::empty()
    } else if parts.len() == 1 {
        parts[0]
    } else {
        joined(parts.drop_last(), sep) + sep + parts.last()
    }
}

/// Puts strings with a separator between them behind a vector of characters.
pub fn put_joined(out: &mut Vec<char>, parts: &Vec<String>, sep: &str)
    ensures
        final(out)@ == old(out)@ + joined(texts(parts@), sep@),
{
    let ghost all = texts(parts@);
    let mut i: usize = 0;
    proof {
        assert(out@ + joined(all.subrange(0, 0), sep@) =~= out@);
    }
    while i < parts.len()
        invariant
            i <= parts.len(),
            all == texts(parts@),
            out@ == old(out)@ + joined(all.subrange(0, i as int), sep@),
        decreases parts.len() - i,
    {
        if i > 0 {
            put_str(out, sep);
        }
        put_str(out, parts[i].as_str());
        proof {
            assert(all.subrange(0, i + 1).drop_last() =~= all.subrange(0, i as int));
            assert(all.subrange(0, i + 1).last() == parts[i as int]@);
            assert(out@ =~= old(out)@ + joined(all.subrange(0, i + 1), sep@));
        }
        i += 1;
    }
    proof {
        assert(all.subrange(0, i as int) =~= all);
    }
}

/// Trimming takes white space from the two ends and nothing else: the rest is a stretch of the
/// text with only white space around it, and begins and ends with something else.
pub proof fn law_trimming_takes_white_space_only(s: Seq<char>) -> (r: (int, int))
    ensures
        0 <= r.0 <= r.1 <= s.len(),
        trimmed(s) == s.subrange(r.0, r.1),
        forall|i: int| 0 <= i < r.0 ==> char_is_whitespace(#[trigger] s[i]),
        forall|i: int| r.1 <= i < s.len() ==> char_is_whitespace(#[trigger] s[i]),
        r.0 < r.1 ==> !char_is_whitespace(s[r.0]) && !char_is_whitespace(s[r.1 - 1]),
        trimmed(s).len() == 0 <==> forall|i: int|
            0 <= i < s.len() ==> char_is_whitespace(#[trigger] s[i]),
{
    let a = lemma_trimmed_start_at(s);
    let t = trimmed_start(s);
    let b = lemma_trimmed_end_at(t);
    assert(trimmed(s) =~= s.subrange(a, a + b));
    assert forall|i: int| a + b <= i < s.len() implies char_is_whitespace(#[trigger] s[i]) by {
        assert(t[i - a] == s[i]);
    }
    if 0 < b {
        assert(t[0] == s[a]);
        assert(t[b - 1] == s[a + b - 1]);
    }
    (a, a + b)
}

proof fn lemma_trimmed_start_at(s: Seq<char>) -> (a: int)
    ensures
        0 <= a <= s.len(),
        trimmed_start(s) == s.subrange(a, s.len() as int),
        forall|i: int| 0 <= i < a ==> char_is_whitespace(#[trigger] s[i]),
        a < s.len() ==> !char_is_whitespace(s[a]),
    decreases s.len(),
{
    if s.len() > 0 && char_is_whitespace(s[0]) {
        let t = s.drop_first();
        let a = lemma_trimmed_start_at(t);
        assert(t.subrange(a, t.len() as int) =~= s.subrange(a + 1, s.len() as int));
        assert forall|i: int| 0 <= i < a + 1 implies char_is_whitespace(#[trigger] s[i]) by {
            if i > 0 {
                assert(t[i - 1] == s[i]);
            }
        }
        a + 1
    } else {
        assert(s.subrange(0, s.len() as int) =~= s);
        0
    }
}

proof fn lemma_trimmed_end_at(s: Seq<char>) -> (b: int)
    ensures
        0 <= b <= s.len(),
        trimmed_end(s) == s.subrange(0, b),
        forall|i: int| b <= i < s.len() ==> char_is_whitespace(#[trigger] s[i]),
        b > 0 ==> !char_is_whitespace(s[b - 1]),
    decreases s.len(),
{
    if s.len() > 0 && char_is_whitespace(s.last()) {
        let t = s.drop_last();
        let b = lemma_trimmed_end_at(t);
        assert(t.subrange(0, b) =~= s.subrange(0, b));
        assert forall|i: int| b <= i < s.len() implies char_is_whitespace(#[trigger] s[i]) by {
            if i < t.len() {
                assert(t[i] == s[i]);
            }
        }
        b
    } else {
        assert(s.subrange(0, s.len() as int) =~= s);
        s.len() as int
    }
}

/// The number that decimal digits stand for.
pub open spec fn number(s: Seq<char>) -> int
    decreases s.len(),
{
    if s.len() == 0 {
        0
    } else {
        10 * number(s.drop_last()) + (s.last() as int - '0' as int)
    }
}

/// A number is written in the digits that read back as it, without a zero in front, but for
/// zero itself.
pub proof fn law_digits_read_back(n: nat)
    ensures
        number(digits(n)) == n,
        digits(n).len() > 0,
        forall|i: int|
            0 <= i < digits(n).len() ==> '0' as int <= #[trigger] digits(n)[i] as int <= '9' as int,
        n > 0 ==> digits(n)[0] != '0',
    decreases n,
{
    reveal_with_fuel(number, 2);
    if n >= 10 {
        law_digits_read_back(n / 10);
        let front = digits(n / 10);
        let last = (48 + n % 10) as char;
        assert(digits(n).drop_last() =~= front);
        assert(digits(n).last() == last);
        assert(last as int == 48 + n % 10);
        assert forall|i: int| 0 <= i < digits(n).len() implies '0' as int
            <= #[trigger] digits(n)[i] as int <= '9' as int by {
            if i < front.len() {
                assert(digits(n)[i] == front[i]);
            }
        }
        assert(digits(n)[0] == front[0]);
    } else {
        assert(digits(n).drop_last() =~= Seq::empty());
        assert((48 + n) as char as int == 48 + n);
    }
}

/// Filling up a text puts as many characters in front of it as are missing.
pub proof fn law_padding_fills_the_front(s: Seq<char>, width: int, fill: char)
    ensures
        s.len() >= width ==> padded(s, width, fill) == s,
        s.len() < width ==> padded(s, width, fill) == Seq::new(
            (width - s.len()) as nat,
            |i: int| fill,
        ) + s,
    decreases width - s.len(),
{
    if s.len() < width {
        law_padding_fills_the_front(seq![fill] + s, width, fill);
        assert(padded(s, width, fill) =~= Seq::new((width - s.len()) as nat, |i: int| fill) + s);
    }
}

/// Texts can be joined in parts: the separator stands between the parts, and nowhere else.
pub proof fn law_joining_in_parts(a: Seq<Seq<char>>, b: Seq<Seq<char>>, sep: Seq<char>)
    requires
        a.len() > 0,
        b.len() > 0,
    ensures
        joined(a + b, sep) == joined(a, sep) + sep + joined(b, sep),
        joined(Seq::empty(), sep) == Seq::<char>::empty(),
        forall|t: Seq<char>| #[trigger] joined(seq![t], sep) == t,
    decreases b.len(),
{
    assert((a + b).drop_last() =~= a + b.drop_last());
    assert((a + b).last() == b.last());
    if b.len() == 1 {
        assert(a + b.drop_last() =~= a);
    } else {
        law_joining_in_parts(a, b.drop_last(), sep);
    }
    assert(joined(a + b, sep) =~= joined(a, sep) + sep + joined(b, sep));
}

/// Words stand as in a dictionary: behind what they have in common, the smaller one ends, or
/// goes on with the smaller character.
pub proof fn law_words_stand_as_in_a_dictionary(a: Seq<char>, b: Seq<char>)
    ensures
        word_lt(a, b) <==> exists|k: int|
            {
                &&& 0 <= k <= a.len()
                &&& k < b.len()
                &&& #[trigger] a.take(k) == b.take(k)
                &&& k == a.len() || (a[k] as int) < (b[k] as int)
            },
    decreases a.len(),
{
    if a.len() > 0 && b.len() > 0 && a[0] == b[0] {
        let x = a.drop_first();
        let y = b.drop_first();
        law_words_stand_as_in_a_dictionary(x, y);
        if word_lt(x, y) {
            let k = choose|k: int|
                {
                    &&& 0 <= k <= x.len()
                    &&& k < y.len()
                    &&& #[trigger] x.take(k) == y.take(k)
                    &&& k == x.len() || (x[k] as int) < (y[k] as int)
                };
            let p = a.take(k + 1);
            let q = b.take(k + 1);
            assert forall|i: int| 0 <= i < k + 1 implies p[i] == q[i] by {
                if i > 0 {
                    assert(x.take(k)[i - 1] == y.take(k)[i - 1]);
                }
            }
            assert(p =~= q);
        }
        if exists|k: int|
            {
                &&& 0 <= k <= a.len()
                &&& k < b.len()
                &&& #[trigger] a.take(k) == b.take(k)
                &&& k == a.len() || (a[k] as int) < (b[k] as int)
            } {
            let k = choose|k: int|
                {
                    &&& 0 <= k <= a.len()
                    &&& k < b.len()
                    &&& #[trigger] a.take(k) == b.take(k)
                    &&& k == a.len() || (a[k] as int) < (b[k] as int)
                };
            let p = x.take(k - 1);
            let q = y.take(k - 1);
            assert forall|i: int| 0 <= i < k - 1 implies p[i] == q[i] by {
                assert(a.take(k)[i + 1] == b.take(k)[i + 1]);
            }
            assert(p =~= q);
        }
    } else if word_lt(a, b) {
        assert(a.take(0) =~= b.take(0));
    } else {
        assert forall|k: int|
            0 <= k <= a.len() && k < b.len() && #[trigger] a.take(k) == b.take(k) implies k
            < a.len() && a[k] as int >= b[k] as int by {
            if k > 0 {
                assert(a.take(k)[0] == b.take(k)[0]);
            }
        }
    }
}

/// What stands between two texts is held by them together.
pub proof fn lemma_holds_part(pre: Seq<char>, mid: Seq<char>, post: Seq<char>)
    ensures
        holds(pre + mid + post, mid),
{
    let s = pre + mid + post;
    let i = pre.len() as int;
    assert(s.subrange(i, i + mid.len()) =~= mid);
}

/// A longer text holds what its beginning holds.
pub proof fn lemma_holds_more(s: Seq<char>, post: Seq<char>, pat: Seq<char>)
    requires
        holds(s, pat),
    ensures
        holds(s + post, pat),
{
    let i = choose|i: int|
        0 <= i && i + pat.len() <= s.len() && #[trigger] s.subrange(i, i + pat.len()) == pat;
    assert((s + post).subrange(i, i + pat.len()) =~= s.subrange(i, i + pat.len()));
}

/// A text holds its own end, made of two parts.
pub proof fn lemma_holds_two(pre: Seq<char>, a: Seq<char>, b: Seq<char>)
    ensures
        holds(pre + a + b, a + b),
{
    lemma_holds_part(pre, a + b, Seq::empty());
    assert(pre + (a + b) + Seq::empty() =~= pre + a + b);
}

/// A text holds its own end.
pub proof fn lemma_holds_end(pre: Seq<char>, a: Seq<char>)
    ensures
        holds(pre + a, a),
        holds(a, a),
{
    lemma_holds_part(pre, a, Seq::empty());
    assert(pre + a + Seq::empty() =~= pre + a);
    lemma_holds_part(Seq::empty(), a, Seq::empty());
    assert(Seq::empty() + a + Seq::empty() =~= a);
}

/// A text that goes on in three parts holds what its beginning holds.
pub proof fn lemma_holds_more3(
    s: Seq<char>,
    a: Seq<char>,
    b: Seq<char>,
    c: Seq<char>,
    pat: Seq<char>,
)
    requires
        holds(s, pat),
    ensures
        holds(s + a + b + c, pat),
{
    lemma_holds_more(s, a, pat);
    lemma_holds_more(s + a, b, pat);
    lemma_holds_more(s + a + b, c, pat);
}

/// A text holds what its end holds.
pub proof fn lemma_holds_behind(pre: Seq<char>, s: Seq<char>, pat: Seq<char>)
    requires
        holds(s, pat),
    ensures
        holds(pre + s, pat),
{
    let i = choose|i: int|
        0 <= i && i + pat.len() <= s.len() && #[trigger] s.subrange(i, i + pat.len()) == pat;
    let j = pre.len() + i;
    assert((pre + s).subrange(j, j + pat.len()) =~= s.subrange(i, i + pat.len()));
}

} // verus!
