//! Script classes of characters.
use crate::text;
use vstd::prelude::*;

verus! {

#[derive(Debug, Clone, Copy, PartialEq, Eq, Structural)]
pub enum Class {
    Ws,
    Punct,
    Latin,
    Digit,
    Hira,
    Kata,
    Han,
    Other,
}

pub open spec fn ascii_digit(u: int) -> bool {
    48 <= u <= 57
}

pub open spec fn ascii_letter(u: int) -> bool {
    65 <= u <= 90 || 97 <= u <= 122
}

pub open spec fn ascii_alphanumeric(u: int) -> bool {
    ascii_digit(u) || ascii_letter(u)
}

pub open spec fn ascii_punctuation(u: int) -> bool {
    33 <= u <= 47 || 58 <= u <= 64 || 91 <= u <= 96 || 123 <= u <= 126
}

/// The marks of Japanese text.
pub open spec fn mark(c: char) -> bool {
    c == '。' || c == '、' || c == '！' || c == '？' || c == '…' || c == '「' || c == '」' || c
        == '『' || c == '』' || c == '（' || c == '）' || c == '・'
}

/// The script class of a character. The prolonged sound mark is kept with katakana.
pub open spec fn class_of(c: char) -> Class {
    let u = c as int;
    if text::char_is_whitespace(c) {
        Class::Ws
    } else if ascii_digit(u) {
        Class::Digit
    } else if ascii_alphanumeric(u) {
        Class::Latin
    } else if c == 'ー' {
        Class::Kata
    } else if mark(c) || ascii_punctuation(u) {
        Class::Punct
    } else if 0x3040 <= u <= 0x309F {
        Class::Hira
    } else if 0x30A0 <= u <= 0x30FF || 0xFF66 <= u <= 0xFF9D {
        Class::Kata
    } else if 0x4E00 <= u <= 0x9FFF || 0x3400 <= u <= 0x4DBF {
        Class::Han
    } else {
        Class::Other
    }
}

/// The script class of a character.
pub fn class(c: char) -> (r: Class)
    ensures
        r == class_of(c),
{
    let u: u32 = text::code(c);
    if text::is_whitespace(c) {
        Class::Ws
    } else if is_ascii_digit(c) {
        Class::Digit
    } else if is_ascii_alphanumeric(c) {
        Class::Latin
    } else if c == 'ー' {
        Class::Kata
    } else if c == '。' || c == '、' || c == '！' || c == '？' || c == '…' || c == '「' || c == '」'
        || c == '『' || c == '』' || c == '（' || c == '）' || c == '・' {
        Class::Punct
    } else if (33 <= u && u <= 47) || (58 <= u && u <= 64) || (91 <= u && u <= 96) || (123 <= u && u
        <= 126) {
        Class::Punct
    } else if 0x3040 <= u && u <= 0x309F {
        Class::Hira
    } else if (0x30A0 <= u && u <= 0x30FF) || (0xFF66 <= u && u <= 0xFF9D) {
        Class::Kata
    } else if (0x4E00 <= u && u <= 0x9FFF) || (0x3400 <= u && u <= 0x4DBF) {
        Class::Han
    } else {
        Class::Other
    }
}

pub fn is_ascii_digit(c: char) -> (r: bool)
    ensures
        r == ascii_digit(c as int),
{
    let u: u32 = text::code(c);
    48 <= u && u <= 57
}

pub fn is_ascii_letter(c: char) -> (r: bool)
    ensures
        r == ascii_letter(c as int),
{
    let u: u32 = text::code(c);
    (65 <= u && u <= 90) || (97 <= u && u <= 122)
}

pub fn is_ascii_alphanumeric(c: char) -> (r: bool)
    ensures
        r == ascii_alphanumeric(c as int),
{
    let u: u32 = text::code(c);
    (48 <= u && u <= 57) || (65 <= u && u <= 90) || (97 <= u && u <= 122)
}

/// Written without spaces: kanji, hiragana and katakana.
pub open spec fn cjk(c: Class) -> bool {
    c == Class::Han || c == Class::Hira || c == Class::Kata
}

pub fn is_cjk(c: Class) -> (r: bool)
    ensures
        r == cjk(c),
{
    c == Class::Han || c == Class::Hira || c == Class::Kata
}

/// Nothing but punctuation.
pub open spec fn punct_only(s: Seq<char>) -> bool {
    forall|i: int| 0 <= i < s.len() ==> class_of(#[trigger] s[i]) == Class::Punct
}

/// Whether a text is nothing but punctuation.
pub fn is_punct_str(s: &str) -> (r: bool)
    ensures
        r == punct_only(s@),
{
    let v = text::chars_of(s);
    let mut i: usize = 0;
    while i < v.len()
        invariant
            v@ == s@,
            i <= v.len(),
            forall|k: int| 0 <= k < i ==> class_of(#[trigger] s@[k]) == Class::Punct,
        decreases v.len() - i,
    {
        if class(v[i]) != Class::Punct {
            assert(class_of(s@[i as int]) != Class::Punct);
            return false;
        }
        i += 1;
    }
    true
}

/// Kana or kanji.
pub open spec fn kana_or_cjk(c: char) -> bool {
    let u = c as int;
    0x3040 <= u <= 0x30ff || 0x3400 <= u <= 0x9fff || 0xff66 <= u <= 0xff9d
}

pub fn is_kana_or_cjk(c: char) -> (r: bool)
    ensures
        r == kana_or_cjk(c),
{
    let u: u32 = text::code(c);
    (0x3040 <= u && u <= 0x30ff) || (0x3400 <= u && u <= 0x9fff) || (0xff66 <= u && u <= 0xff9d)
}

/// A character that says something: a letter, a number, kana or kanji. The punctuation that
/// stands among the katakana (the middle dot and the double hyphen) says nothing.
pub open spec fn wordly(c: char) -> bool {
    (text::char_is_alphanumeric(c) || kana_or_cjk(c)) && class_of(c) != Class::Punct && c != '゠'
}

pub fn is_wordly(c: char) -> (r: bool)
    ensures
        r == wordly(c),
{
    (text::is_alphanumeric(c) || is_kana_or_cjk(c)) && class(c) != Class::Punct && c != '゠'
}

/// Letters, digits, kana and kanji are told by where they stand among the characters; the
/// prolonged sound mark counts as katakana, the marks of Japanese text and those of ASCII as
/// punctuation.
pub proof fn law_scripts_have_their_places(c: char)
    requires
        !text::char_is_whitespace(c),
    ensures
        '0' as int <= c as int <= '9' as int ==> class_of(c) == Class::Digit,
        'a' as int <= c as int <= 'z' as int || 'A' as int <= c as int <= 'Z' as int ==> class_of(c)
            == Class::Latin,
        'ぁ' as int <= c as int <= 'ゟ' as int ==> class_of(c) == Class::Hira,
        'ァ' as int <= c as int <= 'ヺ' as int || c == 'ー' || 'ｦ' as int <= c as int <= 'ﾝ' as int
            ==> class_of(c) == Class::Kata,
        '一' as int <= c as int <= '\u{9fff}' as int || '\u{3400}' as int <= c as int
            <= '\u{4dbf}' as int ==> class_of(c) == Class::Han,
        c == '。' || c == '、' || c == '！' || c == '？' || c == '…' || c == '・' || c == '「' || c
            == '」' || c == '『' || c == '』' || c == '（' || c == '）' ==> class_of(c)
            == Class::Punct,
        c == '.' || c == ',' || c == '!' || c == '?' || c == '-' || c == '_' || c == '\'' ==> class_of(
            c,
        ) == Class::Punct,
        class_of(c) == Class::Punct <==> c == '。' || c == '、' || c == '！' || c == '？' || c == '…'
            || c == '・' || c == '「' || c == '」' || c == '『' || c == '』' || c == '（' || c == '）'
            || ('!' as int <= c as int <= '~' as int && !('0' as int <= c as int <= '9' as int)
            && !('a' as int <= c as int <= 'z' as int) && !('A' as int <= c as int <= 'Z' as int)),
        class_of(c) == Class::Hira <==> 0x3040 <= c as int <= 0x309f,
        class_of(c) == Class::Kata <==> (0x30a0 <= c as int <= 0x30ff && c != '・') || 0xff66
            <= c as int <= 0xff9d,
        class_of(c) == Class::Han <==> 0x4e00 <= c as int <= 0x9fff || 0x3400 <= c as int <= 0x4dbf,
        class_of(c) != Class::Ws,
{
}

/// White space has a class of its own, and says nothing; nor does punctuation. Kana and kanji
/// do, and they are what is written without spaces.
pub proof fn law_what_says_something(c: char)
    ensures
        class_of(c) == Class::Ws <==> text::char_is_whitespace(c),
        class_of(c) == Class::Punct ==> !wordly(c),
        text::char_is_alphanumeric(c) && class_of(c) != Class::Punct && c != '゠' ==> wordly(c),
        cjk(class_of(c)) && c != '゠' ==> wordly(c),
        wordly(c) ==> text::char_is_alphanumeric(c) || 0x3040 <= c as int <= 0x30ff || 0x3400
            <= c as int <= 0x9fff || 0xff66 <= c as int <= 0xff9d,
{
}

} // verus!
