//! Dense interned token identifiers.
//!
//! Specials occupy the low range so the suffix-array alphabet stays compact.
use vstd::prelude::*;

verus! {

pub type TokenId = u32;

pub const EOS: TokenId = 0;

pub const BOS: TokenId = 1;

pub const SEP: TokenId = 2;

pub const FIRST_USER: TokenId = 16;

/// Whether an id lies in the range kept for specials.
pub open spec fn special(id: TokenId) -> bool {
    id < FIRST_USER
}

pub fn is_special(id: TokenId) -> (r: bool)
    ensures
        r == special(id),
{
    id < FIRST_USER
}

/// The display name of a special id, or `None` for every other id.
pub fn special_name(id: TokenId) -> (r: Option<&'static str>)
    ensures
        id == EOS ==> r is Some && r->0@ == "<eos>"@,
        id == BOS ==> r is Some && r->0@ == "<bos>"@,
        id == SEP ==> r is Some && r->0@ == "<sep>"@,
        id != EOS && id != BOS && id != SEP ==> r is None,
{
    if id == EOS {
        Some("<eos>")
    } else if id == BOS {
        Some("<bos>")
    } else if id == SEP {
        Some("<sep>")
    } else {
        None
    }
}

} // verus!
