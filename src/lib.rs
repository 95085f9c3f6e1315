//! Lexicographic and natural ordering of strings.
//!
//! Non-ASCII Latin letters compare like their closest ASCII letters (`á` like `a`,
//! `ß` like `ss`), lexical comparison ignores case, and alphanumeric characters sort
//! after every other character. Natural comparison orders runs of ASCII digits by
//! their numeric value, and the `only_alnum` variants ignore characters that are not
//! alphanumeric. Strings whose comparison keys agree are ordered by the characters that
//! the comparison does not skip, code point by code point, so that the order is
//! deterministic: `"Foo"` comes before `"fóò"`.
//!
//! Digit runs compare by value; runs of equal value compare by length, the shorter
//! first (`"7"` before `"007"`). A digit run sorts after every character that is not
//! alphanumeric and before every letter.
//!
//! | Function                         | lexical | natural | skips non-alphanumeric chars |
//! | -------------------------------- |:-------:|:-------:|:----------------------------:|
//! | `cmp`                            |         |         |                              |
//! | `only_alnum_cmp`                 |         |         | yes                          |
//! | `lexical_cmp`                    | yes     |         |                              |
//! | `lexical_only_alnum_cmp`         | yes     |         | yes                          |
//! | `natural_cmp`                    |         | yes     |                              |
//! | `natural_only_alnum_cmp`         |         | yes     | yes                          |
//! | `natural_lexical_cmp`            | yes     | yes     |                              |
//! | `natural_lexical_only_alnum_cmp` | yes     | yes     | yes                          |
//!
//! Every variant ranks characters that are not alphanumeric before alphanumeric ones;
//! only the lexical variants fold case and diacritics.
use core::cmp::Ordering;
use vstd::prelude::*;

pub mod fold;
pub mod order;
mod engine;
pub mod laws;
pub mod sort;

pub use fold::{fold_char, Folded};
pub use order::{compare, Mode};
pub use sort::{AsText, StringSort};

use engine::compare_with;

verus! {

/// Compares two strings by code point, with characters that are not alphanumeric
/// ranked first.
pub fn cmp(lhs: &str, rhs: &str) -> (r: Ordering)
    ensures
        r == compare(lhs@, rhs@, (Mode { natural: false, only_alnum: false, lexical: false })),
{
    compare_with(lhs, rhs, Mode { natural: false, only_alnum: false, lexical: false })
}

/// Like [`cmp`], but skips characters that are not alphanumeric.
pub fn only_alnum_cmp(lhs: &str, rhs: &str) -> (r: Ordering)
    ensures
        r == compare(lhs@, rhs@, (Mode { natural: false, only_alnum: true, lexical: false })),
{
    compare_with(lhs, rhs, Mode { natural: false, only_alnum: true, lexical: false })
}

/// Compares two strings lexicographically: case-insensitively, with Latin letters
/// folded to ASCII.
pub fn lexical_cmp(lhs: &str, rhs: &str) -> (r: Ordering)
    ensures
        r == compare(lhs@, rhs@, (Mode { natural: false, only_alnum: false, lexical: true })),
{
    compare_with(lhs, rhs, Mode { natural: false, only_alnum: false, lexical: true })
}

/// Like [`lexical_cmp`], but skips characters that are not alphanumeric.
pub fn lexical_only_alnum_cmp(lhs: &str, rhs: &str) -> (r: Ordering)
    ensures
        r == compare(lhs@, rhs@, (Mode { natural: false, only_alnum: true, lexical: true })),
{
    compare_with(lhs, rhs, Mode { natural: false, only_alnum: true, lexical: true })
}

/// Compares two strings by code point, with runs of ASCII digits compared by value.
pub fn natural_cmp(lhs: &str, rhs: &str) -> (r: Ordering)
    ensures
        r == compare(lhs@, rhs@, (Mode { natural: true, only_alnum: false, lexical: false })),
{
    compare_with(lhs, rhs, Mode { natural: true, only_alnum: false, lexical: false })
}

/// Like [`natural_cmp`], but skips characters that are not alphanumeric.
pub fn natural_only_alnum_cmp(lhs: &str, rhs: &str) -> (r: Ordering)
    ensures
        r == compare(lhs@, rhs@, (Mode { natural: true, only_alnum: true, lexical: false })),
{
    compare_with(lhs, rhs, Mode { natural: true, only_alnum: true, lexical: false })
}

/// Compares two strings lexicographically, with runs of ASCII digits compared by value.
pub fn natural_lexical_cmp(lhs: &str, rhs: &str) -> (r: Ordering)
    ensures
        r == compare(lhs@, rhs@, (Mode { natural: true, only_alnum: false, lexical: true })),
{
    compare_with(lhs, rhs, Mode { natural: true, only_alnum: false, lexical: true })
}

/// Like [`natural_lexical_cmp`], but skips characters that are not alphanumeric.
pub fn natural_lexical_only_alnum_cmp(lhs: &str, rhs: &str) -> (r: Ordering)
    ensures
        r == compare(lhs@, rhs@, (Mode { natural: true, only_alnum: true, lexical: true })),
{
    compare_with(lhs, rhs, Mode { natural: true, only_alnum: true, lexical: true })
}

} // verus!
