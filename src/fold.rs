//! Folding one character to its case-insensitive ASCII approximation, and the
//! classification of characters as alphanumeric or not.
use vstd::prelude::*;

verus! {

/// `c` lies in the code point range `lo..=hi`.
pub open spec fn in_range(c: char, lo: int, hi: int) -> bool {
    lo <= c as int && c as int <= hi
}

pub open spec fn is_ascii_digit(c: char) -> bool {
    in_range(c, 0x30, 0x39)
}

pub open spec fn is_ascii_upper(c: char) -> bool {
    in_range(c, 0x41, 0x5A)
}

pub open spec fn is_ascii_lower(c: char) -> bool {
    in_range(c, 0x61, 0x7A)
}

pub open spec fn is_ascii_alnum(c: char) -> bool {
    is_ascii_digit(c) || is_ascii_upper(c) || is_ascii_lower(c)
}

#[verifier::opaque]
/// The ASCII letters that a Latin-1 or Latin Extended-A letter stands for; empty for
/// every character that has no such rule.
pub open spec fn latin_letters(c: char) -> Seq<char> {
    if in_range(c, 0xC0, 0xC5) || in_range(c, 0xE0, 0xE5) || in_range(c, 0x100, 0x105) {
        seq!['a']
    } else if c as int == 0xC6 || c as int == 0xE6 {
        seq!['a', 'e']
    } else if c as int == 0xC7 || c as int == 0xE7 || in_range(c, 0x106, 0x10D) {
        seq!['c']
    } else if c as int == 0xD0 || c as int == 0xF0 || in_range(c, 0x10E, 0x111) {
        seq!['d']
    } else if in_range(c, 0xC8, 0xCB) || in_range(c, 0xE8, 0xEB) || in_range(c, 0x112, 0x11B) {
        seq!['e']
    } else if in_range(c, 0x11C, 0x123) {
        seq!['g']
    } else if in_range(c, 0x124, 0x127) {
        seq!['h']
    } else if in_range(c, 0xCC, 0xCF) || in_range(c, 0xEC, 0xEF) || in_range(c, 0x128, 0x131) {
        seq!['i']
    } else if in_range(c, 0x132, 0x133) {
        seq!['i', 'j']
    } else if in_range(c, 0x134, 0x135) {
        seq!['j']
    } else if in_range(c, 0x136, 0x138) {
        seq!['k']
    } else if in_range(c, 0x139, 0x142) {
        seq!['l']
    } else if c as int == 0xD1 || c as int == 0xF1 || in_range(c, 0x143, 0x14B) {
        seq!['n']
    } else if in_range(c, 0xD2, 0xD6) || c as int == 0xD8 || in_range(c, 0xF2, 0xF6)
        || c as int == 0xF8 || in_range(c, 0x14C, 0x151) {
        seq!['o']
    } else if in_range(c, 0x152, 0x153) {
        seq!['o', 'e']
    } else if in_range(c, 0x154, 0x159) {
        seq!['r']
    } else if c as int == 0xDF {
        seq!['s', 's']
    } else if in_range(c, 0x15A, 0x161) || c as int == 0x17F {
        seq!['s']
    } else if in_range(c, 0x162, 0x167) {
        seq!['t']
    } else if c as int == 0xDE || c as int == 0xFE {
        seq!['t', 'h']
    } else if in_range(c, 0xD9, 0xDC) || in_range(c, 0xF9, 0xFC) || in_range(c, 0x168, 0x173) {
        seq!['u']
    } else if in_range(c, 0x174, 0x175) {
        seq!['w']
    } else if c as int == 0xDD || c as int == 0xFD || c as int == 0xFF || in_range(c, 0x176, 0x178) {
        seq!['y']
    } else if in_range(c, 0x179, 0x17E) {
        seq!['z']
    } else {
        seq![]
    }
}

proof fn lemma_latin_ascii(c: char)
    ensures
        latin_letters(c).len() > 0 ==> (latin_letters(c)[0] as int) < 0x80,
        (c as int) < 0x80 ==> latin_letters(c).len() == 0,
{
    reveal(latin_letters);
}

/// Every character that a character folds to folds to itself.
pub proof fn lemma_latin_fixed(c: char)
    ensures
        forall|i: int| 0 <= i < fold_spec(c).len() ==> fold_spec(#[trigger] fold_spec(c)[i])
            == seq![fold_spec(c)[i]],
        1 <= fold_spec(c).len() <= 2,
{
    reveal(latin_letters);
    if is_ascii_upper(c) {
        assert(((((c as int) + 0x20) as char) as int) == (c as int) + 0x20);
    }
}

/// The lowercase form of an ASCII character; every other character is left alone.
pub open spec fn ascii_lower(c: char) -> char {
    if is_ascii_upper(c) {
        ((c as int) + 0x20) as char
    } else {
        c
    }
}

/// What a character folds to: an ASCII character is lowercased, a Latin letter becomes
/// its ASCII letters, and any other character stands for itself.
pub open spec fn fold_spec(c: char) -> Seq<char> {
    if (c as int) < 0x80 {
        seq![ascii_lower(c)]
    } else if latin_letters(c).len() > 0 {
        latin_letters(c)
    } else {
        seq![c]
    }
}

/// A character counts as alphanumeric when it is an ASCII letter or digit, or a Latin
/// letter that folds to ASCII letters.
pub open spec fn is_alnum(c: char) -> bool {
    is_ascii_alnum(c) || latin_letters(c).len() > 0
}

/// The result of folding one character: one character, or two for letters such as `ß`.
#[derive(Clone, Copy, Debug, PartialEq, Eq)]
pub struct Folded {
    pub first: char,
    pub second: Option<char>,
}

impl Folded {
    pub open spec fn units(self) -> Seq<char> {
        match self.second {
            Some(s) => seq![self.first, s],
            None => seq![self.first],
        }
    }
}

fn one(a: char) -> (r: Folded)
    ensures
        r.units() == seq![a],
{
    Folded { first: a, second: None }
}

fn two(a: char, b: char) -> (r: Folded)
    ensures
        r.units() == seq![a, b],
{
    Folded { first: a, second: Some(b) }
}

/// Folds one character to its canonical lowercase ASCII form.
pub fn fold_char(c: char) -> (r: Folded)
    ensures
        r.units() == fold_spec(c),
{
    reveal(latin_letters);
    let v = c as u32;
    if v < 0x80 {
        if 0x41 <= v && v <= 0x5A {
            return one(((v + 0x20) as u8) as char);
        }
        return one(c);
    }
    if (0xC0 <= v && v <= 0xC5) || (0xE0 <= v && v <= 0xE5) || (0x100 <= v && v <= 0x105) {
        one('a')
    } else if v == 0xC6 || v == 0xE6 {
        two('a', 'e')
    } else if v == 0xC7 || v == 0xE7 || (0x106 <= v && v <= 0x10D) {
        one('c')
    } else if v == 0xD0 || v == 0xF0 || (0x10E <= v && v <= 0x111) {
        one('d')
    } else if (0xC8 <= v && v <= 0xCB) || (0xE8 <= v && v <= 0xEB) || (0x112 <= v && v <= 0x11B) {
        one('e')
    } else if 0x11C <= v && v <= 0x123 {
        one('g')
    } else if 0x124 <= v && v <= 0x127 {
        one('h')
    } else if (0xCC <= v && v <= 0xCF) || (0xEC <= v && v <= 0xEF) || (0x128 <= v && v <= 0x131) {
        one('i')
    } else if 0x132 <= v && v <= 0x133 {
        two('i', 'j')
    } else if 0x134 <= v && v <= 0x135 {
        one('j')
    } else if 0x136 <= v && v <= 0x138 {
        one('k')
    } else if 0x139 <= v && v <= 0x142 {
        one('l')
    } else if v == 0xD1 || v == 0xF1 || (0x143 <= v && v <= 0x14B) {
        one('n')
    } else if (0xD2 <= v && v <= 0xD6) || v == 0xD8 || (0xF2 <= v && v <= 0xF6) || v == 0xF8
        || (0x14C <= v && v <= 0x151) {
        one('o')
    } else if 0x152 <= v && v <= 0x153 {
        two('o', 'e')
    } else if 0x154 <= v && v <= 0x159 {
        one('r')
    } else if v == 0xDF {
        two('s', 's')
    } else if (0x15A <= v && v <= 0x161) || v == 0x17F {
        one('s')
    } else if 0x162 <= v && v <= 0x167 {
        one('t')
    } else if v == 0xDE || v == 0xFE {
        two('t', 'h')
    } else if (0xD9 <= v && v <= 0xDC) || (0xF9 <= v && v <= 0xFC) || (0x168 <= v && v <= 0x173) {
        one('u')
    } else if 0x174 <= v && v <= 0x175 {
        one('w')
    } else if v == 0xDD || v == 0xFD || v == 0xFF || (0x176 <= v && v <= 0x178) {
        one('y')
    } else if 0x179 <= v && v <= 0x17E {
        one('z')
    } else {
        one(c)
    }
}

/// Tells whether a character is alphanumeric in the sense of [`is_alnum`].
pub fn char_is_alnum(c: char) -> (r: bool)
    ensures
        r == is_alnum(c),
{
    let v = c as u32;
    proof {
        lemma_latin_ascii(c);
    }
    if v < 0x80 {
        (0x30 <= v && v <= 0x39) || (0x41 <= v && v <= 0x5A) || (0x61 <= v && v <= 0x7A)
    } else {
        let f = fold_char(c);
        proof {
            reveal(latin_letters);
                    assert(f.units()[0] == f.first);
            if latin_letters(c).len() > 0 {
                assert((latin_letters(c)[0] as int) < 0x80);
            }
        }
        f.first != c
    }
}

} // verus!
