//! The mathematical model of the ordering: the tokens that a string stands for under
//! a comparison mode, and the three-way comparison built on them.
use core::cmp::Ordering;
use vstd::prelude::*;
use crate::fold::{fold_spec, is_alnum, is_ascii_digit};

verus! {

/// Which comparison is made: digit runs as numbers, characters that are not
/// alphanumeric skipped, characters folded to lowercase ASCII.
#[derive(Clone, Copy, Debug, PartialEq, Eq)]
pub struct Mode {
    pub natural: bool,
    pub only_alnum: bool,
    pub lexical: bool,
}

/// One unit of comparison: a character, or (in natural mode) a maximal run of ASCII
/// digits, leading zeros kept.
pub enum Token {
    Unit(char),
    Number(Seq<char>),
}

/// The opposite outcome: `Less` and `Greater` swap.
pub open spec fn reversed(o: Ordering) -> Ordering {
    match o {
        Ordering::Less => Ordering::Greater,
        Ordering::Equal => Ordering::Equal,
        Ordering::Greater => Ordering::Less,
    }
}

/// Three-way comparison of integers.
pub open spec fn cmp_int(a: int, b: int) -> Ordering {
    if a < b {
        Ordering::Less
    } else if a > b {
        Ordering::Greater
    } else {
        Ordering::Equal
    }
}

/// Three-way comparison of characters by code point.
pub open spec fn cmp_char(a: char, b: char) -> Ordering {
    cmp_int(a as int, b as int)
}

/// Lexicographic comparison of character sequences by code point; a proper prefix
/// comes first.
pub open spec fn seq_cmp(a: Seq<char>, b: Seq<char>) -> Ordering
    decreases a.len(),
{
    if a.len() == 0 {
        if b.len() == 0 {
            Ordering::Equal
        } else {
            Ordering::Less
        }
    } else if b.len() == 0 {
        Ordering::Greater
    } else if a[0] != b[0] {
        cmp_char(a[0], b[0])
    } else {
        seq_cmp(a.drop_first(), b.drop_first())
    }
}

/// The number of ASCII digits at the start of `s`.
pub open spec fn digit_run_len(s: Seq<char>) -> nat
    decreases s.len(),
{
    if s.len() > 0 && is_ascii_digit(s[0]) {
        1 + digit_run_len(s.drop_first())
    } else {
        0
    }
}

/// The digit run at the start of `o`.
pub open spec fn digit_run(o: Seq<char>) -> Seq<char> {
    o.take(digit_run_len(o) as int)
}

/// The number of `'0'` characters at the start of `d`.
pub open spec fn leading_zeros(d: Seq<char>) -> nat
    decreases d.len(),
{
    if d.len() > 0 && d[0] == '0' {
        1 + leading_zeros(d.drop_first())
    } else {
        0
    }
}

/// The significant digits of a digit run.
pub open spec fn significant(d: Seq<char>) -> Seq<char> {
    d.skip(leading_zeros(d) as int)
}

/// Digit runs compare by numeric value: by the count of significant digits, then digit
/// by digit. Runs of equal value compare by length, the shorter first.
pub open spec fn number_cmp(a: Seq<char>, b: Seq<char>) -> Ordering {
    let x = significant(a);
    let y = significant(b);
    if x.len() != y.len() {
        cmp_int(x.len() as int, y.len() as int)
    } else if seq_cmp(x, y) != Ordering::Equal {
        seq_cmp(x, y)
    } else {
        cmp_int(a.len() as int, b.len() as int)
    }
}

/// The class of a token: characters that are not alphanumeric first, then digits,
/// then digit runs, then letters.
pub open spec fn rank(t: Token) -> int {
    match t {
        Token::Unit(c) => if !is_alnum(c) {
            0
        } else if is_ascii_digit(c) {
            1
        } else {
            3
        },
        Token::Number(_) => 2,
    }
}

/// Tokens compare by class first; within a class, characters by code point and digit
/// runs by value.
pub open spec fn token_cmp(s: Token, t: Token) -> Ordering {
    if rank(s) != rank(t) {
        cmp_int(rank(s), rank(t))
    } else {
        match (s, t) {
            (Token::Unit(a), Token::Unit(b)) => cmp_char(a, b),
            (Token::Number(a), Token::Number(b)) => number_cmp(a, b),
            _ => Ordering::Equal,
        }
    }
}

/// Lexicographic comparison of token sequences; a proper prefix comes first.
pub open spec fn tokens_cmp(a: Seq<Token>, b: Seq<Token>) -> Ordering
    decreases a.len(),
{
    if a.len() == 0 {
        if b.len() == 0 {
            Ordering::Equal
        } else {
            Ordering::Less
        }
    } else if b.len() == 0 {
        Ordering::Greater
    } else if token_cmp(a[0], b[0]) != Ordering::Equal {
        token_cmp(a[0], b[0])
    } else {
        tokens_cmp(a.drop_first(), b.drop_first())
    }
}

/// The unit token of one character.
pub open spec fn unit_of(c: char) -> Token {
    Token::Unit(c)
}

/// One unit token for each character of `s`.
pub open spec fn unit_tokens(s: Seq<char>) -> Seq<Token>
    decreases s.len(),
{
    if s.len() > 0 {
        seq![unit_of(s[0])] + unit_tokens(s.drop_first())
    } else {
        Seq::empty()
    }
}

/// The tokens that one character gives when it is not part of a digit run.
pub open spec fn units_of(c: char, m: Mode) -> Seq<Token> {
    if m.lexical {
        unit_tokens(fold_spec(c))
    } else {
        seq![Token::Unit(c)]
    }
}

/// The tokens of a string under a mode.
pub open spec fn tokens(s: Seq<char>, m: Mode) -> Seq<Token>
    decreases s.len(),
    via tokens_decreases
{
    if s.len() == 0 {
        seq![]
    } else if m.only_alnum && !is_alnum(s[0]) {
        tokens(s.drop_first(), m)
    } else if m.natural && is_ascii_digit(s[0]) {
        let n = digit_run_len(s);
        seq![Token::Number(digit_run(s))] + tokens(s.skip(n as int), m)
    } else {
        units_of(s[0], m) + tokens(s.drop_first(), m)
    }
}

#[via_fn]
proof fn tokens_decreases(s: Seq<char>, m: Mode) {
    if s.len() > 0 && m.natural && is_ascii_digit(s[0]) {
        lemma_digit_run_len(s);
    }
}

pub proof fn lemma_digit_run_len(s: Seq<char>)
    ensures
        digit_run_len(s) <= s.len(),
        s.len() > 0 && is_ascii_digit(s[0]) ==> digit_run_len(s) >= 1,
        forall|i: int| 0 <= i < digit_run_len(s) ==> is_ascii_digit(#[trigger] s[i]),
        digit_run_len(s) < s.len() ==> !is_ascii_digit(s[digit_run_len(s) as int]),
    decreases s.len(),
{
    if s.len() > 0 && is_ascii_digit(s[0]) {
        lemma_digit_run_len(s.drop_first());
        assert forall|i: int| 0 <= i < digit_run_len(s) implies is_ascii_digit(#[trigger] s[i]) by {
            if i > 0 {
                assert(s[i] == s.drop_first()[i - 1]);
            }
        }
    }
}

/// The characters that take part in the final tie-break: in `only_alnum` mode the
/// alphanumeric ones, else all of them.
pub open spec fn alnum_only(s: Seq<char>) -> Seq<char>
    decreases s.len(),
{
    if s.len() == 0 {
        seq![]
    } else if is_alnum(s[0]) {
        seq![s[0]] + alnum_only(s.drop_first())
    } else {
        alnum_only(s.drop_first())
    }
}

pub open spec fn kept(s: Seq<char>, m: Mode) -> Seq<char> {
    if m.only_alnum {
        alnum_only(s)
    } else {
        s
    }
}

/// The order of two strings under a mode: by their tokens, and where those agree, by
/// the characters that the mode keeps.
pub open spec fn compare(a: Seq<char>, b: Seq<char>, m: Mode) -> Ordering {
    let t = tokens_cmp(tokens(a, m), tokens(b, m));
    if t != Ordering::Equal {
        t
    } else {
        seq_cmp(kept(a, m), kept(b, m))
    }
}

/// What a digit run at the start of `o` looks like: where it ends and where its
/// leading zeros end.
pub proof fn lemma_run_facts(o: Seq<char>)
    ensures
        ({
            let n = digit_run_len(o) as int;
            let z = leading_zeros(o.take(n)) as int;
            &&& 0 <= z <= n <= o.len()
            &&& forall|j: int| 0 <= j < n ==> is_ascii_digit(#[trigger] o[j])
            &&& n < o.len() ==> !is_ascii_digit(o[n])
            &&& forall|j: int| 0 <= j < z ==> #[trigger] o[j] == '0'
            &&& z < n ==> o[z] != '0'
        }),
{
    lemma_digit_run_len(o);
    let n = digit_run_len(o) as int;
    let d = o.take(n);
    lemma_leading_zeros(d);
    let z = leading_zeros(d) as int;
    assert forall|j: int| 0 <= j < z implies #[trigger] o[j] == '0' by {
        assert(d[j] == o[j]);
    }
    if z < n {
        assert(d[z] == o[z]);
    }
}

pub proof fn lemma_leading_zeros(d: Seq<char>)
    ensures
        leading_zeros(d) <= d.len(),
        forall|j: int| 0 <= j < leading_zeros(d) ==> #[trigger] d[j] == '0',
        leading_zeros(d) < d.len() ==> d[leading_zeros(d) as int] != '0',
    decreases d.len(),
{
    if d.len() > 0 && d[0] == '0' {
        lemma_leading_zeros(d.drop_first());
        assert forall|j: int| 0 <= j < leading_zeros(d) implies #[trigger] d[j] == '0' by {
            if j > 0 {
                assert(d[j] == d.drop_first()[j - 1]);
            }
        }
    }
}

/// Extending two sequences of equal length by one character each: the first
/// difference stays, or else the new characters decide.
pub proof fn lemma_seq_cmp_push(a: Seq<char>, b: Seq<char>, x: char, y: char)
    requires
        a.len() == b.len(),
    ensures
        seq_cmp(a.push(x), b.push(y)) == if seq_cmp(a, b) != Ordering::Equal {
            seq_cmp(a, b)
        } else {
            cmp_char(x, y)
        },
    decreases a.len(),
{
    if a.len() == 0 {
        assert(a.push(x).drop_first() =~= Seq::<char>::empty());
        assert(b.push(y).drop_first() =~= Seq::<char>::empty());
        assert(a.push(x)[0] == x);
        assert(b.push(y)[0] == y);
        assert(seq_cmp(Seq::<char>::empty(), Seq::<char>::empty()) == Ordering::Equal);
        assert(a =~= Seq::<char>::empty());
        assert(b =~= Seq::<char>::empty());
        assert(seq_cmp(a, b) == Ordering::Equal);
        if x == y {
            assert(seq_cmp(a.push(x), b.push(y)) == Ordering::Equal);
        } else {
            assert(seq_cmp(a.push(x), b.push(y)) == cmp_char(x, y));
        }
    } else {
        assert(a.push(x)[0] == a[0]);
        assert(b.push(y)[0] == b[0]);
        assert(a.push(x).drop_first() =~= a.drop_first().push(x));
        assert(b.push(y).drop_first() =~= b.drop_first().push(y));
        lemma_seq_cmp_push(a.drop_first(), b.drop_first(), x, y);
        if a[0] != b[0] {
            assert(seq_cmp(a, b) != Ordering::Equal);
        }
    }
}

} // verus!
