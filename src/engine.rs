//! The comparison engine: a cursor that turns a string into tokens one at a time,
//! and the comparator that drives two cursors in lock-step.
use core::cmp::Ordering;
use core::str::Chars;
use vstd::prelude::*;
use vstd::std_specs::iter::IteratorSpec;
use crate::fold::{char_is_alnum, fold_char, is_alnum, is_ascii_digit, Folded};
use crate::order::{
    alnum_only, cmp_char, cmp_int, compare, digit_run, digit_run_len, kept, leading_zeros,
    lemma_run_facts, lemma_seq_cmp_push, number_cmp, rank, seq_cmp, significant, token_cmp,
    tokens, tokens_cmp, unit_tokens, units_of, Mode, Token,
};

verus! {

broadcast use vstd::string::group_string_axioms;

/// The unit token of a buffered character, if there is one.
pub(crate) open spec fn opt_units(o: Option<char>) -> Seq<Token> {
    match o {
        Some(u) => seq![Token::Unit(u)],
        None => Seq::<Token>::empty(),
    }
}

/// What a cursor yields on one pull.
pub(crate) enum Step {
    /// No token is left.
    End,
    /// One (possibly folded) character.
    Unit(char),
    /// A digit run starts here; it is left for the digit comparison to consume.
    Digits,
}

/// A single-pass cursor over the characters of a string.
pub(crate) struct Cursor<'a> {
    pub(crate) chars: Chars<'a>,
    /// The next unconsumed character, if any.
    pub(crate) head: Option<char>,
    /// The second character of a two-character fold, not yet handed out.
    pub(crate) pending: Option<char>,
    pub(crate) mode: Mode,
    pub(crate) rest: Ghost<Seq<char>>,
}

impl<'a> Cursor<'a> {
    /// The characters not yet consumed.
    pub(crate) open spec fn rest(&self) -> Seq<char> {
        self.rest@
    }

    /// The ghost sequence `rest` is what `head` and the iterator still hold.
    pub(crate) open spec fn inv(&self, rem: Seq<char>) -> bool {
        match self.head {
            Some(c) => self.rest@ == seq![c] + rem,
            None => self.rest@.len() == 0,
        }
    }

    /// The tokens not yet handed out.
    pub(crate) open spec fn stream(&self) -> Seq<Token> {
        opt_units(self.pending) + tokens(self.rest(), self.mode)
    }

    fn new(s: &'a str, mode: Mode) -> (r: Cursor<'a>)
        ensures
            r.inv(r.chars.remaining()),
            r.rest() == s@,
            r.pending is None,
            r.mode == mode,
    {
        let mut chars = s.chars();
        let head = chars.next();
        proof {
            if head is Some {
                assert(s@ =~= seq![head->0] + chars.remaining());
            }
        }
        Cursor { chars, head, pending: None, mode, rest: Ghost(s@) }
    }

    /// Consumes the head character.
    fn advance(&mut self)
        requires
            old(self).inv(old(self).chars.remaining()),
            old(self).head is Some,
        ensures
            final(self).inv(final(self).chars.remaining()),
            final(self).rest() == old(self).rest().drop_first(),
            final(self).pending == old(self).pending,
            final(self).mode == old(self).mode,
    {
        proof {
            assert(self.rest().drop_first() =~= self.chars.remaining());
        }
        self.head = self.chars.next();
        self.rest = Ghost(self.rest@.drop_first());
        proof {
            if self.head is Some {
                assert(self.rest@ =~= seq![self.head->0] + self.chars.remaining());
            }
        }
    }

    /// The head character, when it is an ASCII digit.
    fn digit_head(&self) -> (r: Option<char>)
        requires
            self.inv(self.chars.remaining()),
        ensures
            r is Some <==> (self.rest().len() > 0 && is_ascii_digit(self.rest()[0])),
            r is Some ==> r->0 == self.rest()[0],
    {
        match self.head {
            Some(c) => if '0' <= c && c <= '9' {
                Some(c)
            } else {
                None
            },
            None => None,
        }
    }

    /// In `only_alnum` mode, moves past the characters that are not alphanumeric.
    fn skip_other(&mut self)
        requires
            old(self).inv(old(self).chars.remaining()),
            old(self).pending is None,
        ensures
            final(self).inv(final(self).chars.remaining()),
            final(self).pending is None,
            final(self).mode == old(self).mode,
            tokens(final(self).rest(), final(self).mode) == tokens(old(self).rest(), old(self).mode),
            final(self).mode.only_alnum && final(self).rest().len() > 0 ==> is_alnum(
                final(self).rest()[0],
            ),
    {
        if self.mode.only_alnum {
            loop
                invariant
                    self.inv(self.chars.remaining()),
                    self.pending is None,
                    self.mode == old(self).mode,
                    self.mode.only_alnum,
                    tokens(self.rest(), self.mode) == tokens(old(self).rest(), old(self).mode),
                ensures
                    self.inv(self.chars.remaining()),
                    self.pending is None,
                    self.mode == old(self).mode,
                    tokens(self.rest(), self.mode) == tokens(old(self).rest(), old(self).mode),
                    self.rest().len() > 0 ==> is_alnum(self.rest()[0]),
                decreases self.rest().len(),
            {
                match self.head {
                    Some(c) => {
                        if char_is_alnum(c) {
                            break ;
                        }
                        self.advance();
                    },
                    None => break ,
                }
            }
        }
    }

    /// Hands out the buffered second character of a fold.
    fn take_pending(&mut self) -> (r: char)
        requires
            old(self).inv(old(self).chars.remaining()),
            old(self).pending is Some,
        ensures
            final(self).inv(final(self).chars.remaining()),
            final(self).mode == old(self).mode,
            old(self).stream().len() > 0,
            old(self).stream()[0] == Token::Unit(r),
            final(self).stream() == old(self).stream().drop_first(),
    {
        assert(self.pending == old(self).pending);
        assert(self.rest() == old(self).rest());
        assert(self.mode == old(self).mode);
        let x = self.pending.unwrap();
        proof {
            lemma_stream_pending(*self, x);
        }
        self.pending = None;
        x
    }

    /// Hands out the next token; a digit run is only announced.
    fn next(&mut self) -> (r: Step)
        requires
            old(self).inv(old(self).chars.remaining()),
        ensures
            final(self).inv(final(self).chars.remaining()),
            final(self).mode == old(self).mode,
            match r {
                Step::End => old(self).stream().len() == 0,
                Step::Unit(u) => {
                    &&& old(self).stream().len() > 0
                    &&& old(self).stream()[0] == Token::Unit(u)
                    &&& final(self).stream() == old(self).stream().drop_first()
                },
                Step::Digits => {
                    &&& final(self).pending is None
                    &&& final(self).mode.natural
                    &&& final(self).rest().len() > 0
                    &&& is_ascii_digit(final(self).rest()[0])
                    &&& final(self).stream() == old(self).stream()
                },
            },
    {
        if self.pending.is_some() {
            return Step::Unit(self.take_pending());
        }
        self.skip_other();
        let ghost s0 = *self;
        match self.head {
            None => Step::End,
            Some(c) => {
                if self.mode.natural && '0' <= c && c <= '9' {
                    return Step::Digits;
                }
                self.advance();
                if self.mode.lexical {
                    let f = fold_char(c);
                    self.pending = f.second;
                    proof {
                        lemma_fold_units(f);
                        lemma_step(s0, *self, f.first);
                    }
                    Step::Unit(f.first)
                } else {
                    proof {
                        lemma_raw_units(c, self.mode, self.pending);
                        lemma_step(s0, *self, c);
                    }
                    Step::Unit(c)
                }
            },
        }
    }
}

/// Consuming one character that is not part of a digit run hands out its units.
proof fn lemma_step<'a>(before: Cursor<'a>, after: Cursor<'a>, u: char)
    requires
        before.pending is None,
        before.rest().len() > 0,
        after.rest() == before.rest().drop_first(),
        after.mode == before.mode,
        !(before.mode.only_alnum && !is_alnum(before.rest()[0])),
        !(before.mode.natural && is_ascii_digit(before.rest()[0])),
        units_of(before.rest()[0], before.mode) == seq![Token::Unit(u)] + opt_units(after.pending),
    ensures
        before.stream().len() > 0,
        before.stream()[0] == Token::Unit(u),
        after.stream() == before.stream().drop_first(),
{
    let r0 = before.rest();
    let t = tokens(after.rest(), after.mode);
    let p = match after.pending {
        Some(s) => seq![Token::Unit(s)],
        None => Seq::<Token>::empty(),
    };
    assert(tokens(r0, before.mode) == units_of(r0[0], before.mode) + t);
    assert(before.stream() == (seq![Token::Unit(u)] + p) + t);
    assert(after.stream() == p + t);
    assert((seq![Token::Unit(u)] + p) + t =~= seq![Token::Unit(u)] + (p + t));
    assert((seq![Token::Unit(u)] + (p + t)).drop_first() =~= p + t);
}

/// The unit tokens of a fold result are its characters, in order.
proof fn lemma_fold_units(f: Folded)
    ensures
        unit_tokens(f.units()) == seq![Token::Unit(f.first)] + opt_units(f.second),
{
    match f.second {
        Some(s) => lemma_unit_tokens_two(f.first, s),
        None => lemma_unit_tokens_one(f.first),
    }
}

proof fn lemma_unit_tokens_one(a: char)
    ensures
        unit_tokens(seq![a]) == seq![Token::Unit(a)] + opt_units(None::<char>),
{
    assert(seq![a].drop_first() =~= Seq::<char>::empty());
    assert(unit_tokens(Seq::<char>::empty()) =~= Seq::<Token>::empty());
    assert(seq![a][0] == a);
    assert(unit_tokens(seq![a]) == seq![Token::Unit(a)] + unit_tokens(seq![a].drop_first()));
    assert(unit_tokens(seq![a]) =~= seq![Token::Unit(a)]);
    assert(opt_units(None::<char>) =~= Seq::<Token>::empty());
    assert(seq![Token::Unit(a)] + Seq::<Token>::empty() =~= seq![Token::Unit(a)]);
}

proof fn lemma_unit_tokens_two(a: char, b: char)
    ensures
        unit_tokens(seq![a, b]) == seq![Token::Unit(a)] + opt_units(Some(b)),
{
    lemma_unit_tokens_one(b);
    assert(seq![a, b].drop_first() =~= seq![b]);
    assert(unit_tokens(seq![a, b]) =~= seq![Token::Unit(a)] + opt_units(Some(b)));
}

/// Without folding, a character is one unit token.
proof fn lemma_raw_units(c: char, m: Mode, p: Option<char>)
    requires
        !m.lexical,
        p is None,
    ensures
        units_of(c, m) == seq![Token::Unit(c)] + opt_units(p),
{
    assert(seq![Token::Unit(c)] + Seq::<Token>::empty() =~= seq![Token::Unit(c)]);
}

proof fn lemma_stream_pending<'a>(c: Cursor<'a>, u: char)
    requires
        c.pending == Some(u),
    ensures
        c.stream() == seq![Token::Unit(u)] + tokens(c.rest(), c.mode),
        c.stream().len() > 0,
        c.stream()[0] == Token::Unit(u),
        c.stream().drop_first() == tokens(c.rest(), c.mode),
{
    assert(c.stream().drop_first() =~= tokens(c.rest(), c.mode));
}

fn cmp_chars(x: char, y: char) -> (r: Ordering)
    ensures
        r == cmp_char(x, y),
{
    if x < y {
        Ordering::Less
    } else if x > y {
        Ordering::Greater
    } else {
        Ordering::Equal
    }
}

fn is_zero(o: Option<char>) -> (r: bool)
    ensures
        r <==> (o is Some && o->0 == '0'),
{
    match o {
        Some(c) => c == '0',
        None => false,
    }
}

/// The class of a unit token, as [`rank`] orders it.
fn unit_rank(c: char) -> (r: u8)
    ensures
        r as int == rank(Token::Unit(c)),
{
    if !char_is_alnum(c) {
        0
    } else if '0' <= c && c <= '9' {
        1
    } else {
        3
    }
}

fn unit_cmp(u: char, v: char) -> (r: Ordering)
    ensures
        r == token_cmp(Token::Unit(u), Token::Unit(v)),
{
    let a = unit_rank(u);
    let b = unit_rank(v);
    if a < b {
        Ordering::Less
    } else if a > b {
        Ordering::Greater
    } else {
        cmp_chars(u, v)
    }
}

/// The digit run at the head of a cursor is its next token.
proof fn lemma_digit_stream<'a>(c: Cursor<'a>)
    requires
        c.pending is None,
        c.mode.natural,
        c.rest().len() > 0,
        is_ascii_digit(c.rest()[0]),
    ensures
        c.stream().len() > 0,
        c.stream()[0] == Token::Number(digit_run(c.rest())),
        c.stream().drop_first() == tokens(c.rest().skip(digit_run_len(c.rest()) as int), c.mode),
{
    let o = c.rest();
    let t = tokens(o.skip(digit_run_len(o) as int), c.mode);
    assert(opt_units(c.pending) =~= Seq::<Token>::empty());
    assert(tokens(o, c.mode) == seq![Token::Number(digit_run(o))] + t);
    assert(c.stream() =~= seq![Token::Number(digit_run(o))] + t);
    assert((seq![Token::Number(digit_run(o))] + t).drop_first() =~= t);
}

/// Once nothing is buffered, the tokens left are those of the characters left.
proof fn lemma_stream_rest<'a>(c: Cursor<'a>)
    requires
        c.pending is None,
    ensures
        c.stream() == tokens(c.rest(), c.mode),
{
    assert(opt_units(c.pending) =~= Seq::<Token>::empty());
    assert(c.stream() =~= tokens(c.rest(), c.mode));
}

/// Where the leading zeros of the digit run at the start of `o` end.
spec fn zeros_end(o: Seq<char>) -> int {
    leading_zeros(digit_run(o)) as int
}

/// Consumes the remaining leading zeros of a digit run.
fn skip_zeros<'a>(c: &mut Cursor<'a>, Ghost(o): Ghost<Seq<char>>, Ghost(p): Ghost<int>)
    requires
        old(c).inv(old(c).chars.remaining()),
        old(c).pending is None,
        0 <= p <= zeros_end(o),
        old(c).rest() == o.skip(p),
    ensures
        final(c).inv(final(c).chars.remaining()),
        final(c).pending is None,
        final(c).mode == old(c).mode,
        final(c).rest() == o.skip(zeros_end(o)),
{
    proof {
        lemma_run_facts(o);
    }
    let ghost mut q: int = p;
    while is_zero(c.head)
        invariant
            c.inv(c.chars.remaining()),
            c.pending is None,
            c.mode == old(c).mode,
            0 <= q <= zeros_end(o) <= digit_run_len(o) <= o.len(),
            c.rest() == o.skip(q),
        decreases zeros_end(o) - q,
    {
        proof {
            lemma_run_facts(o);
            lemma_head(*c, c.chars.remaining());
            assert(o.skip(q)[0] == o[q]);
        }
        c.advance();
        proof {
            assert(c.rest() =~= o.skip(q + 1));
            q = q + 1;
        }
    }
    proof {
        lemma_run_facts(o);
        lemma_head(*c, c.chars.remaining());
        if q < zeros_end(o) {
            assert(o.skip(q)[0] == o[q]);
        }
    }
}

/// Compares the significant digits of two digit runs: the longer run is greater, and
/// runs of equal length compare by their first differing digit. When they are equal,
/// both runs are consumed.
fn compare_significant<'a, 'b>(
    l: &mut Cursor<'a>,
    r: &mut Cursor<'b>,
    Ghost(o1): Ghost<Seq<char>>,
    Ghost(o2): Ghost<Seq<char>>,
) -> (res: Ordering)
    requires
        old(l).inv(old(l).chars.remaining()),
        old(r).inv(old(r).chars.remaining()),
        old(l).pending is None,
        old(r).pending is None,
        old(l).rest() == o1.skip(zeros_end(o1)),
        old(r).rest() == o2.skip(zeros_end(o2)),
    ensures
        res == ({
            let s1 = significant(digit_run(o1));
            let s2 = significant(digit_run(o2));
            if s1.len() != s2.len() {
                cmp_int(s1.len() as int, s2.len() as int)
            } else {
                seq_cmp(s1, s2)
            }
        }),
        res == Ordering::Equal ==> {
            &&& final(l).inv(final(l).chars.remaining())
            &&& final(r).inv(final(r).chars.remaining())
            &&& final(l).pending is None
            &&& final(r).pending is None
            &&& final(l).mode == old(l).mode
            &&& final(r).mode == old(r).mode
            &&& final(l).rest() == o1.skip(digit_run_len(o1) as int)
            &&& final(r).rest() == o2.skip(digit_run_len(o2) as int)
        },
{
    let ghost n1 = digit_run_len(o1) as int;
    let ghost n2 = digit_run_len(o2) as int;
    let ghost z1 = zeros_end(o1);
    let ghost z2 = zeros_end(o2);
    let ghost s1 = significant(digit_run(o1));
    let ghost s2 = significant(digit_run(o2));
    proof {
        lemma_run_facts(o1);
        lemma_run_facts(o2);
        assert(s1.take(0) =~= Seq::<char>::empty());
        assert(s2.take(0) =~= Seq::<char>::empty());
    }
    let mut diff = Ordering::Equal;
    let ghost mut j: int = 0;
    loop
        invariant
            n1 == digit_run_len(o1) as int,
            n2 == digit_run_len(o2) as int,
            z1 == zeros_end(o1),
            z2 == zeros_end(o2),
            s1 == significant(digit_run(o1)),
            s2 == significant(digit_run(o2)),
            l.inv(l.chars.remaining()),
            r.inv(r.chars.remaining()),
            l.pending is None,
            r.pending is None,
            l.mode == old(l).mode,
            r.mode == old(r).mode,
            0 <= j,
            z1 + j <= n1,
            z2 + j <= n2,
            l.rest() == o1.skip(z1 + j),
            r.rest() == o2.skip(z2 + j),
            diff == seq_cmp(s1.take(j), s2.take(j)),
        decreases n1 - z1 - j,
    {
        proof {
            lemma_run_facts(o1);
            lemma_run_facts(o2);
            lemma_head(*l, l.chars.remaining());
            lemma_head(*r, r.chars.remaining());
            if z1 + j < o1.len() {
                assert(o1.skip(z1 + j)[0] == o1[z1 + j]);
            }
            if z2 + j < o2.len() {
                assert(o2.skip(z2 + j)[0] == o2[z2 + j]);
            }
            assert(s1.len() == n1 - z1);
            assert(s2.len() == n2 - z2);
        }
        let a = l.digit_head();
        let b = r.digit_head();
        match (a, b) {
            (Some(x), Some(y)) => {
                proof {
                    assert(x == s1[j]);
                    assert(y == s2[j]);
                    lemma_seq_cmp_push(s1.take(j), s2.take(j), x, y);
                    assert(s1.take(j + 1) =~= s1.take(j).push(x));
                    assert(s2.take(j + 1) =~= s2.take(j).push(y));
                }
                if let Ordering::Equal = diff {
                    diff = cmp_chars(x, y);
                }
                l.advance();
                r.advance();
                proof {
                    assert(l.rest() =~= o1.skip(z1 + j + 1));
                    assert(r.rest() =~= o2.skip(z2 + j + 1));
                    j = j + 1;
                }
            },
            (Some(_), None) => {
                return Ordering::Greater;
            },
            (None, Some(_)) => {
                return Ordering::Less;
            },
            (None, None) => {
                proof {
                    assert(s1.take(j) =~= s1);
                    assert(s2.take(j) =~= s2);
                }
                return diff;
            },
        }
    }
}

/// Compares the digit runs at the heads of two cursors by numeric value, without
/// buffering them. When they are equal, both runs are consumed.
fn compare_numbers<'a, 'b>(l: &mut Cursor<'a>, r: &mut Cursor<'b>) -> (res: Ordering)
    requires
        old(l).inv(old(l).chars.remaining()),
        old(r).inv(old(r).chars.remaining()),
        old(l).pending is None,
        old(r).pending is None,
        old(l).rest().len() > 0,
        old(r).rest().len() > 0,
        is_ascii_digit(old(l).rest()[0]),
        is_ascii_digit(old(r).rest()[0]),
    ensures
        res == number_cmp(digit_run(old(l).rest()), digit_run(old(r).rest())),
        res == Ordering::Equal ==> {
            &&& final(l).inv(final(l).chars.remaining())
            &&& final(r).inv(final(r).chars.remaining())
            &&& final(l).pending is None
            &&& final(r).pending is None
            &&& final(l).mode == old(l).mode
            &&& final(r).mode == old(r).mode
            &&& final(l).rest() == old(l).rest().skip(digit_run_len(old(l).rest()) as int)
            &&& final(r).rest() == old(r).rest().skip(digit_run_len(old(r).rest()) as int)
        },
{
    let ghost o1 = l.rest();
    let ghost o2 = r.rest();
    proof {
        lemma_run_facts(o1);
        lemma_run_facts(o2);
        assert(o1 =~= o1.skip(0));
        assert(o2 =~= o2.skip(0));
    }
    // Leading zeros, in lock-step while both sides have one.
    let ghost mut k: int = 0;
    while is_zero(l.head) && is_zero(r.head)
        invariant
            o1 == old(l).rest(),
            o2 == old(r).rest(),
            l.inv(l.chars.remaining()),
            r.inv(r.chars.remaining()),
            l.pending is None,
            r.pending is None,
            l.mode == old(l).mode,
            r.mode == old(r).mode,
            0 <= k <= zeros_end(o1),
            k <= zeros_end(o2),
            l.rest() == o1.skip(k),
            r.rest() == o2.skip(k),
        decreases zeros_end(o1) - k,
    {
        proof {
            lemma_run_facts(o1);
            lemma_run_facts(o2);
            lemma_head(*l, l.chars.remaining());
            lemma_head(*r, r.chars.remaining());
            assert(o1.skip(k)[0] == o1[k]);
            assert(o2.skip(k)[0] == o2[k]);
        }
        l.advance();
        r.advance();
        proof {
            assert(l.rest() =~= o1.skip(k + 1));
            assert(r.rest() =~= o2.skip(k + 1));
            k = k + 1;
        }
    }
    proof {
        lemma_run_facts(o1);
        lemma_run_facts(o2);
        lemma_head(*l, l.chars.remaining());
        lemma_head(*r, r.chars.remaining());
        if k < o1.len() {
            assert(o1.skip(k)[0] == o1[k]);
        }
        if k < o2.len() {
            assert(o2.skip(k)[0] == o2[k]);
        }
        if k < zeros_end(o1) {
            assert(o1[k] == '0');
        }
        if k < zeros_end(o2) {
            assert(o2[k] == '0');
        }
    }
    // With equal values, the run with more leading zeros is the longer one.
    let zero_order = if is_zero(l.head) {
        Ordering::Greater
    } else if is_zero(r.head) {
        Ordering::Less
    } else {
        Ordering::Equal
    };
    assert(zero_order == cmp_int(zeros_end(o1), zeros_end(o2)));
    skip_zeros(l, Ghost(o1), Ghost(k));
    skip_zeros(r, Ghost(o2), Ghost(k));
    let sig = compare_significant(l, r, Ghost(o1), Ghost(o2));
    proof {
        let d1 = digit_run(o1);
        let d2 = digit_run(o2);
        assert(d1.len() == digit_run_len(o1));
        assert(d2.len() == digit_run_len(o2));
        assert(significant(d1).len() == d1.len() - zeros_end(o1));
        assert(significant(d2).len() == d2.len() - zeros_end(o2));
    }
    match sig {
        Ordering::Equal => zero_order,
        _ => sig,
    }
}

/// The head of a cursor is the first character left.
proof fn lemma_head<'a>(c: Cursor<'a>, rem: Seq<char>)
    requires
        c.inv(rem),
    ensures
        c.head is Some ==> c.rest().len() > 0 && c.rest()[0] == c.head->0,
        c.head is None ==> c.rest().len() == 0,
{
    match c.head {
        Some(x) => {
            assert(c.rest() == seq![x] + rem);
            assert((seq![x] + rem)[0] == x);
        },
        None => {},
    }
}

/// The next character of a cursor that `m` keeps for the tie-break.
fn next_kept<'a>(c: &mut Cursor<'a>, m: Mode) -> (r: Option<char>)
    requires
        old(c).inv(old(c).chars.remaining()),
    ensures
        final(c).inv(final(c).chars.remaining()),
        r is None ==> kept(old(c).rest(), m).len() == 0,
        r is Some ==> {
            &&& kept(old(c).rest(), m).len() > 0
            &&& kept(old(c).rest(), m)[0] == r->0
            &&& kept(final(c).rest(), m) == kept(old(c).rest(), m).drop_first()
        },
{
    loop
        invariant
            c.inv(c.chars.remaining()),
            kept(c.rest(), m) == kept(old(c).rest(), m),
        decreases c.rest().len(),
    {
        proof {
            lemma_head(*c, c.chars.remaining());
        }
        match c.head {
            None => {
                return None;
            },
            Some(ch) => {
                let ghost before = c.rest();
                c.advance();
                if !m.only_alnum || char_is_alnum(ch) {
                    proof {
                        lemma_kept_first(before, m);
                    }
                    return Some(ch);
                }
            },
        }
    }
}

/// The kept characters of a sequence whose first character is kept.
proof fn lemma_kept_first(s: Seq<char>, m: Mode)
    requires
        s.len() > 0,
        !m.only_alnum || is_alnum(s[0]),
    ensures
        kept(s, m).len() > 0,
        kept(s, m)[0] == s[0],
        kept(s.drop_first(), m) == kept(s, m).drop_first(),
{
    if m.only_alnum {
        assert((seq![s[0]] + alnum_only(s.drop_first())).drop_first() =~= alnum_only(s.drop_first()));
    } else {
        assert(s.drop_first() =~= s.drop_first());
    }
}

/// Orders two strings by the characters that `m` keeps, code point by code point.
fn tie_break(a: &str, b: &str, m: Mode) -> (r: Ordering)
    ensures
        r == seq_cmp(kept(a@, m), kept(b@, m)),
{
    let mut x = Cursor::new(a, m);
    let mut y = Cursor::new(b, m);
    loop
        invariant
            x.inv(x.chars.remaining()),
            y.inv(y.chars.remaining()),
            seq_cmp(kept(a@, m), kept(b@, m)) == seq_cmp(kept(x.rest(), m), kept(y.rest(), m)),
        decreases kept(x.rest(), m).len(),
    {
        let p = next_kept(&mut x, m);
        let q = next_kept(&mut y, m);
        match (p, q) {
            (None, None) => {
                return Ordering::Equal;
            },
            (None, Some(_)) => {
                return Ordering::Less;
            },
            (Some(_), None) => {
                return Ordering::Greater;
            },
            (Some(c), Some(d)) => {
                if c != d {
                    return cmp_chars(c, d);
                }
            },
        }
    }
}

/// Compares two strings under a mode: token by token in lock-step, then by the
/// tie-break.
pub(crate) fn compare_with(a: &str, b: &str, m: Mode) -> (res: Ordering)
    ensures
        res == compare(a@, b@, m),
{
    let mut l = Cursor::new(a, m);
    let mut r = Cursor::new(b, m);
    proof {
        lemma_stream_rest(l);
        lemma_stream_rest(r);
    }
    loop
        invariant_except_break
            l.inv(l.chars.remaining()),
            r.inv(r.chars.remaining()),
            l.mode == m,
            r.mode == m,
            tokens_cmp(tokens(a@, m), tokens(b@, m)) == tokens_cmp(l.stream(), r.stream()),
        ensures
            tokens_cmp(tokens(a@, m), tokens(b@, m)) == Ordering::Equal,
        decreases l.stream().len(),
    {
        let ghost ls = l.stream();
        let ghost rs = r.stream();
        let x = l.next();
        let y = r.next();
        proof {
            if let Step::Digits = x {
                lemma_digit_stream(l);
            }
            if let Step::Digits = y {
                lemma_digit_stream(r);
            }
        }
        match (x, y) {
            (Step::End, Step::End) => {
                break ;
            },
            (Step::End, _) => {
                return Ordering::Less;
            },
            (_, Step::End) => {
                return Ordering::Greater;
            },
            (Step::Unit(u), Step::Unit(v)) => {
                let o = unit_cmp(u, v);
                if let Ordering::Equal = o {
                } else {
                    return o;
                }
            },
            (Step::Unit(u), Step::Digits) => {
                return if unit_rank(u) < 2 {
                    Ordering::Less
                } else {
                    Ordering::Greater
                };
            },
            (Step::Digits, Step::Unit(v)) => {
                return if unit_rank(v) < 2 {
                    Ordering::Greater
                } else {
                    Ordering::Less
                };
            },
            (Step::Digits, Step::Digits) => {
                let ghost l0 = l;
                let ghost r0 = r;
                let o = compare_numbers(&mut l, &mut r);
                if let Ordering::Equal = o {
                    proof {
                        lemma_stream_rest(l);
                        lemma_stream_rest(r);
                    }
                } else {
                    return o;
                }
            },
        }
    }
    tie_break(a, b, m)
}

} // verus!
