//! The laws of the ordering: every comparison mode gives a total order on the
//! strings it tells apart.
use core::cmp::Ordering;
use vstd::prelude::*;
use crate::fold::{fold_spec, lemma_latin_fixed};
use crate::order::{
    cmp_char, compare, kept, lemma_leading_zeros, leading_zeros, number_cmp, reversed, seq_cmp,
    significant, token_cmp, tokens, tokens_cmp, unit_tokens, Mode, Token,
};

verus! {

proof fn lemma_cmp_char_equal(a: char, b: char)
    ensures
        cmp_char(a, b) == Ordering::Equal ==> a == b,
{
}

proof fn lemma_seq_cmp_reflexive(a: Seq<char>)
    ensures
        seq_cmp(a, a) == Ordering::Equal,
    decreases a.len(),
{
    if a.len() > 0 {
        lemma_seq_cmp_reflexive(a.drop_first());
    }
}

proof fn lemma_seq_cmp_antisymmetric(a: Seq<char>, b: Seq<char>)
    ensures
        seq_cmp(b, a) == reversed(seq_cmp(a, b)),
    decreases a.len(),
{
    if a.len() > 0 && b.len() > 0 {
        lemma_seq_cmp_antisymmetric(a.drop_first(), b.drop_first());
    }
}

proof fn lemma_seq_cmp_equal(a: Seq<char>, b: Seq<char>)
    ensures
        seq_cmp(a, b) == Ordering::Equal ==> a == b,
    decreases a.len(),
{
    if seq_cmp(a, b) == Ordering::Equal && a.len() > 0 {
        lemma_cmp_char_equal(a[0], b[0]);
        lemma_seq_cmp_equal(a.drop_first(), b.drop_first());
        assert forall|i: int| 0 <= i < a.len() implies a[i] == b[i] by {
            if i > 0 {
                assert(a[i] == a.drop_first()[i - 1]);
                assert(b[i] == b.drop_first()[i - 1]);
            }
        }
        assert(a =~= b);
    }
    if seq_cmp(a, b) == Ordering::Equal && a.len() == 0 {
        assert(a =~= b);
    }
}

proof fn lemma_seq_cmp_transitive(a: Seq<char>, b: Seq<char>, c: Seq<char>)
    requires
        seq_cmp(a, b) == Ordering::Less,
        seq_cmp(b, c) == Ordering::Less,
    ensures
        seq_cmp(a, c) == Ordering::Less,
    decreases a.len(),
{
    if a.len() > 0 && b.len() > 0 && c.len() > 0 {
        if a[0] == b[0] && b[0] == c[0] {
            lemma_seq_cmp_transitive(a.drop_first(), b.drop_first(), c.drop_first());
        }
    }
}

proof fn lemma_number_parts(a: Seq<char>)
    ensures
        leading_zeros(a) <= a.len(),
        significant(a).len() == a.len() - leading_zeros(a),
        a == a.take(leading_zeros(a) as int) + significant(a),
        forall|i: int| 0 <= i < leading_zeros(a) ==> #[trigger] a[i] == '0',
{
    lemma_leading_zeros(a);
    assert(a =~= a.take(leading_zeros(a) as int) + significant(a));
}

proof fn lemma_number_equal(a: Seq<char>, b: Seq<char>)
    ensures
        number_cmp(a, b) == Ordering::Equal ==> a == b,
{
    if number_cmp(a, b) == Ordering::Equal {
        lemma_number_parts(a);
        lemma_number_parts(b);
        lemma_seq_cmp_equal(significant(a), significant(b));
        let z = leading_zeros(a) as int;
        assert(leading_zeros(b) == z);
        assert(a.take(z) =~= b.take(z));
    }
}

proof fn lemma_number_cmp_laws(a: Seq<char>, b: Seq<char>, c: Seq<char>)
    ensures
        number_cmp(b, a) == reversed(number_cmp(a, b)),
        number_cmp(a, b) == Ordering::Less && number_cmp(b, c) == Ordering::Less ==> number_cmp(
            a,
            c,
        ) == Ordering::Less,
{
    let (x, y, z) = (significant(a), significant(b), significant(c));
    lemma_seq_cmp_antisymmetric(x, y);
    lemma_seq_cmp_equal(x, y);
    lemma_seq_cmp_equal(y, z);
    if seq_cmp(x, y) == Ordering::Less && seq_cmp(y, z) == Ordering::Less {
        lemma_seq_cmp_transitive(x, y, z);
    }
}

proof fn lemma_token_cmp_laws(s: Token, t: Token, u: Token)
    ensures
        token_cmp(s, s) == Ordering::Equal,
        token_cmp(t, s) == reversed(token_cmp(s, t)),
        token_cmp(s, t) == Ordering::Equal ==> s == t,
        token_cmp(s, t) == Ordering::Less && token_cmp(t, u) == Ordering::Less ==> token_cmp(s, u)
            == Ordering::Less,
{
    match (s, t, u) {
        (Token::Number(a), Token::Number(b), Token::Number(c)) => {
            lemma_number_cmp_laws(a, b, c);
            lemma_number_equal(a, b);
        },
        (Token::Number(a), Token::Number(b), _) => {
            lemma_number_cmp_laws(a, b, a);
            lemma_number_equal(a, b);
        },
        _ => {},
    }
    if let Token::Number(a) = s {
        lemma_number_parts(a);
        lemma_seq_cmp_reflexive(significant(a));
    }
}

proof fn lemma_tokens_cmp_laws(a: Seq<Token>, b: Seq<Token>, c: Seq<Token>)
    ensures
        tokens_cmp(a, a) == Ordering::Equal,
        tokens_cmp(b, a) == reversed(tokens_cmp(a, b)),
        tokens_cmp(a, b) == Ordering::Equal ==> a == b,
        tokens_cmp(a, b) == Ordering::Less && tokens_cmp(b, c) == Ordering::Less ==> tokens_cmp(
            a,
            c,
        ) == Ordering::Less,
    decreases a.len(),
{
    if a.len() > 0 {
        let c1 = if c.len() > 0 {
            c[0]
        } else {
            a[0]
        };
        let b1 = if b.len() > 0 {
            b[0]
        } else {
            a[0]
        };
        lemma_token_cmp_laws(a[0], b1, c1);
        lemma_token_cmp_laws(b1, c1, a[0]);
        lemma_token_cmp_laws(a[0], c1, b1);
        if b.len() > 0 {
            let cr = if c.len() > 0 {
                c.drop_first()
            } else {
                c
            };
            lemma_tokens_cmp_laws(a.drop_first(), b.drop_first(), cr);
            if tokens_cmp(a, b) == Ordering::Equal {
                assert(a =~= b) by {
                    assert forall|i: int| 0 <= i < a.len() implies a[i] == b[i] by {
                        if i > 0 {
                            assert(a[i] == a.drop_first()[i - 1]);
                            assert(b[i] == b.drop_first()[i - 1]);
                        }
                    }
                }
            }
        } else {
            lemma_tokens_cmp_laws(a.drop_first(), a.drop_first(), a.drop_first());
        }
    } else if b.len() == 0 {
        assert(a =~= b);
    }
}

/// Every string compares equal to itself, in every mode.
pub proof fn lemma_compare_reflexive(a: Seq<char>, m: Mode)
    ensures
        compare(a, a, m) == Ordering::Equal,
{
    let t = tokens(a, m);
    lemma_tokens_cmp_laws(t, t, t);
    lemma_seq_cmp_reflexive(kept(a, m));
}

/// Swapping the two strings reverses the result, in every mode.
pub proof fn lemma_compare_antisymmetric(a: Seq<char>, b: Seq<char>, m: Mode)
    ensures
        compare(b, a, m) == reversed(compare(a, b, m)),
{
    let (ta, tb) = (tokens(a, m), tokens(b, m));
    lemma_tokens_cmp_laws(ta, tb, ta);
    lemma_seq_cmp_antisymmetric(kept(a, m), kept(b, m));
}

/// If `a` comes before `b` and `b` before `c`, then `a` comes before `c`, in every
/// mode.
pub proof fn lemma_compare_transitive(a: Seq<char>, b: Seq<char>, c: Seq<char>, m: Mode)
    requires
        compare(a, b, m) == Ordering::Less,
        compare(b, c, m) == Ordering::Less,
    ensures
        compare(a, c, m) == Ordering::Less,
{
    let (ta, tb, tc) = (tokens(a, m), tokens(b, m), tokens(c, m));
    lemma_tokens_cmp_laws(ta, tb, tc);
    lemma_tokens_cmp_laws(tb, tc, ta);
    let (ka, kb, kc) = (kept(a, m), kept(b, m), kept(c, m));
    lemma_seq_cmp_equal(ka, kb);
    lemma_seq_cmp_equal(kb, kc);
    if seq_cmp(ka, kb) == Ordering::Less && seq_cmp(kb, kc) == Ordering::Less {
        lemma_seq_cmp_transitive(ka, kb, kc);
    }
}

/// Outside the `only_alnum` modes, two strings compare equal only when they are the
/// same string.
pub proof fn lemma_compare_equal(a: Seq<char>, b: Seq<char>, m: Mode)
    requires
        !m.only_alnum,
    ensures
        compare(a, b, m) == Ordering::Equal <==> a == b,
{
    let (ta, tb) = (tokens(a, m), tokens(b, m));
    lemma_tokens_cmp_laws(ta, tb, ta);
    lemma_seq_cmp_equal(a, b);
    if a == b {
        lemma_compare_reflexive(a, m);
    }
}

/// The lexical mode without digit runs or skipping, that of `lexical_cmp`.
pub open spec fn lexical_mode() -> Mode {
    Mode { natural: false, only_alnum: false, lexical: true }
}

/// A string with every character replaced by what it folds to.
pub open spec fn fold_str(s: Seq<char>) -> Seq<char>
    decreases s.len(),
{
    if s.len() == 0 {
        seq![]
    } else {
        fold_spec(s[0]) + fold_str(s.drop_first())
    }
}

proof fn lemma_unit_tokens_cons(c: char, rest: Seq<char>)
    ensures
        unit_tokens(seq![c] + rest) == seq![Token::Unit(c)] + unit_tokens(rest),
{
    let s = seq![c] + rest;
    assert(s[0] == c);
    assert(s.drop_first() =~= rest);
    assert(unit_tokens(s) == seq![Token::Unit(c)] + unit_tokens(s.drop_first()));
}

proof fn lemma_unit_tokens_first(x: Seq<char>)
    requires
        x.len() > 0,
    ensures
        unit_tokens(x) == seq![Token::Unit(x[0])] + unit_tokens(x.drop_first()),
{
    assert(x =~= seq![x[0]] + x.drop_first());
    lemma_unit_tokens_cons(x[0], x.drop_first());
}

proof fn lemma_unit_tokens_append(x: Seq<char>, y: Seq<char>)
    ensures
        unit_tokens(x + y) == unit_tokens(x) + unit_tokens(y),
    decreases x.len(),
{
    if x.len() == 0 {
        assert(x + y =~= y);
        assert(unit_tokens(x) =~= Seq::<Token>::empty());
        assert(unit_tokens(x) + unit_tokens(y) =~= unit_tokens(y));
    } else {
        assert((x + y).drop_first() =~= x.drop_first() + y);
        assert((x + y)[0] == x[0]);
        lemma_unit_tokens_append(x.drop_first(), y);
        lemma_unit_tokens_first(x);
        lemma_unit_tokens_first(x + y);
        assert(unit_tokens(x + y) =~= unit_tokens(x) + unit_tokens(y));
    }
}

proof fn lemma_unit_token_parts(c: char, rest: Seq<Token>)
    ensures
        (seq![Token::Unit(c)] + rest)[0] == Token::Unit(c),
        (seq![Token::Unit(c)] + rest).drop_first() == rest,
{
    assert((seq![Token::Unit(c)] + rest).drop_first() =~= rest);
}

proof fn lemma_unit_tokens_injective(x: Seq<char>, y: Seq<char>)
    ensures
        unit_tokens(x) == unit_tokens(y) ==> x == y,
    decreases x.len(),
{
    if unit_tokens(x) == unit_tokens(y) {
        if x.len() > 0 && y.len() > 0 {
            lemma_unit_tokens_first(x);
            lemma_unit_tokens_first(y);
            lemma_unit_token_parts(x[0], unit_tokens(x.drop_first()));
            lemma_unit_token_parts(y[0], unit_tokens(y.drop_first()));
            lemma_unit_tokens_injective(x.drop_first(), y.drop_first());
            assert(x =~= seq![x[0]] + x.drop_first());
            assert(y =~= seq![y[0]] + y.drop_first());
        } else if x.len() > 0 {
            lemma_unit_tokens_first(x);
        } else if y.len() > 0 {
            lemma_unit_tokens_first(y);
        } else {
            assert(x =~= y);
        }
    }
}

/// The lexical tokens of a string are the units of its folded form.
proof fn lemma_lexical_tokens(s: Seq<char>)
    ensures
        tokens(s, lexical_mode()) == unit_tokens(fold_str(s)),
    decreases s.len(),
{
    if s.len() > 0 {
        lemma_lexical_tokens(s.drop_first());
        lemma_unit_tokens_append(fold_spec(s[0]), fold_str(s.drop_first()));
    }
}

proof fn lemma_fold_str_append(x: Seq<char>, y: Seq<char>)
    ensures
        fold_str(x + y) == fold_str(x) + fold_str(y),
    decreases x.len(),
{
    if x.len() == 0 {
        assert(x + y =~= y);
        assert(fold_str(x) + fold_str(y) =~= fold_str(y));
    } else {
        assert((x + y).drop_first() =~= x.drop_first() + y);
        lemma_fold_str_append(x.drop_first(), y);
        assert(fold_str(x + y) =~= fold_str(x) + fold_str(y));
    }
}

/// A character that folds to itself.
proof fn lemma_fold_fixed_one(u: char)
    requires
        fold_spec(u) == seq![u],
    ensures
        fold_str(seq![u]) == seq![u],
{
    assert(seq![u].drop_first() =~= Seq::<char>::empty());
    assert(seq![u][0] == u);
    assert(fold_str(Seq::<char>::empty()) =~= Seq::<char>::empty());
    assert(fold_str(seq![u]) == fold_spec(u) + fold_str(Seq::<char>::empty()));
    assert(fold_str(seq![u]) =~= seq![u]);
}

/// What a character folds to folds to itself.
proof fn lemma_fold_idempotent_char(c: char)
    ensures
        fold_str(fold_spec(c)) == fold_spec(c),
{
    lemma_latin_fixed(c);
    let f = fold_spec(c);
    if f.len() == 1 {
        assert(f =~= seq![f[0]]);
        lemma_fold_fixed_one(f[0]);
    } else {
        assert(f =~= seq![f[0]] + seq![f[1]]);
        lemma_fold_fixed_one(f[0]);
        lemma_fold_fixed_one(f[1]);
        lemma_fold_str_append(seq![f[0]], seq![f[1]]);
    }
}

proof fn lemma_fold_str_idempotent(s: Seq<char>)
    ensures
        fold_str(fold_str(s)) == fold_str(s),
    decreases s.len(),
{
    if s.len() > 0 {
        lemma_fold_str_idempotent(s.drop_first());
        lemma_fold_idempotent_char(s[0]);
        lemma_fold_str_append(fold_spec(s[0]), fold_str(s.drop_first()));
    }
}

/// Comparing two strings lexically gives what comparing their folded forms gives,
/// except for distinct strings that fold to the same form: those are told apart by
/// the tie-break, while their folded forms are equal.
pub proof fn lemma_lexical_cmp_of_folded(a: Seq<char>, b: Seq<char>)
    requires
        fold_str(a) != fold_str(b) || a == b,
    ensures
        compare(a, b, lexical_mode()) == compare(fold_str(a), fold_str(b), lexical_mode()),
{
    let m = lexical_mode();
    lemma_lexical_tokens(a);
    lemma_lexical_tokens(b);
    lemma_lexical_tokens(fold_str(a));
    lemma_lexical_tokens(fold_str(b));
    lemma_fold_str_idempotent(a);
    lemma_fold_str_idempotent(b);
    let (ta, tb) = (tokens(a, m), tokens(b, m));
    lemma_tokens_cmp_laws(ta, tb, ta);
    lemma_unit_tokens_injective(fold_str(a), fold_str(b));
    if a == b {
        lemma_compare_reflexive(a, m);
        lemma_compare_reflexive(fold_str(a), m);
    }
}

} // verus!
