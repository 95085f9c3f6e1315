use core::cmp::Ordering;
use lexicmp::{
    cmp, fold_char, lexical_cmp, lexical_only_alnum_cmp, natural_cmp, natural_lexical_cmp,
    natural_lexical_only_alnum_cmp, natural_only_alnum_cmp, only_alnum_cmp, Folded,
};

const ALL: [fn(&str, &str) -> Ordering; 8] = [
    cmp,
    only_alnum_cmp,
    lexical_cmp,
    lexical_only_alnum_cmp,
    natural_cmp,
    natural_only_alnum_cmp,
    natural_lexical_cmp,
    natural_lexical_only_alnum_cmp,
];

const SAMPLES: [&str; 12] =
    ["", "a", "A", "ä", "ß", "ss", "007", "7", "x-5", "x5", "Foo", "fóò"];

#[test]
fn repeated_calls_agree() {
    for f in ALL {
        for a in SAMPLES {
            for b in SAMPLES {
                assert_eq!(f(a, b), f(a, b));
            }
        }
    }
}

#[test]
fn identical_strings_are_equal() {
    for f in ALL {
        for a in SAMPLES {
            assert_eq!(f(a, a), Ordering::Equal);
        }
    }
}

#[test]
fn swapping_reverses() {
    for f in ALL {
        for a in SAMPLES {
            for b in SAMPLES {
                assert_eq!(f(b, a), f(a, b).reverse());
            }
        }
    }
}

#[test]
fn less_is_transitive() {
    for f in ALL {
        for a in SAMPLES {
            for b in SAMPLES {
                for c in SAMPLES {
                    if f(a, b) == Ordering::Less && f(b, c) == Ordering::Less {
                        assert_eq!(f(a, c), Ordering::Less);
                    }
                }
            }
        }
    }
}

#[test]
fn folding_first_gives_the_same_order() {
    assert_eq!(lexical_cmp("Ärger", "Apfel"), lexical_cmp("arger", "apfel"));
    assert_eq!(lexical_cmp("Straße", "Strasse!"), lexical_cmp("strasse", "strasse!"));
    assert_eq!(lexical_cmp("œuvre", "Oeuvres"), lexical_cmp("oeuvre", "oeuvres"));
}

#[test]
fn lexical_comparison_ignores_case() {
    assert_eq!(lexical_cmp("ABC", "abd"), Ordering::Less);
    assert_eq!(lexical_cmp("abc", "ABD"), Ordering::Less);
    assert_eq!(lexical_cmp("ABC", "abc"), Ordering::Less);
    assert_ne!(cmp("ABC", "abc"), Ordering::Equal);
    assert_eq!(cmp("abc", "ABD"), Ordering::Greater);
}

#[test]
fn natural_numeric_ordering() {
    assert_eq!(natural_cmp("50", "100"), Ordering::Less);
    assert_eq!(cmp("50", "100"), Ordering::Greater);
    assert_eq!(natural_cmp("a2", "a10"), Ordering::Less);
    assert_eq!(
        natural_cmp("123456789012345678901234567890", "123456789012345678901234567891"),
        Ordering::Less
    );
    assert_eq!(natural_cmp("99999999999999999999999", "100000000000000000000000"), Ordering::Less);
}

#[test]
fn leading_zeros_put_the_longer_run_after() {
    assert_eq!(natural_cmp("007", "7"), Ordering::Greater);
    assert_eq!(natural_cmp("7", "007"), Ordering::Less);
    assert_eq!(natural_cmp("010", "9"), Ordering::Greater);
    assert_eq!(natural_cmp("000", "0"), Ordering::Greater);
    assert_eq!(natural_cmp("0", "1"), Ordering::Less);
}

#[test]
fn skipping_makes_variants_adjacent() {
    assert_eq!(natural_lexical_only_alnum_cmp("f-5", "f5"), Ordering::Equal);
    assert_eq!(only_alnum_cmp("a-b", "ab"), Ordering::Equal);
    assert_eq!(natural_only_alnum_cmp("v 1.10", "v1.9"), Ordering::Greater);
    assert_eq!(lexical_only_alnum_cmp("--", ""), Ordering::Equal);
}

#[test]
fn punctuation_sorts_before_alphanumerics() {
    assert_eq!(lexical_cmp(".", "a"), Ordering::Less);
    assert_eq!(lexical_cmp("~", "a"), Ordering::Less);
    assert_eq!(cmp("~", "a"), Ordering::Less);
    assert_eq!(natural_cmp("-", "0"), Ordering::Less);
}

#[test]
fn numbers_sort_between_digits_and_letters() {
    assert_eq!(natural_cmp("1", "a"), Ordering::Less);
    assert_eq!(natural_lexical_cmp("z", "9"), Ordering::Greater);
    assert_eq!(natural_lexical_cmp("100", "B!"), Ordering::Less);
}

#[test]
fn tie_break_is_deterministic() {
    assert_ne!(lexical_cmp("Foo", "fóò"), Ordering::Equal);
    assert_eq!(lexical_cmp("Foo", "fóò"), Ordering::Less);
    assert_eq!(lexical_cmp("fóò", "Foo"), Ordering::Greater);
    assert_eq!(lexical_cmp("Foo", "fóò"), lexical_cmp("Foo", "fóò"));
}

#[test]
fn folds_expand_in_lock_step() {
    assert_eq!(lexical_cmp("ß", "ss"), Ordering::Greater);
    assert_eq!(lexical_cmp("ßa", "ssb"), Ordering::Less);
    assert_eq!(lexical_cmp("æ", "af"), Ordering::Less);
    assert_eq!(lexical_cmp("Þorn", "thorn"), Ordering::Greater);
    assert_eq!(lexical_cmp("Þorn", "thorns"), Ordering::Less);
}

#[test]
fn empty_strings() {
    for f in ALL {
        assert_eq!(f("", ""), Ordering::Equal);
        assert_eq!(f("", "a"), Ordering::Less);
        assert_eq!(f("a", ""), Ordering::Greater);
    }
}

#[test]
fn folding_single_characters() {
    assert_eq!(fold_char('ß'), Folded { first: 's', second: Some('s') });
    assert_eq!(fold_char('Á'), Folded { first: 'a', second: None });
    assert_eq!(fold_char('A'), Folded { first: 'a', second: None });
    assert_eq!(fold_char('!'), Folded { first: '!', second: None });
    assert_eq!(fold_char('Œ'), Folded { first: 'o', second: Some('e') });
    assert_eq!(fold_char('ž'), Folded { first: 'z', second: None });
    assert_eq!(fold_char('α'), Folded { first: 'α', second: None });
}
