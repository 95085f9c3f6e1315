use core::cmp::Ordering;
use lexicmp::{
    cmp, lexical_cmp, lexical_only_alnum_cmp, natural_cmp, natural_lexical_cmp,
    natural_lexical_only_alnum_cmp, natural_only_alnum_cmp, only_alnum_cmp, StringSort,
};

#[test]
fn test_sort() {
    let strings = [
        "-", "-$", "-a", "100", "50", "a", "ä", "aa", "áa", "AB", "Ab", "ab", "AE", "ae", "æ", "af",
    ];
    let strings_nat = [
        "-", "-$", "-a", "50", "100", "a", "ä", "aa", "áa", "AB", "Ab", "ab", "AE", "ae", "æ", "af",
    ];

    let mut sorted = strings.clone();
    sorted.string_sort(lexical_cmp);
    assert_eq!(strings, sorted);

    let mut sorted_nat = strings_nat.clone();
    sorted_nat.string_sort(natural_lexical_cmp);
    assert_eq!(strings_nat, sorted_nat);
}

#[test]
fn sorted_input_stays_sorted() {
    let expected = [".", "50", "100", "B!", "é", "hello", "ß", "world"];
    let mut strings = expected;
    strings.string_sort_unstable(natural_lexical_cmp);
    assert_eq!(strings, expected);
}

#[test]
fn every_rotation_sorts_to_the_same_order() {
    let expected = [".", "50", "100", "B!", "é", "hello", "ß", "world"];
    for shift in 0..expected.len() {
        let mut strings: Vec<&str> = Vec::new();
        for i in 0..expected.len() {
            strings.push(expected[(i + shift) % expected.len()]);
        }
        strings.string_sort_unstable(natural_lexical_cmp);
        assert_eq!(strings, expected);
    }
}

#[test]
fn reversed_input_sorts() {
    let mut strings = vec!["ß", "é", "100", "hello", "world", "50", ".", "B!"];
    strings.string_sort(natural_lexical_cmp);
    assert_eq!(&strings, &[".", "50", "100", "B!", "é", "hello", "ß", "world"]);
}

#[test]
fn sorts_owned_strings() {
    let mut strings: Vec<String> = vec![
        String::from("Lorem"),
        String::from("ipsum"),
        String::from("dolor"),
        String::from("sit"),
        String::from("amet"),
    ];
    strings.string_sort(natural_lexical_cmp);
    assert_eq!(strings, vec!["amet", "dolor", "ipsum", "Lorem", "sit"]);
}

#[test]
fn unstable_sort_ignores_case() {
    let mut slice = ["The", "quick", "brown", "fox"];
    slice.string_sort_unstable(natural_lexical_cmp);
    assert_eq!(slice, ["brown", "fox", "quick", "The"]);
}

#[test]
fn sort_by_trimmed_view() {
    let mut slice = [" moe", "Eeny", " miny", " meeny"];
    slice.string_sort_by(natural_lexical_cmp, str::trim_start);
    assert_eq!(slice, ["Eeny", " meeny", " miny", " moe"]);

    let mut slice2 = [" moe", "Eeny", " miny", " meeny"];
    slice2.string_sort_unstable_by(natural_lexical_cmp, str::trim_start);
    assert_eq!(slice2, ["Eeny", " meeny", " miny", " moe"]);
}

#[test]
fn stable_sort_keeps_equal_items_in_order() {
    let mut slice = ["b", "a-1", "a1", "a-1"];
    slice.string_sort(natural_lexical_only_alnum_cmp);
    assert_eq!(slice, ["a-1", "a1", "a-1", "b"]);
}

#[test]
fn sorts_with_every_comparison() {
    let mut a = ["b", "A", "a"];
    a.string_sort(cmp);
    assert_eq!(a, ["A", "a", "b"]);
    let mut b = ["b-", "a"];
    b.string_sort(only_alnum_cmp);
    assert_eq!(b, ["a", "b-"]);
    let mut c = ["x10", "x9"];
    c.string_sort(natural_cmp);
    assert_eq!(c, ["x9", "x10"]);
    let mut d = ["x-10", "x9"];
    d.string_sort(natural_only_alnum_cmp);
    assert_eq!(d, ["x9", "x-10"]);
    let mut e = ["B", "a"];
    e.string_sort(lexical_only_alnum_cmp);
    assert_eq!(e, ["a", "B"]);
    assert_eq!(lexical_cmp("a", "a"), Ordering::Equal);
}
