//! Sorting slices of strings with one of the comparison functions.
use core::cmp::Ordering;
use vstd::prelude::*;
use crate::laws::lemma_compare_antisymmetric;
use crate::order::{compare, Mode};

verus! {

broadcast use vstd::seq_lib::group_to_multiset_ensures;

/// An item that has a text to be compared by.
pub trait AsText {
    spec fn text(&self) -> Seq<char>;

    fn as_text(&self) -> (r: &str)
        ensures
            r@ == self.text(),
    ;
}

impl<'s> AsText for &'s str {
    open spec fn text(&self) -> Seq<char> {
        (**self)@
    }

    fn as_text(&self) -> (r: &str) {
        *self
    }
}

impl AsText for String {
    open spec fn text(&self) -> Seq<char> {
        self@
    }

    fn as_text(&self) -> (r: &str) {
        self.as_str()
    }
}

/// Whatever `cmp` answers for two strings with the texts `a` and `b`, it does not
/// put `a` after `b`.
pub open spec fn not_after<F: Fn(&str, &str) -> Ordering>(cmp: F, a: Seq<char>, b: Seq<char>) -> bool {
    forall|x: &str, y: &str, r: Ordering|
        x@ == a && y@ == b && #[trigger] cmp.ensures((x, y), r) ==> r != Ordering::Greater
}

/// `cmp` can be called on any two strings, its answer depends on their texts alone,
/// and it answers `Greater` only for pairs whose reverse it does not answer `Greater`.
pub open spec fn is_comparator<F: Fn(&str, &str) -> Ordering>(cmp: F) -> bool {
    &&& forall|x: &str, y: &str| #[trigger] cmp.requires((x, y))
    &&& forall|x: &str, y: &str, r: Ordering|
        #[trigger] cmp.ensures((x, y), r) && r != Ordering::Greater ==> not_after(cmp, x@, y@)
    &&& forall|x: &str, y: &str|
        #[trigger] cmp.ensures((x, y), Ordering::Greater) ==> not_after(cmp, y@, x@)
}

/// Each text is, by `cmp`, not after the next one.
pub open spec fn sorted_by<F: Fn(&str, &str) -> Ordering>(cmp: F, t: Seq<Seq<char>>) -> bool {
    forall|i: int| 0 <= i < t.len() - 1 ==> not_after(cmp, #[trigger] t[i], t[i + 1])
}

pub open spec fn texts_of<A: AsText>(s: Seq<A>) -> Seq<Seq<char>> {
    s.map_values(|a: A| a.text())
}

/// Swaps the items at `i` and `i + 1`.
fn swap_next<A>(v: &mut [A], i: usize)
    requires
        i + 1 < old(v)@.len(),
    ensures
        final(v)@ == old(v)@.update(i as int, old(v)@[i + 1]).update(i + 1, old(v)@[i as int]),
{
    let ghost s = v@;
    let n = v.len();
    let (left, right) = v.split_at_mut(i + 1);
    let a = left.last_mut().unwrap();
    let b = right.first_mut().unwrap();
    core::mem::swap(a, b);
    proof {
        assert(v@ =~= s.update(i as int, s[i + 1]).update(i + 1, s[i as int]));
    }
}

/// Sorts `v` by insertion, moving each item left past the items that `cmp` puts
/// after it. Equal items keep their order.
fn insertion_sort<A: AsText, F: Fn(&str, &str) -> Ordering>(v: &mut [A], cmp: F)
    requires
        is_comparator(cmp),
    ensures
        final(v)@.to_multiset() == old(v)@.to_multiset(),
        texts_of(final(v)@).to_multiset() == texts_of(old(v)@).to_multiset(),
        sorted_by(cmp, texts_of(final(v)@)),
{
    let n = v.len();
    let mut i: usize = 1;
    if n == 0 {
        return;
    }
    while i < n
        invariant
            is_comparator(cmp),
            n == v@.len(),
            1 <= i <= n,
            v@.to_multiset() == old(v)@.to_multiset(),
            texts_of(v@).to_multiset() == texts_of(old(v)@).to_multiset(),
            forall|k: int| 0 <= k < i - 1 ==> not_after(cmp, #[trigger] v@[k].text(), v@[k + 1].text()),
        decreases n - i,
    {
        let mut j: usize = i;
        while j > 0
            invariant
                is_comparator(cmp),
                n == v@.len(),
                1 <= i < n,
                j <= i,
                v@.to_multiset() == old(v)@.to_multiset(),
                texts_of(v@).to_multiset() == texts_of(old(v)@).to_multiset(),
            texts_of(v@).to_multiset() == texts_of(old(v)@).to_multiset(),
                forall|k: int|
                    0 <= k < i && k != j - 1 && k != j ==> not_after(
                        cmp,
                        #[trigger] v@[k].text(),
                        v@[k + 1].text(),
                    ),
                j < i ==> not_after(cmp, v@[j as int].text(), v@[j + 1].text()),
                0 < j < i ==> not_after(cmp, v@[j - 1].text(), v@[j + 1].text()),
            ensures
                n == v@.len(),
                v@.to_multiset() == old(v)@.to_multiset(),
                texts_of(v@).to_multiset() == texts_of(old(v)@).to_multiset(),
            texts_of(v@).to_multiset() == texts_of(old(v)@).to_multiset(),
                forall|k: int|
                    0 <= k < i ==> not_after(cmp, #[trigger] v@[k].text(), v@[k + 1].text()),
            decreases j,
        {
            let x = v[j - 1].as_text();
            let y = v[j].as_text();
            let o = cmp(x, y);
            if let Ordering::Greater = o {
                let ghost s = v@;
                swap_next(v, j - 1);
                proof {
                    assert(s.update(j - 1, s[j as int]).update(j as int, s[j - 1]).to_multiset()
                        =~= s.to_multiset());
                    let t = texts_of(s);
                    assert(texts_of(v@) =~= t.update(j - 1, t[j as int]).update(j as int, t[j - 1]));
                    assert(t.update(j - 1, t[j as int]).update(j as int, t[j - 1]).to_multiset()
                        =~= t.to_multiset());
                }
                j = j - 1;
            } else {
                break ;
            }
        }
        i = i + 1;
    }
    proof {
        assert forall|k: int| 0 <= k < texts_of(v@).len() - 1 implies not_after(
            cmp,
            #[trigger] texts_of(v@)[k],
            texts_of(v@)[k + 1],
        ) by {
            assert(texts_of(v@)[k] == v@[k].text());
            assert(texts_of(v@)[k + 1] == v@[k + 1].text());
        }
    }
}

/// `map` can be called on any string, and the text of its result depends on the text
/// of its argument alone.
pub open spec fn is_text_map<M: Fn(&str) -> &str>(map: M) -> bool {
    &&& forall|x: &str| #[trigger] map.requires((x,))
    &&& forall|x: &str, y: &str, mx: &str, my: &str|
        #[trigger] map.ensures((x,), mx) && #[trigger] map.ensures((y,), my) && x@ == y@ ==> mx@
            == my@
}

/// `cmp` does not put what `map` gives for `a` after what it gives for `b`.
pub open spec fn not_after_mapped<F: Fn(&str, &str) -> Ordering, M: Fn(&str) -> &str>(
    cmp: F,
    map: M,
    a: Seq<char>,
    b: Seq<char>,
) -> bool {
    forall|x: &str, y: &str, mx: &str, my: &str|
        x@ == a && y@ == b && #[trigger] map.ensures((x,), mx) && #[trigger] map.ensures((y,), my)
            ==> not_after(cmp, mx@, my@)
}

pub open spec fn sorted_by_mapped<F: Fn(&str, &str) -> Ordering, M: Fn(&str) -> &str>(
    cmp: F,
    map: M,
    t: Seq<Seq<char>>,
) -> bool {
    forall|i: int| 0 <= i < t.len() - 1 ==> not_after_mapped(cmp, map, #[trigger] t[i], t[i + 1])
}

/// Sorts `v` by insertion, comparing the texts that `map` gives for the items.
fn insertion_sort_by<A: AsText, F: Fn(&str, &str) -> Ordering, M: Fn(&str) -> &str>(
    v: &mut [A],
    cmp: F,
    map: M,
)
    requires
        is_comparator(cmp),
        is_text_map(map),
    ensures
        final(v)@.to_multiset() == old(v)@.to_multiset(),
        texts_of(final(v)@).to_multiset() == texts_of(old(v)@).to_multiset(),
        sorted_by_mapped(cmp, map, texts_of(final(v)@)),
{
    let n = v.len();
    let mut i: usize = 1;
    if n == 0 {
        return;
    }
    while i < n
        invariant
            is_comparator(cmp),
            is_text_map(map),
            n == v@.len(),
            1 <= i <= n,
            v@.to_multiset() == old(v)@.to_multiset(),
            texts_of(v@).to_multiset() == texts_of(old(v)@).to_multiset(),
            forall|k: int| 0 <= k < i - 1 ==> not_after_mapped(cmp, map, #[trigger] v@[k].text(), v@[k + 1].text()),
        decreases n - i,
    {
        let mut j: usize = i;
        while j > 0
            invariant
                is_comparator(cmp),
                is_text_map(map),
            is_text_map(map),
                n == v@.len(),
                1 <= i < n,
                j <= i,
                v@.to_multiset() == old(v)@.to_multiset(),
                texts_of(v@).to_multiset() == texts_of(old(v)@).to_multiset(),
            texts_of(v@).to_multiset() == texts_of(old(v)@).to_multiset(),
                forall|k: int|
                    0 <= k < i && k != j - 1 && k != j ==> not_after_mapped(
                        cmp,
                        map,
                        #[trigger] v@[k].text(),
                        v@[k + 1].text(),
                    ),
                j < i ==> not_after_mapped(cmp, map, v@[j as int].text(), v@[j + 1].text()),
                0 < j < i ==> not_after_mapped(cmp, map, v@[j - 1].text(), v@[j + 1].text()),
            ensures
                n == v@.len(),
                v@.to_multiset() == old(v)@.to_multiset(),
                texts_of(v@).to_multiset() == texts_of(old(v)@).to_multiset(),
            texts_of(v@).to_multiset() == texts_of(old(v)@).to_multiset(),
                forall|k: int|
                    0 <= k < i ==> not_after_mapped(cmp, map, #[trigger] v@[k].text(), v@[k + 1].text()),
            decreases j,
        {
            let x = map(v[j - 1].as_text());
            let y = map(v[j].as_text());
            let o = cmp(x, y);
            if let Ordering::Greater = o {
                let ghost s = v@;
                swap_next(v, j - 1);
                proof {
                    assert(s.update(j - 1, s[j as int]).update(j as int, s[j - 1]).to_multiset()
                        =~= s.to_multiset());
                    let t = texts_of(s);
                    assert(texts_of(v@) =~= t.update(j - 1, t[j as int]).update(j as int, t[j - 1]));
                    assert(t.update(j - 1, t[j as int]).update(j as int, t[j - 1]).to_multiset()
                        =~= t.to_multiset());
                }
                j = j - 1;
            } else {
                break ;
            }
        }
        i = i + 1;
    }
    proof {
        assert forall|k: int| 0 <= k < texts_of(v@).len() - 1 implies not_after_mapped(
            cmp,
            map,
            #[trigger] texts_of(v@)[k],
            texts_of(v@)[k + 1],
        ) by {
            assert(texts_of(v@)[k] == v@[k].text());
            assert(texts_of(v@)[k + 1] == v@[k + 1].text());
        }
    }
}

/// Sorting a sequence of items by one of the comparison functions.
pub trait StringSort {
    /// The texts of the items, in order.
    spec fn texts(&self) -> Seq<Seq<char>>;

    /// Sorts the items by `cmp`. This sort is stable.
    fn string_sort(&mut self, cmp: impl Fn(&str, &str) -> Ordering)
        requires
            is_comparator(cmp),
        ensures
            final(self).texts().to_multiset() == old(self).texts().to_multiset(),
            sorted_by(cmp, final(self).texts()),
    ;

    /// Sorts the items by `cmp`, without a promise on the order of equal items.
    fn string_sort_unstable(&mut self, cmp: impl Fn(&str, &str) -> Ordering)
        requires
            is_comparator(cmp),
        ensures
            final(self).texts().to_multiset() == old(self).texts().to_multiset(),
            sorted_by(cmp, final(self).texts()),
    ;

    /// Sorts the items by `cmp` applied to what `map` gives for their texts (a
    /// trimmed view, for instance). This sort is stable.
    fn string_sort_by<Cmp, Mapper>(&mut self, cmp: Cmp, map: Mapper) where
        Cmp: Fn(&str, &str) -> Ordering,
        Mapper: Fn(&str) -> &str,

        requires
            is_comparator(cmp),
            is_text_map(map),
        ensures
            final(self).texts().to_multiset() == old(self).texts().to_multiset(),
            sorted_by_mapped(cmp, map, final(self).texts()),
    ;

    /// Sorts the items by `cmp` applied to what `map` gives for their texts, without a
    /// promise on the order of equal items.
    fn string_sort_unstable_by<Cmp, Mapper>(&mut self, cmp: Cmp, map: Mapper) where
        Cmp: Fn(&str, &str) -> Ordering,
        Mapper: Fn(&str) -> &str,

        requires
            is_comparator(cmp),
            is_text_map(map),
        ensures
            final(self).texts().to_multiset() == old(self).texts().to_multiset(),
            sorted_by_mapped(cmp, map, final(self).texts()),
    ;
}

impl<A: AsText> StringSort for [A] {
    open spec fn texts(&self) -> Seq<Seq<char>> {
        texts_of(self@)
    }

    fn string_sort(&mut self, cmp: impl Fn(&str, &str) -> Ordering) {
        insertion_sort(self, cmp);
    }

    fn string_sort_unstable(&mut self, cmp: impl Fn(&str, &str) -> Ordering) {
        insertion_sort(self, cmp);
    }

    fn string_sort_by<Cmp, Mapper>(&mut self, cmp: Cmp, map: Mapper) where
        Cmp: Fn(&str, &str) -> Ordering,
        Mapper: Fn(&str) -> &str,
     {
        insertion_sort_by(self, cmp, map);
    }

    fn string_sort_unstable_by<Cmp, Mapper>(&mut self, cmp: Cmp, map: Mapper) where
        Cmp: Fn(&str, &str) -> Ordering,
        Mapper: Fn(&str) -> &str,
     {
        insertion_sort_by(self, cmp, map);
    }
}

/// A function that returns `compare` in a fixed mode meets [`is_comparator`].
proof fn lemma_mode_comparator<F: Fn(&str, &str) -> Ordering>(f: F, m: Mode)
    requires
        forall|x: &str, y: &str| #[trigger] f.requires((x, y)),
        forall|x: &str, y: &str, r: Ordering| #[trigger] f.ensures((x, y), r) ==> r == compare(x@, y@, m),
    ensures
        is_comparator(f),
{
    assert forall|x: &str, y: &str, r: Ordering|
        #[trigger] f.ensures((x, y), r) && r != Ordering::Greater implies not_after(f, x@, y@) by {
    }
    assert forall|x: &str, y: &str|
        #[trigger] f.ensures((x, y), Ordering::Greater) implies not_after(f, y@, x@) by {
        assert forall|p: &str, q: &str, r: Ordering|
            p@ == y@ && q@ == x@ && #[trigger] f.ensures((p, q), r) implies r != Ordering::Greater by {
            lemma_compare_antisymmetric(x@, y@, m);
        }
    }
}

/// Each of the eight comparison functions can sort with [`StringSort`].
pub proof fn lemma_comparison_functions_sort()
    ensures
        is_comparator(crate::cmp),
        is_comparator(crate::only_alnum_cmp),
        is_comparator(crate::lexical_cmp),
        is_comparator(crate::lexical_only_alnum_cmp),
        is_comparator(crate::natural_cmp),
        is_comparator(crate::natural_only_alnum_cmp),
        is_comparator(crate::natural_lexical_cmp),
        is_comparator(crate::natural_lexical_only_alnum_cmp),
{
    lemma_mode_comparator(crate::cmp, Mode { natural: false, only_alnum: false, lexical: false });
    lemma_mode_comparator(
        crate::only_alnum_cmp,
        Mode { natural: false, only_alnum: true, lexical: false },
    );
    lemma_mode_comparator(crate::lexical_cmp, Mode { natural: false, only_alnum: false, lexical: true });
    lemma_mode_comparator(
        crate::lexical_only_alnum_cmp,
        Mode { natural: false, only_alnum: true, lexical: true },
    );
    lemma_mode_comparator(crate::natural_cmp, Mode { natural: true, only_alnum: false, lexical: false });
    lemma_mode_comparator(
        crate::natural_only_alnum_cmp,
        Mode { natural: true, only_alnum: true, lexical: false },
    );
    lemma_mode_comparator(
        crate::natural_lexical_cmp,
        Mode { natural: true, only_alnum: false, lexical: true },
    );
    lemma_mode_comparator(
        crate::natural_lexical_only_alnum_cmp,
        Mode { natural: true, only_alnum: true, lexical: true },
    );
}

} // verus!
