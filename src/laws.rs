//! Laws about what a sequence of insertions leaves in a tree.
use vstd::prelude::*;
use vstd::multiset::Multiset;
use crate::{Word, has_text, add_word, add_words};

verus! {

broadcast use vstd::multiset::group_multiset_axioms;

/// Whether `vs[i]` is the first value of `vs` with its characters.
pub open spec fn first_of_its_text<T: Word>(vs: Seq<T>, i: int) -> bool {
    forall|j: int| 0 <= j < i ==> (#[trigger] vs[j]).text() != vs[i].text()
}

/// Whether no two values of `vs` have the same characters.
pub open spec fn texts_distinct<T: Word>(vs: Seq<T>) -> bool {
    forall|i: int, j: int|
        0 <= i < vs.len() && 0 <= j < vs.len() && i != j ==> (#[trigger] vs[i]).text() != (
        #[trigger] vs[j]).text()
}

/// Inserting a value whose characters are already held changes nothing, and
/// inserting the same value twice in a row is the same as inserting it once.
pub proof fn lemma_duplicate_insert<T: Word>(m: Multiset<T>, v: T)
    ensures
        has_text(m, v.text()) ==> add_word(m, v) == m,
        add_word(add_word(m, v), v) == add_word(m, v),
{
    if !has_text(m, v.text()) {
        assert(m.insert(v).contains(v));
    }
}

/// The characters held after a run of insertions are those held before and
/// those of the inserted values.
pub proof fn lemma_texts_after_inserts<T: Word>(m: Multiset<T>, vs: Seq<T>, t: Seq<char>)
    ensures
        has_text(add_words(m, vs), t) <==> has_text(m, t) || exists|i: int|
            0 <= i < vs.len() && (#[trigger] vs[i]).text() == t,
    decreases vs.len(),
{
    if vs.len() > 0 {
        let dl = vs.drop_last();
        lemma_texts_after_inserts(m, dl, t);
        let before = add_words(m, dl);
        if has_text(add_words(m, vs), t) {
            let x = choose|x: T| #[trigger] add_words(m, vs).contains(x) && x.text() == t;
            if !before.contains(x) {
                assert(x == vs.last());
                assert(vs[vs.len() - 1].text() == t);
            }
        }
        if exists|i: int| 0 <= i < vs.len() && (#[trigger] vs[i]).text() == t {
            let i = choose|i: int| 0 <= i < vs.len() && (#[trigger] vs[i]).text() == t;
            if i < vs.len() - 1 {
                assert(dl[i] == vs[i]);
                let x = choose|x: T| #[trigger] before.contains(x) && x.text() == t;
                assert(add_words(m, vs).contains(x));
            } else if !has_text(before, t) {
                assert(add_words(m, vs).contains(vs.last()));
            } else {
                let x = choose|x: T| #[trigger] before.contains(x) && x.text() == t;
                assert(add_words(m, vs).contains(x));
            }
        }
        if has_text(m, t) {
            assert(has_text(before, t));
            let x = choose|x: T| #[trigger] before.contains(x) && x.text() == t;
            assert(add_words(m, vs).contains(x));
        }
        if exists|i: int| 0 <= i < dl.len() && (#[trigger] dl[i]).text() == t {
            let i = choose|i: int| 0 <= i < dl.len() && (#[trigger] dl[i]).text() == t;
            assert(vs[i] == dl[i]);
        }
    }
}

/// A tree built from `vs` holds exactly the values of `vs` that come first
/// among those with their characters.
pub proof fn lemma_traversal_complete<T: Word>(vs: Seq<T>, x: T)
    ensures
        add_words(Multiset::empty(), vs).contains(x) <==> exists|i: int|
            0 <= i < vs.len() && vs[i] == x && #[trigger] first_of_its_text(vs, i),
    decreases vs.len(),
{
    if vs.len() > 0 {
        let dl = vs.drop_last();
        let n = vs.len() - 1;
        lemma_traversal_complete(dl, x);
        lemma_texts_after_inserts(Multiset::empty(), dl, vs.last().text());
        let before = add_words(Multiset::<T>::empty(), dl);
        assert(!has_text(Multiset::<T>::empty(), vs.last().text()));
        if add_words(Multiset::empty(), vs).contains(x) {
            if before.contains(x) {
                let i = choose|i: int| 0 <= i < dl.len() && dl[i] == x && #[trigger] first_of_its_text(dl, i);
                assert(vs[i] == dl[i]);
                assert forall|j: int| 0 <= j < i implies (#[trigger] vs[j]).text() != vs[i].text() by {
                    assert(vs[j] == dl[j]);
                }
                assert(first_of_its_text(vs, i));
            } else {
                assert(x == vs.last());
                assert forall|j: int| 0 <= j < n implies (#[trigger] vs[j]).text() != vs[n].text() by {
                    assert(vs[j] == dl[j]);
                }
                assert(first_of_its_text(vs, n));
            }
        }
        if exists|i: int| 0 <= i < vs.len() && vs[i] == x && #[trigger] first_of_its_text(vs, i) {
            let i = choose|i: int| 0 <= i < vs.len() && vs[i] == x && #[trigger] first_of_its_text(vs, i);
            if i < n {
                assert(dl[i] == vs[i]);
                assert forall|j: int| 0 <= j < i implies (#[trigger] dl[j]).text() != dl[i].text() by {
                    assert(vs[j] == dl[j]);
                }
                assert(first_of_its_text(dl, i));
                assert(before.contains(x));
            } else {
                if has_text(before, x.text()) {
                    let j = choose|j: int| 0 <= j < dl.len() && (#[trigger] dl[j]).text() == x.text();
                    assert(vs[j] == dl[j]);
                    assert(false);
                }
            }
        }
    }
}

/// A tree built from `vs` holds at most `vs.len()` values, and exactly that
/// many when no two values of `vs` have the same characters.
pub proof fn lemma_count_law<T: Word>(vs: Seq<T>)
    ensures
        add_words(Multiset::empty(), vs).len() <= vs.len(),
        add_words(Multiset::empty(), vs).len() == vs.len() <==> texts_distinct(vs),
    decreases vs.len(),
{
    if vs.len() > 0 {
        let dl = vs.drop_last();
        let n = vs.len() - 1;
        lemma_count_law(dl);
        lemma_texts_after_inserts(Multiset::empty(), dl, vs.last().text());
        assert(!has_text(Multiset::<T>::empty(), vs.last().text()));
        let before = add_words(Multiset::<T>::empty(), dl);
        if texts_distinct(vs) {
            assert forall|i: int, j: int|
                0 <= i < dl.len() && 0 <= j < dl.len() && i != j implies (#[trigger] dl[i]).text() != (
                #[trigger] dl[j]).text() by {
                assert(dl[i] == vs[i] && dl[j] == vs[j]);
            }
            if has_text(before, vs.last().text()) {
                let j = choose|j: int| 0 <= j < dl.len() && (#[trigger] dl[j]).text() == vs.last().text();
                assert(vs[j] == dl[j]);
                assert(vs[j].text() == vs[n].text());
            }
        }
        if add_words(Multiset::empty(), vs).len() == vs.len() {
            assert(!has_text(before, vs.last().text()));
            assert(before.len() == dl.len());
            assert forall|i: int, j: int|
                0 <= i < vs.len() && 0 <= j < vs.len() && i != j implies (#[trigger] vs[i]).text() != (
                #[trigger] vs[j]).text() by {
                if i < n && j < n {
                    assert(dl[i] == vs[i] && dl[j] == vs[j]);
                } else if i < n {
                    assert(dl[i] == vs[i]);
                } else {
                    assert(dl[j] == vs[j]);
                }
            }
        }
    }
}

} // verus!
