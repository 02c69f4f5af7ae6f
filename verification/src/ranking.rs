//! In which order paths come, said of the first difference between them.
use crate::order;
use crate::paths;
use vstd::prelude::*;
use vstd::set_lib::*;

verus! {

/// The texts are the same up to `k`, and there `a` ends or has the lesser character.
pub open spec fn differs_at(a: Seq<char>, b: Seq<char>, k: int) -> bool {
    &&& 0 <= k <= a.len()
    &&& k < b.len()
    &&& forall|i: int| 0 <= i < k ==> a[i] == b[i]
    &&& k == a.len() || a[k] < b[k]
}

/// A text comes before another where it has the lesser character at the first difference, or is its
/// beginning.
pub proof fn law_texts_by_first_difference(a: Seq<char>, b: Seq<char>)
    ensures
        order::text_before(a, b) <==> exists|k: int| differs_at(a, b, k),
    decreases a.len(),
{
    if a.len() > 0 && b.len() > 0 && a[0] == b[0] {
        let x = a.skip(1);
        let y = b.skip(1);
        law_texts_by_first_difference(x, y);
        if order::text_before(a, b) {
            let k = choose|k: int| differs_at(x, y, k);
            assert forall|i: int| 0 <= i < k + 1 implies a[i] == b[i] by {
                if i > 0 {
                    assert(x[i - 1] == a[i] && y[i - 1] == b[i]);
                }
            }
            if k < x.len() {
                assert(x[k] == a[k + 1] && y[k] == b[k + 1]);
            }
            assert(differs_at(a, b, k + 1));
        }
        if exists|k: int| differs_at(a, b, k) {
            let k = choose|k: int| differs_at(a, b, k);
            assert(k > 0);
            assert forall|i: int| 0 <= i < k - 1 implies x[i] == y[i] by {
                assert(x[i] == a[i + 1] && y[i] == b[i + 1]);
            }
            if k < a.len() {
                assert(x[k - 1] == a[k] && y[k - 1] == b[k]);
            }
            assert(differs_at(x, y, k - 1));
        }
    } else {
        if order::text_before(a, b) {
            assert(differs_at(a, b, 0));
        }
        if exists|k: int| differs_at(a, b, k) {
            let k = choose|k: int| differs_at(a, b, k);
            if k > 0 {
                assert(a[0] == b[0]);
            }
        }
    }
}

/// The component `a` comes before the component `b`: the root before all others, then the current
/// directory, then the parent directory, then names, which come by their texts.
pub open spec fn part_comes_first(a: Seq<char>, b: Seq<char>) -> bool {
    let root = seq!['/'];
    let here = seq!['.'];
    let up = seq!['.', '.'];
    if a == root {
        b != root
    } else if a == here {
        b != root && b != here
    } else if a == up {
        b != root && b != here && b != up
    } else {
        b != root && b != here && b != up && exists|k: int| differs_at(a, b, k)
    }
}

/// The rows of components are the same up to `k`, and there `a` ends or has the component that comes
/// first.
pub open spec fn parts_differ_at(a: Seq<Seq<char>>, b: Seq<Seq<char>>, k: int) -> bool {
    &&& 0 <= k <= a.len()
    &&& k < b.len()
    &&& forall|i: int| 0 <= i < k ==> a[i] == b[i]
    &&& k == a.len() || part_comes_first(a[k], b[k])
}

proof fn lemma_part(a: Seq<char>, b: Seq<char>)
    ensures
        order::part_before(a, b) <==> part_comes_first(a, b),
{
    law_texts_by_first_difference(a, b);
    assert(seq!['/'][0] != seq!['.'][0]);
    assert(seq!['.'].len() != seq!['.', '.'].len());
}

proof fn lemma_parts(a: Seq<Seq<char>>, b: Seq<Seq<char>>)
    ensures
        order::parts_before(a, b) <==> exists|k: int| parts_differ_at(a, b, k),
    decreases a.len(),
{
    if a.len() > 0 && b.len() > 0 && a[0] == b[0] {
        let x = a.skip(1);
        let y = b.skip(1);
        lemma_parts(x, y);
        if order::parts_before(a, b) {
            let k = choose|k: int| parts_differ_at(x, y, k);
            assert forall|i: int| 0 <= i < k + 1 implies a[i] == b[i] by {
                if i > 0 {
                    assert(x[i - 1] == a[i] && y[i - 1] == b[i]);
                }
            }
            if k < x.len() {
                assert(x[k] == a[k + 1] && y[k] == b[k + 1]);
            }
            assert(parts_differ_at(a, b, k + 1));
        }
        if exists|k: int| parts_differ_at(a, b, k) {
            let k = choose|k: int| parts_differ_at(a, b, k);
            if k == 0 {
                lemma_part(a[0], b[0]);
                lemma_irreflexive(a[0]);
            }
            assert forall|i: int| 0 <= i < k - 1 implies x[i] == y[i] by {
                assert(x[i] == a[i + 1] && y[i] == b[i + 1]);
            }
            if k < a.len() {
                assert(x[k - 1] == a[k] && y[k - 1] == b[k]);
            }
            assert(parts_differ_at(x, y, k - 1));
        }
    } else {
        if a.len() > 0 && b.len() > 0 {
            lemma_part(a[0], b[0]);
        }
        if order::parts_before(a, b) {
            assert(parts_differ_at(a, b, 0));
        }
        if exists|k: int| parts_differ_at(a, b, k) {
            let k = choose|k: int| parts_differ_at(a, b, k);
            if k > 0 {
                assert(a[0] == b[0]);
            }
        }
    }
}

proof fn lemma_irreflexive(a: Seq<char>)
    ensures
        !part_comes_first(a, a),
{
    assert forall|k: int| !differs_at(a, a, k) by {}
}

/// A path comes before another where it has the component that comes first at the first difference,
/// or is its beginning.
pub proof fn law_paths_by_first_difference(a: Seq<char>, b: Seq<char>)
    ensures
        order::path_before(a, b) <==> exists|k: int|
            parts_differ_at(paths::components(a), paths::components(b), k),
{
    lemma_parts(paths::components(a), paths::components(b));
}

/// Putting paths in order keeps every one of them and adds none, and no path is left behind one that
/// it comes before.
pub proof fn law_ordering_keeps_paths(s: Seq<Seq<char>>, r: Seq<Seq<char>>)
    requires
        order::is_sorted(s, r),
    ensures
        r.len() == s.len(),
        forall|p: Seq<char>| #[trigger] r.contains(p) <==> s.contains(p),
        forall|i: int, j: int| 0 <= i < j < r.len() ==> !order::path_before(#[trigger] r[j], #[trigger] r[i]),
{
    let at = choose|at: Seq<usize>| #[trigger] order::puts_in_order(s, at) && r == order::picked(s, at);
    assert forall|i: int, j: int| 0 <= i < j < r.len() implies !order::path_before(
        #[trigger] r[j],
        #[trigger] r[i],
    ) by {
        assert(order::precedes(s, at[i], at[j]));
        order::law_paths_are_ordered(r[i], r[j], r[i]);
    }
    assert forall|i: int, j: int| 0 <= i < j < at.len() implies at[i] != at[j] by {
        assert(order::precedes(s, at[i], at[j]));
        order::law_paths_are_ordered(r[i], r[j], r[i]);
    }
    let n = s.len() as int;
    let ints = Seq::new(at.len(), |i: int| at[i] as int);
    assert(ints.no_duplicates());
    ints.unique_seq_to_set();
    lemma_int_range(0, n);
    assert(ints.to_set().subset_of(set_int_range(0, n))) by {
        assert forall|x: int| ints.to_set().contains(x) implies set_int_range(0, n).contains(x) by {
            let i = ints.index_of(x);
            assert(at[i] < s.len());
        }
    }
    lemma_subset_equality(ints.to_set(), set_int_range(0, n));
    assert forall|p: Seq<char>| #[trigger] r.contains(p) <==> s.contains(p) by {
        if r.contains(p) {
            let i = r.index_of(p);
            assert(at[i] < s.len());
            assert(s[at[i] as int] == p);
        }
        if s.contains(p) {
            let x = s.index_of(p);
            assert(set_int_range(0, n).contains(x));
            assert(ints.to_set().contains(x));
            let i = ints.index_of(x);
            assert(ints[i] == x);
            assert(r[i] == p);
        }
    }
}

} // verus!
