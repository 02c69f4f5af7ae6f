//! The order of paths: component by component, each by its characters.
use crate::paths;
use crate::text;
use vstd::prelude::*;

verus! {

/// `a` comes before `b` in the order of texts, character by character.
pub open spec fn text_before(a: Seq<char>, b: Seq<char>) -> bool
    decreases a.len(),
{
    if b.len() == 0 {
        false
    } else if a.len() == 0 {
        true
    } else if a[0] != b[0] {
        a[0] < b[0]
    } else {
        text_before(a.skip(1), b.skip(1))
    }
}

/// The rank of a component's kind: the root, the current directory, the parent directory, a name.
pub open spec fn kind_rank(part: Seq<char>) -> nat {
    if part == paths::root_part() {
        0
    } else if part == paths::here_part() {
        1
    } else if part == paths::up_part() {
        2
    } else {
        3
    }
}

/// The component `a` comes before the component `b`.
pub open spec fn part_before(a: Seq<char>, b: Seq<char>) -> bool {
    if kind_rank(a) != kind_rank(b) {
        kind_rank(a) < kind_rank(b)
    } else {
        kind_rank(a) == 3 && text_before(a, b)
    }
}

/// The row of components `a` comes before the row `b`.
pub open spec fn parts_before(a: Seq<Seq<char>>, b: Seq<Seq<char>>) -> bool
    decreases a.len(),
{
    if b.len() == 0 {
        false
    } else if a.len() == 0 {
        true
    } else if a[0] != b[0] {
        part_before(a[0], b[0])
    } else {
        parts_before(a.skip(1), b.skip(1))
    }
}

/// The path `a` comes before the path `b`.
pub open spec fn path_before(a: Seq<char>, b: Seq<char>) -> bool {
    parts_before(paths::components(a), paths::components(b))
}

/// No path of `s` comes before one that stands in front of it.
pub open spec fn in_order(s: Seq<Seq<char>>) -> bool {
    forall|i: int, j: int| 0 <= i < j < s.len() ==> !path_before(#[trigger] s[j], #[trigger] s[i])
}

proof fn lemma_text_order(a: Seq<char>, b: Seq<char>, c: Seq<char>)
    ensures
        !text_before(a, a),
        text_before(a, b) ==> !text_before(b, a),
        a == b || text_before(a, b) || text_before(b, a),
        text_before(a, b) && text_before(b, c) ==> text_before(a, c),
    decreases a.len(),
{
    if a.len() > 0 {
        lemma_text_order(a.skip(1), a.skip(1), a.skip(1));
        if b.len() > 0 {
            lemma_text_order(a.skip(1), b.skip(1), c.skip(if c.len() > 0 { 1 } else { 0 }));
            if a[0] == b[0] && a.skip(1) == b.skip(1) {
                assert(a =~= seq![a[0]] + a.skip(1));
                assert(b =~= seq![b[0]] + b.skip(1));
            }
        }
    } else if b.len() == 0 {
        assert(a =~= b);
    }
}

proof fn lemma_part_order(a: Seq<char>, b: Seq<char>, c: Seq<char>)
    ensures
        !part_before(a, a),
        part_before(a, b) ==> !part_before(b, a),
        a == b || part_before(a, b) || part_before(b, a),
        part_before(a, b) && part_before(b, c) ==> part_before(a, c),
{
    lemma_text_order(a, b, c);
}

proof fn lemma_parts_order(a: Seq<Seq<char>>, b: Seq<Seq<char>>, c: Seq<Seq<char>>)
    ensures
        !parts_before(a, a),
        parts_before(a, b) ==> !parts_before(b, a),
        a == b || parts_before(a, b) || parts_before(b, a),
        parts_before(a, b) && parts_before(b, c) ==> parts_before(a, c),
    decreases a.len(),
{
    if a.len() > 0 {
        lemma_parts_order(a.skip(1), a.skip(1), a.skip(1));
        if b.len() > 0 {
            lemma_parts_order(a.skip(1), b.skip(1), c.skip(if c.len() > 0 { 1 } else { 0 }));
            lemma_part_order(a[0], b[0], if c.len() > 0 { c[0] } else { a[0] });
            if a[0] == b[0] && a.skip(1) == b.skip(1) {
                assert(a =~= seq![a[0]] + a.skip(1));
                assert(b =~= seq![b[0]] + b.skip(1));
            }
        }
    } else if b.len() == 0 {
        assert(a =~= b);
    }
}

/// The order of paths is a strict total order on normal forms: exactly one of two distinct paths
/// comes before the other, and the order carries over from one step to the next.
pub proof fn law_paths_are_ordered(a: Seq<char>, b: Seq<char>, c: Seq<char>)
    ensures
        !path_before(a, a),
        path_before(a, b) ==> !path_before(b, a),
        paths::normal(a) == paths::normal(b) || path_before(a, b) || path_before(b, a),
        path_before(a, b) && path_before(b, c) ==> path_before(a, c),
{
    lemma_parts_order(paths::components(a), paths::components(b), paths::components(c));
}

/// Whether the text `a` comes before the text `b`.
fn is_text_before(a: &str, b: &str) -> (r: bool)
    ensures
        r == text_before(a@, b@),
{
    let x = text::chars_of(a);
    let y = text::chars_of(b);
    let mut i: usize = 0;
    assert(x@.skip(0) =~= x@);
    assert(y@.skip(0) =~= y@);
    while i < x.len() && i < y.len()
        invariant
            x@ == a@,
            y@ == b@,
            i <= x@.len(),
            i <= y@.len(),
            text_before(x@, y@) == text_before(x@.skip(i as int), y@.skip(i as int)),
        decreases x@.len() - i,
    {
        assert(x@.skip(i as int)[0] == x@[i as int]);
        assert(y@.skip(i as int)[0] == y@[i as int]);
        if x[i] != y[i] {
            return x[i] < y[i];
        }
        assert(x@.skip(i as int).skip(1) =~= x@.skip(i + 1));
        assert(y@.skip(i as int).skip(1) =~= y@.skip(i + 1));
        i = i + 1;
    }
    i < y.len()
}

fn rank_of(part: &str) -> (r: u8)
    ensures
        r == kind_rank(part@),
{
    proof {
        reveal_strlit("/");
        reveal_strlit(".");
        reveal_strlit("..");
        assert("/"@ =~= paths::root_part());
        assert("."@ =~= paths::here_part());
        assert(".."@ =~= paths::up_part());
    }
    if text::same(part, "/") {
        0
    } else if text::same(part, ".") {
        1
    } else if text::same(part, "..") {
        2
    } else {
        3
    }
}

/// Whether the row of components `a` comes before the row `b`.
fn is_before(a: &Vec<String>, b: &Vec<String>) -> (r: bool)
    ensures
        r == parts_before(a.deep_view(), b.deep_view()),
{
    let ghost x = a.deep_view();
    let ghost y = b.deep_view();
    let mut i: usize = 0;
    assert(x.skip(0) =~= x);
    assert(y.skip(0) =~= y);
    while i < a.len() && i < b.len()
        invariant
            x == a.deep_view(),
            y == b.deep_view(),
            i <= x.len(),
            i <= y.len(),
            parts_before(x, y) == parts_before(x.skip(i as int), y.skip(i as int)),
        decreases x.len() - i,
    {
        assert(x.skip(i as int)[0] == a@[i as int]@);
        assert(y.skip(i as int)[0] == b@[i as int]@);
        if !text::same(a[i].as_str(), b[i].as_str()) {
            let p = rank_of(a[i].as_str());
            let q = rank_of(b[i].as_str());
            if p != q {
                return p < q;
            }
            return p == 3 && is_text_before(a[i].as_str(), b[i].as_str());
        }
        assert(x.skip(i as int).skip(1) =~= x.skip(i + 1));
        assert(y.skip(i as int).skip(1) =~= y.skip(i + 1));
        i = i + 1;
    }
    i < b.len()
}

/// The paths of `s` at the positions `at`.
pub open spec fn picked(s: Seq<Seq<char>>, at: Seq<usize>) -> Seq<Seq<char>> {
    Seq::new(at.len(), |k: int| s[at[k] as int])
}

/// The path at position `p` goes in front of the one at position `q`: it comes before it, or is the
/// same path and stood in front of it already.
pub open spec fn precedes(s: Seq<Seq<char>>, p: usize, q: usize) -> bool {
    path_before(s[p as int], s[q as int]) || (!path_before(s[q as int], s[p as int]) && p < q)
}

/// Each position goes in front of those that stand behind it.
pub open spec fn positions_in_order(s: Seq<Seq<char>>, at: Seq<usize>) -> bool {
    forall|i: int, j: int| 0 <= i < j < at.len() ==> precedes(s, #[trigger] at[i], #[trigger] at[j])
}

/// The positions lie in `s`.
pub open spec fn positions_valid(s: Seq<Seq<char>>, at: Seq<usize>) -> bool {
    forall|i: int| 0 <= i < at.len() ==> (#[trigger] at[i]) < s.len()
}

/// `at` puts all of `s` in order.
pub open spec fn puts_in_order(s: Seq<Seq<char>>, at: Seq<usize>) -> bool {
    at.len() == s.len() && positions_valid(s, at) && positions_in_order(s, at)
}

/// `r` is `s`, put in order. Texts that write the same path keep their places among each other.
pub open spec fn is_sorted(s: Seq<Seq<char>>, r: Seq<Seq<char>>) -> bool {
    exists|at: Seq<usize>| #[trigger] puts_in_order(s, at) && r == picked(s, at)
}

/// The positions lie from `lo` up to `hi`.
spec fn positions_within(at: Seq<usize>, lo: usize, hi: usize) -> bool {
    forall|i: int| 0 <= i < at.len() ==> lo <= (#[trigger] at[i]) < hi
}

spec fn keys_match(s: Seq<Seq<char>>, keys: Seq<Vec<String>>) -> bool {
    keys.len() == s.len() && forall|i: int|
        0 <= i < s.len() ==> (#[trigger] keys[i]).deep_view() == paths::components(s[i])
}

proof fn lemma_precede(s: Seq<Seq<char>>, p: usize, q: usize, r: usize)
    ensures
        precedes(s, p, q) && precedes(s, q, r) ==> precedes(s, p, r),
{
    let a = paths::components(s[p as int]);
    let b = paths::components(s[q as int]);
    let c = paths::components(s[r as int]);
    lemma_parts_order(a, b, c);
    lemma_parts_order(c, b, a);
    lemma_parts_order(c, a, b);
    lemma_parts_order(b, c, a);
}

proof fn lemma_picked_push(s: Seq<Seq<char>>, at: Seq<usize>, p: usize)
    ensures
        picked(s, at.push(p)).to_multiset() == picked(s, at).to_multiset().insert(s[p as int]),
{
    broadcast use vstd::seq_lib::group_to_multiset_ensures;

    assert(picked(s, at.push(p)) =~= picked(s, at).push(s[p as int]));
}

/// Merges two rows of positions that are each in order.
fn merge(
    keys: &Vec<Vec<String>>,
    s: Ghost<Seq<Seq<char>>>,
    a: Vec<usize>,
    b: Vec<usize>,
    lo: Ghost<usize>,
    mid: Ghost<usize>,
    hi: Ghost<usize>,
) -> (r: Vec<usize>)
    requires
        keys_match(s@, keys@),
        lo@ <= mid@ <= hi@ <= s@.len(),
        positions_within(a@, lo@, mid@),
        positions_within(b@, mid@, hi@),
        positions_in_order(s@, a@),
        positions_in_order(s@, b@),
    ensures
        positions_within(r@, lo@, hi@),
        positions_in_order(s@, r@),
        picked(s@, r@).to_multiset() == picked(s@, a@).to_multiset().add(
            picked(s@, b@).to_multiset(),
        ),
{
    broadcast use vstd::seq_lib::group_to_multiset_ensures;

    let mut out: Vec<usize> = Vec::new();
    let mut i: usize = 0;
    let mut j: usize = 0;
    assert(a@.take(0) =~= Seq::<usize>::empty());
    assert(b@.take(0) =~= Seq::<usize>::empty());
    assert(picked(s@, out@) =~= Seq::<Seq<char>>::empty());
    assert(picked(s@, a@.take(0)) =~= Seq::<Seq<char>>::empty());
    assert(picked(s@, b@.take(0)) =~= Seq::<Seq<char>>::empty());
    assert(picked(s@, out@).to_multiset() =~= picked(s@, a@.take(0)).to_multiset().add(
        picked(s@, b@.take(0)).to_multiset(),
    ));
    while i < a.len() || j < b.len()
        invariant
            keys_match(s@, keys@),
            lo@ <= mid@ <= hi@ <= s@.len(),
            positions_within(a@, lo@, mid@),
            positions_within(b@, mid@, hi@),
            positions_in_order(s@, a@),
            positions_in_order(s@, b@),
            positions_within(out@, lo@, hi@),
            positions_in_order(s@, out@),
            i <= a@.len(),
            j <= b@.len(),
            forall|k: int, l: int|
                0 <= k < out@.len() && i <= l < a@.len() ==> precedes(
                    s@,
                    #[trigger] out@[k],
                    #[trigger] a@[l],
                ),
            forall|k: int, l: int|
                0 <= k < out@.len() && j <= l < b@.len() ==> precedes(
                    s@,
                    #[trigger] out@[k],
                    #[trigger] b@[l],
                ),
            picked(s@, out@).to_multiset() == picked(s@, a@.take(i as int)).to_multiset().add(
                picked(s@, b@.take(j as int)).to_multiset(),
            ),
        decreases a@.len() - i + b@.len() - j,
    {
        let ghost before = out@;
        let left: bool = if i == a.len() {
            false
        } else if j == b.len() {
            true
        } else {
            !is_before(&keys[b[j]], &keys[a[i]])
        };
        if left {
            let p: usize = a[i];
            proof {
                assert(a@.take(i + 1) =~= a@.take(i as int).push(p));
                lemma_picked_push(s@, a@.take(i as int), p);
                lemma_picked_push(s@, out@, p);
                assert forall|l: int| j <= l < b@.len() implies precedes(s@, p, #[trigger] b@[l]) by {
                    if l > j {
                        lemma_precede(s@, p, b@[j as int], b@[l]);
                    }
                }
            }
            out.push(p);
            i = i + 1;
        } else {
            let p: usize = b[j];
            proof {
                assert(b@.take(j + 1) =~= b@.take(j as int).push(p));
                lemma_picked_push(s@, b@.take(j as int), p);
                lemma_picked_push(s@, out@, p);
                assert forall|l: int| i <= l < a@.len() implies precedes(s@, p, #[trigger] a@[l]) by {
                    lemma_precede(s@, p, a@[i as int], a@[l]);
                }
            }
            out.push(p);
            j = j + 1;
        }
        assert(picked(s@, out@).to_multiset() =~= picked(s@, a@.take(i as int)).to_multiset().add(
            picked(s@, b@.take(j as int)).to_multiset(),
        ));
    }
    assert(a@.take(i as int) =~= a@);
    assert(b@.take(j as int) =~= b@);
    out
}

/// The positions from `lo` up to `hi`, put in order.
fn sort_range(keys: &Vec<Vec<String>>, s: Ghost<Seq<Seq<char>>>, lo: usize, hi: usize) -> (r: Vec<
    usize,
>)
    requires
        keys_match(s@, keys@),
        lo <= hi <= keys@.len(),
    ensures
        positions_within(r@, lo, hi),
        positions_in_order(s@, r@),
        picked(s@, r@).to_multiset() == s@.subrange(lo as int, hi as int).to_multiset(),
    decreases hi - lo,
{
    if hi - lo <= 1 {
        let mut r: Vec<usize> = Vec::new();
        if lo < hi {
            r.push(lo);
        }
        assert(picked(s@, r@) =~= s@.subrange(lo as int, hi as int));
        r
    } else {
        let mid: usize = lo + (hi - lo) / 2;
        let a = sort_range(keys, s, lo, mid);
        let b = sort_range(keys, s, mid, hi);
        proof {
            vstd::seq_lib::lemma_multiset_commutative(
                s@.subrange(lo as int, mid as int),
                s@.subrange(mid as int, hi as int),
            );
            assert(s@.subrange(lo as int, hi as int) =~= s@.subrange(lo as int, mid as int)
                + s@.subrange(mid as int, hi as int));
        }
        merge(keys, s, a, b, Ghost(lo), Ghost(mid), Ghost(hi))
    }
}

/// The paths `v`, put in order.
pub fn sort_paths(v: &Vec<String>) -> (r: Vec<String>)
    ensures
        is_sorted(v.deep_view(), r.deep_view()),
        in_order(r.deep_view()),
        r.deep_view().to_multiset() == v.deep_view().to_multiset(),
{
    broadcast use vstd::seq_lib::group_to_multiset_ensures;

    let n: usize = v.len();
    let ghost s = v.deep_view();
    let mut keys: Vec<Vec<String>> = Vec::new();
    for i in 0..n
        invariant
            n == v@.len(),
            s == v.deep_view(),
            keys@.len() == i,
            forall|k: int| 0 <= k < i ==> (#[trigger] keys@[k]).deep_view() == paths::components(s[k]),
    {
        let c = paths::components_of(v[i].as_str());
        assert(s[i as int] == v@[i as int]@);
        keys.push(c);
    }
    let at = sort_range(&keys, Ghost(s), 0, n);
    assert(s.subrange(0, n as int) =~= s);
    let mut out: Vec<String> = Vec::new();
    let m: usize = at.len();
    for i in 0..m
        invariant
            m == at@.len(),
            s == v.deep_view(),
            n == v@.len(),
            positions_valid(s, at@),
            out@.len() == i,
            forall|k: int| 0 <= k < i ==> (#[trigger] out@[k])@ == picked(s, at@)[k],
    {
        assert(at@[i as int] < s.len());
        assert(s[at@[i as int] as int] == v@[at@[i as int] as int]@);
        out.push(v[at[i]].clone());
    }
    assert(out.deep_view() =~= picked(s, at@));
    assert forall|i: int, j: int| 0 <= i < j < out@.len() implies !path_before(
        #[trigger] out.deep_view()[j],
        #[trigger] out.deep_view()[i],
    ) by {
        assert(precedes(s, at@[i], at@[j]));
        law_paths_are_ordered(s[at@[i] as int], s[at@[j] as int], s[at@[j] as int]);
    }
    assert(at@.len() == s.len()) by {
        assert(picked(s, at@).to_multiset().len() == s.to_multiset().len());
    }
    assert(puts_in_order(s, at@));
    out
}

} // verus!
