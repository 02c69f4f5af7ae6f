//! Sequences put together piece by piece.
use vstd::prelude::*;

verus! {

/// What `f` makes of each element of `s`, one after the other.
pub open spec fn gather<A, B>(s: Seq<A>, f: spec_fn(A) -> Seq<B>) -> Seq<B>
    decreases s.len(),
{
    if s.len() == 0 {
        Seq::empty()
    } else {
        gather(s.drop_last(), f) + f(s.last())
    }
}

/// One more element adds what `f` makes of it.
pub proof fn lemma_gather_step<A, B>(s: Seq<A>, f: spec_fn(A) -> Seq<B>, i: int)
    requires
        0 <= i < s.len(),
    ensures
        gather(s.take(i + 1), f) == gather(s.take(i), f) + f(s[i]),
{
    assert(s.take(i + 1).drop_last() =~= s.take(i));
}

/// What is gathered comes from some element.
pub proof fn lemma_gather_source<A, B>(s: Seq<A>, f: spec_fn(A) -> Seq<B>, b: B)
    ensures
        gather(s, f).contains(b) <==> exists|i: int| 0 <= i < s.len() && f(#[trigger] s[i]).contains(b),
    decreases s.len(),
{
    if s.len() > 0 {
        let head = gather(s.drop_last(), f);
        let tail = f(s.last());
        lemma_gather_source(s.drop_last(), f, b);
        if gather(s, f).contains(b) {
            let k = gather(s, f).index_of(b);
            if k < head.len() {
                assert(head[k] == b);
                let i = choose|i: int| 0 <= i < s.drop_last().len() && f(#[trigger] s.drop_last()[i]).contains(b);
                assert(f(s[i]).contains(b));
            } else {
                assert(tail[k - head.len()] == b);
                assert(f(s[s.len() - 1]).contains(b));
            }
        }
        if exists|i: int| 0 <= i < s.len() && f(#[trigger] s[i]).contains(b) {
            let i = choose|i: int| 0 <= i < s.len() && f(#[trigger] s[i]).contains(b);
            if i < s.len() - 1 {
                assert(s.drop_last()[i] == s[i]);
                assert(head.contains(b));
                let k = head.index_of(b);
                assert(gather(s, f)[k] == b);
            } else {
                let k = tail.index_of(b);
                assert(gather(s, f)[head.len() + k] == b);
            }
        }
    }
}

/// One more element is kept or left out.
pub proof fn lemma_filter_step<A>(s: Seq<A>, p: spec_fn(A) -> bool, i: int)
    requires
        0 <= i < s.len(),
    ensures
        s.take(i + 1).filter(p) == (if p(s[i]) {
            s.take(i).filter(p).push(s[i])
        } else {
            s.take(i).filter(p)
        }),
{
    reveal(Seq::filter);
    assert(s.take(i + 1).drop_last() =~= s.take(i));
}

/// What passes both sieves passes the one that is both.
pub proof fn lemma_filter_twice<A>(
    s: Seq<A>,
    p: spec_fn(A) -> bool,
    q: spec_fn(A) -> bool,
    both: spec_fn(A) -> bool,
)
    requires
        forall|a: A| #[trigger] both(a) <==> p(a) && q(a),
    ensures
        s.filter(p).filter(q) == s.filter(both),
    decreases s.len(),
{
    reveal(Seq::filter);
    if s.len() > 0 {
        let head = s.drop_last();
        lemma_filter_twice(head, p, q, both);
        assert(both(s.last()) <==> p(s.last()) && q(s.last()));
        if p(s.last()) {
            assert(head.filter(p).push(s.last()).drop_last() =~= head.filter(p));
        }
    }
}

/// Sieves that agree on every element keep the same.
pub proof fn lemma_filter_same<A>(s: Seq<A>, p: spec_fn(A) -> bool, q: spec_fn(A) -> bool)
    requires
        forall|i: int| 0 <= i < s.len() ==> p(#[trigger] s[i]) == q(s[i]),
    ensures
        s.filter(p) == s.filter(q),
    decreases s.len(),
{
    reveal(Seq::filter);
    if s.len() > 0 {
        assert forall|i: int| 0 <= i < s.drop_last().len() implies p(#[trigger] s.drop_last()[i]) == q(
            s.drop_last()[i],
        ) by {
            assert(s.drop_last()[i] == s[i]);
        }
        lemma_filter_same(s.drop_last(), p, q);
        assert(p(s[s.len() - 1]) == q(s[s.len() - 1]));
    }
}

/// A sieve that everything passes changes nothing.
pub proof fn lemma_filter_all<A>(s: Seq<A>, p: spec_fn(A) -> bool)
    requires
        forall|i: int| 0 <= i < s.len() ==> p(#[trigger] s[i]),
    ensures
        s.filter(p) == s,
    decreases s.len(),
{
    reveal(Seq::filter);
    if s.len() > 0 {
        assert forall|i: int| 0 <= i < s.drop_last().len() implies p(#[trigger] s.drop_last()[i]) by {
            assert(s.drop_last()[i] == s[i]);
        }
        lemma_filter_all(s.drop_last(), p);
        assert(p(s[s.len() - 1]));
        assert(s.drop_last().push(s.last()) =~= s);
    }
}

/// What is kept is what passes.
pub proof fn lemma_filter_contains<A>(s: Seq<A>, p: spec_fn(A) -> bool, a: A)
    ensures
        s.filter(p).contains(a) <==> s.contains(a) && p(a),
    decreases s.len(),
{
    reveal(Seq::filter);
    if s.len() > 0 {
        let head = s.drop_last();
        let kept = head.filter(p);
        lemma_filter_contains(head, p, a);
        if s.contains(a) {
            let i = s.index_of(a);
            if i < head.len() {
                assert(head[i] == a);
            }
        }
        if head.contains(a) {
            assert(s[head.index_of(a)] == a);
        }
        if p(s.last()) {
            let all = kept.push(s.last());
            if kept.contains(a) {
                assert(all[kept.index_of(a)] == a);
            }
            if a == s.last() {
                assert(all[kept.len() as int] == a);
                assert(s[s.len() - 1] == a);
            }
            if all.contains(a) {
                let k = all.index_of(a);
                if k < kept.len() {
                    assert(kept[k] == a);
                } else {
                    assert(a == s.last());
                    assert(s[s.len() - 1] == a);
                }
            }
        }
    }
}

/// One more element is one more member.
pub proof fn lemma_push_set<A>(s: Seq<A>, a: A)
    ensures
        s.push(a).to_set() == s.to_set().insert(a),
{
    broadcast use vstd::seq_lib::group_seq_properties;

    let more = s.push(a);
    assert forall|x: A| more.to_set().contains(x) <==> s.to_set().contains(x) || x == a by {
        if s.contains(x) {
            assert(more[s.index_of(x)] == x);
        }
        if x == a {
            assert(more[s.len() as int] == a);
        }
        if more.contains(x) {
            let k = more.index_of(x);
            if k < s.len() {
                assert(s[k] == x);
            }
        }
    }
    assert(more.to_set() =~= s.to_set().insert(a));
}

/// A sieve that nothing passes keeps nothing.
pub proof fn lemma_filter_none<A>(s: Seq<A>, p: spec_fn(A) -> bool)
    requires
        forall|i: int| 0 <= i < s.len() ==> !p(#[trigger] s[i]),
    ensures
        s.filter(p).len() == 0,
    decreases s.len(),
{
    reveal(Seq::filter);
    if s.len() > 0 {
        assert forall|i: int| 0 <= i < s.drop_last().len() implies !p(#[trigger] s.drop_last()[i]) by {
            assert(s.drop_last()[i] == s[i]);
        }
        lemma_filter_none(s.drop_last(), p);
        assert(!p(s[s.len() - 1]));
    }
}

/// Functions that agree on every element gather the same.
pub proof fn lemma_gather_same<A, B>(s: Seq<A>, f: spec_fn(A) -> Seq<B>, g: spec_fn(A) -> Seq<B>)
    requires
        forall|i: int| 0 <= i < s.len() ==> f(#[trigger] s[i]) == g(s[i]),
    ensures
        gather(s, f) == gather(s, g),
    decreases s.len(),
{
    if s.len() > 0 {
        assert forall|i: int| 0 <= i < s.drop_last().len() implies f(#[trigger] s.drop_last()[i]) == g(
            s.drop_last()[i],
        ) by {
            assert(s.drop_last()[i] == s[i]);
        }
        lemma_gather_same(s.drop_last(), f, g);
        assert(f(s[s.len() - 1]) == g(s[s.len() - 1]));
    }
}

/// Gathering one item for each member that has a property gives as many as have it.
pub proof fn lemma_gather_count<A, B>(s: Seq<A>, f: spec_fn(A) -> Seq<B>, p: spec_fn(A) -> bool)
    requires
        forall|i: int|
            0 <= i < s.len() ==> f(#[trigger] s[i]).len() == (if p(s[i]) {
                1nat
            } else {
                0
            }),
    ensures
        gather(s, f).len() == s.filter(p).len(),
    decreases s.len(),
{
    reveal(Seq::filter);
    if s.len() > 0 {
        let n = s.len() - 1;
        assert forall|i: int| 0 <= i < s.drop_last().len() implies f(#[trigger] s.drop_last()[i]).len() == (
        if p(s.drop_last()[i]) {
            1nat
        } else {
            0
        }) by {
            assert(s.drop_last()[i] == s[i]);
        }
        lemma_gather_count(s.drop_last(), f, p);
        lemma_gather_step(s, f, n);
        lemma_filter_step(s, p, n);
        assert(s.take(n) =~= s.drop_last());
        assert(s.take(n + 1) =~= s);
        assert(f(s[n]).len() == (if p(s[n]) {
            1nat
        } else {
            0
        }));
    }
}

} // verus!
