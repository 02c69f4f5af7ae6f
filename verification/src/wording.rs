//! What numbers, trimming, splitting and comparing do to a text.
use crate::text;
use vstd::prelude::*;

verus! {

proof fn lemma_digit(d: nat)
    requires
        d < 10,
    ensures
        text::digit(d) as u32 == '0' as u32 + d,
        text::is_digit(text::digit(d)),
{
}

/// A number that is written in decimal is read back, and has no zero in front unless it is zero.
pub proof fn law_decimal_reads_back(n: nat)
    ensures
        text::number_in(text::decimal(n)) == Some(n),
        text::decimal(n).len() > 0,
        n > 0 ==> text::decimal(n)[0] != '0',
        forall|i: int| 0 <= i < text::decimal(n).len() ==> '0' <= #[trigger] text::decimal(n)[i] <= '9',
    decreases n,
{
    let s = text::decimal(n);
    if n < 10 {
        lemma_digit(n);
        reveal_with_fuel(text::digits_value, 2);
        assert(s[0] == text::digit(n));
        assert(s.drop_last() =~= Seq::empty());
        assert(text::unsigned(s) == s);
        assert(text::digits_value(s) == n);
    } else {
        law_decimal_reads_back(n / 10);
        lemma_digit(n % 10);
        let t = text::decimal(n / 10);
        assert(s.drop_last() =~= t);
        assert(s[0] == t[0]);
        assert forall|i: int| 0 <= i < s.len() implies text::is_digit(#[trigger] s[i]) by {
            if i < t.len() {
                assert(s[i] == t[i]);
            }
        }
        assert(text::unsigned(s) == s);
        assert(text::unsigned(t) == t);
        assert(text::digits_value(s) == text::digits_value(t) * 10 + n % 10);
    }
}

/// A digit behind a number makes ten times that number and the digit; anything else behind it makes
/// no number. A plus sign may stand in front, and a number has at least one digit.
pub proof fn law_number_by_digits(s: Seq<char>, c: char)
    ensures
        text::number_in(Seq::empty()) is None,
        text::number_in(seq!['+']) is None,
        '0' <= c <= '9' ==> text::number_in(seq![c]) == Some((c as u32 - '0' as u32) as nat),
        text::number_in(s) matches Some(n) ==> text::number_in(s.push(c)) == (if '0' <= c <= '9' {
            Some(n * 10 + (c as u32 - '0' as u32) as nat)
        } else {
            None
        }),
        s.len() > 0 && text::number_in(s) is None && s != seq!['+'] ==> text::number_in(s.push(c)) is None,
        s.len() > 0 && s[0] != '+' ==> text::number_in(seq!['+'] + s) == text::number_in(s),
{
    reveal_with_fuel(text::digits_value, 2);
    let none = Seq::<char>::empty();
    assert(text::unsigned(none).len() == 0);
    assert(text::unsigned(seq!['+']).len() == 0);
    let one = seq![c];
    if '0' <= c <= '9' {
        assert(text::unsigned(one) == one);
        assert(one.drop_last() =~= none);
        assert(text::all_digits(one));
    }
    let t = s.push(c);
    let u = text::unsigned(s);
    if s.len() > 0 {
        assert(t[0] == s[0]);
        assert(text::unsigned(t) =~= u.push(c));
        let w = u.push(c);
        assert(w.drop_last() =~= u);
        assert(w.last() == c);
        if text::all_digits(u) && text::is_digit(c) {
            assert forall|i: int| 0 <= i < w.len() implies text::is_digit(#[trigger] w[i]) by {
                if i < u.len() {
                    assert(w[i] == u[i]);
                }
            }
        }
        if text::all_digits(w) {
            assert(text::is_digit(w[u.len() as int]));
            assert forall|i: int| 0 <= i < u.len() implies text::is_digit(#[trigger] u[i]) by {
                assert(w[i] == u[i]);
            }
        }
        if u.len() == 0 {
            assert(s =~= seq!['+']);
        }
        let p = seq!['+'] + s;
        assert(p[0] == '+');
        assert(p.skip(1) =~= s);
    }
}

/// White space alone.
pub open spec fn is_white(s: Seq<char>) -> bool {
    forall|i: int| 0 <= i < s.len() ==> text::is_space(#[trigger] s[i])
}

/// `s` is `mid` with white space around it, and `mid` neither begins nor ends in white space.
pub open spec fn wraps(s: Seq<char>, a: Seq<char>, mid: Seq<char>, b: Seq<char>) -> bool {
    &&& s == a + mid + b
    &&& is_white(a)
    &&& is_white(b)
    &&& mid.len() > 0 ==> !text::is_space(mid[0]) && !text::is_space(mid.last())
}

proof fn lemma_trim_front(a: Seq<char>, rest: Seq<char>)
    requires
        is_white(a),
        rest.len() > 0 ==> !text::is_space(rest[0]),
    ensures
        text::trim_front(a + rest) == rest,
    decreases a.len(),
{
    let s = a + rest;
    if a.len() == 0 {
        assert(s =~= rest);
    } else {
        assert(s[0] == a[0]);
        assert(s.skip(1) =~= a.skip(1) + rest);
        let t = a.skip(1);
        assert forall|i: int| 0 <= i < t.len() implies text::is_space(#[trigger] t[i]) by {
            assert(t[i] == a[i + 1]);
        }
        lemma_trim_front(t, rest);
    }
}

proof fn lemma_trim_back(rest: Seq<char>, b: Seq<char>)
    requires
        is_white(b),
        rest.len() > 0 ==> !text::is_space(rest.last()),
    ensures
        text::trim_back(rest + b) == rest,
    decreases b.len(),
{
    let s = rest + b;
    if b.len() == 0 {
        assert(s =~= rest);
    } else {
        assert(s.last() == b.last());
        assert(s.drop_last() =~= rest + b.drop_last());
        let t = b.drop_last();
        assert forall|i: int| 0 <= i < t.len() implies text::is_space(#[trigger] t[i]) by {
            assert(t[i] == b[i]);
        }
        lemma_trim_back(rest, t);
    }
}

proof fn lemma_front_of(s: Seq<char>)
    ensures
        exists|n: int| #[trigger] front_of(s, n) && text::trim_front(s) == s.skip(n),
    decreases s.len(),
{
    if s.len() > 0 && text::is_space(s[0]) {
        let t = s.skip(1);
        lemma_front_of(t);
        let n = choose|n: int| #[trigger] front_of(t, n) && text::trim_front(t) == t.skip(n);
        assert(t.skip(n) =~= s.skip(n + 1));
        assert forall|i: int| 0 <= i < n + 1 implies text::is_space(#[trigger] s[i]) by {
            if i > 0 {
                assert(s[i] == t[i - 1]);
            }
        }
        assert(front_of(s, n + 1));
    } else {
        assert(s.skip(0) =~= s);
        assert(front_of(s, 0));
    }
}

spec fn front_of(s: Seq<char>, n: int) -> bool {
    &&& 0 <= n <= s.len()
    &&& forall|i: int| 0 <= i < n ==> text::is_space(#[trigger] s[i])
    &&& n < s.len() ==> !text::is_space(s[n])
}

proof fn lemma_back_of(s: Seq<char>)
    ensures
        exists|n: int| #[trigger] back_of(s, n) && text::trim_back(s) == s.take(n),
    decreases s.len(),
{
    if s.len() > 0 && text::is_space(s.last()) {
        let t = s.drop_last();
        lemma_back_of(t);
        let n = choose|n: int| #[trigger] back_of(t, n) && text::trim_back(t) == t.take(n);
        assert(t.take(n) =~= s.take(n));
        assert forall|i: int| n <= i < s.len() implies text::is_space(#[trigger] s[i]) by {
            if i < t.len() {
                assert(s[i] == t[i]);
            }
        }
        if n > 0 {
            assert(t[n - 1] == s[n - 1]);
        }
        assert(back_of(s, n));
    } else {
        assert(s.take(s.len() as int) =~= s);
        assert(back_of(s, s.len() as int));
    }
}

spec fn back_of(s: Seq<char>, n: int) -> bool {
    &&& 0 <= n <= s.len()
    &&& forall|i: int| n <= i < s.len() ==> text::is_space(#[trigger] s[i])
    &&& n > 0 ==> !text::is_space(s[n - 1])
}

/// Every text is what trimming leaves of it, with white space around it.
pub proof fn law_every_text_is_trimmed(s: Seq<char>)
    ensures
        exists|a: Seq<char>, b: Seq<char>| #[trigger] wraps(s, a, text::trimmed(s), b),
{
    lemma_front_of(s);
    let n = choose|n: int| #[trigger] front_of(s, n) && text::trim_front(s) == s.skip(n);
    let t = s.skip(n);
    lemma_back_of(t);
    let m = choose|m: int| #[trigger] back_of(t, m) && text::trim_back(t) == t.take(m);
    let a = s.take(n);
    let b = t.skip(m);
    let mid = text::trimmed(s);
    assert(s =~= a + mid + b);
    assert forall|i: int| 0 <= i < a.len() implies text::is_space(#[trigger] a[i]) by {
        assert(a[i] == s[i]);
    }
    assert forall|i: int| 0 <= i < b.len() implies text::is_space(#[trigger] b[i]) by {
        assert(b[i] == t[m + i]);
    }
    if mid.len() > 0 {
        assert(mid[0] == s[n]);
        assert(mid.last() == t[m - 1]);
    }
    assert(wraps(s, a, mid, b));
}

/// Trimming takes the white space off both ends of a text and leaves the rest as it is. The printing
/// characters of ASCII are no white space; the blank, the tab and the line breaks are.
pub proof fn law_trimming_takes_white_space(s: Seq<char>, a: Seq<char>, mid: Seq<char>, b: Seq<char>)
    requires
        wraps(s, a, mid, b),
    ensures
        text::trimmed(s) == mid,
        forall|c: char| '!' <= c <= '~' ==> !#[trigger] text::is_space(c),
        text::is_space(' ') && text::is_space('\t') && text::is_space('\n') && text::is_space('\r'),
{
    if mid.len() == 0 {
        assert forall|i: int| 0 <= i < s.len() implies text::is_space(#[trigger] s[i]) by {
            if i < a.len() {
                assert(s[i] == a[i]);
            } else {
                assert(s[i] == b[i - a.len()]);
            }
        }
        assert(s =~= s + Seq::<char>::empty());
        lemma_trim_front(s, Seq::empty());
        assert(text::trimmed(s) =~= mid);
    } else {
        let rest = mid + b;
        assert(s =~= a + rest);
        assert(rest[0] == mid[0]);
        lemma_trim_front(a, rest);
        lemma_trim_back(mid, b);
    }
}

/// The pieces with `c` between them.
pub open spec fn rejoined(pieces: Seq<Seq<char>>, c: char) -> Seq<char>
    decreases pieces.len(),
{
    if pieces.len() <= 1 {
        pieces[0]
    } else {
        rejoined(pieces.drop_last(), c).push(c) + pieces.last()
    }
}

/// The pieces of a text between the characters `c` give it back when `c` is put between them, and
/// none of them holds `c`.
pub proof fn law_pieces_rejoin(s: Seq<char>, c: char)
    ensures
        text::pieces(s, c).len() > 0,
        rejoined(text::pieces(s, c), c) == s,
        forall|i: int| 0 <= i < text::pieces(s, c).len() ==> !(#[trigger] text::pieces(s, c)[i]).contains(c),
    decreases s.len(),
{
    let all = text::pieces(s, c);
    if s.len() == 0 {
        assert(all[0] == s);
    } else {
        let before = text::pieces(s.drop_last(), c);
        law_pieces_rejoin(s.drop_last(), c);
        assert(s =~= s.drop_last().push(s.last()));
        if s.last() == c {
            assert(all.drop_last() =~= before);
            assert(rejoined(all, c) =~= s);
            assert forall|i: int| 0 <= i < all.len() implies !(#[trigger] all[i]).contains(c) by {
                if i < before.len() {
                    assert(all[i] == before[i]);
                }
            }
        } else {
            let last = before.last().push(s.last());
            assert(all.drop_last() =~= before.drop_last());
            assert(all.last() == last);
            if before.len() == 1 {
                assert(all =~= seq![last]);
            } else {
                assert(rejoined(all, c) =~= rejoined(before.drop_last(), c).push(c) + last);
                assert(rejoined(all, c) =~= rejoined(before, c).push(s.last()));
            }
            assert forall|i: int| 0 <= i < all.len() implies !(#[trigger] all[i]).contains(c) by {
                if i < before.len() - 1 {
                    assert(all[i] == before[i]);
                } else {
                    let was = before[before.len() - 1];
                    assert(!was.contains(c));
                    if last.contains(c) {
                        let k = last.index_of(c);
                        assert(last[k] == c);
                        if k < was.len() {
                            assert(was[k] == c);
                        }
                    }
                }
            }
        }
    }
}

/// Taking repeats out of a list keeps each text once, in the order in which the texts first stood.
pub proof fn law_distinct_keeps_each_once(list: Seq<Seq<char>>)
    ensures
        text::distinct(list).no_duplicates(),
        forall|x: Seq<char>| #[trigger] text::distinct(list).contains(x) <==> list.contains(x),
        forall|n: int|
            0 <= n <= list.len() ==> text::distinct(#[trigger] list.take(n)).is_prefix_of(text::distinct(list)),
    decreases list.len(),
{
    let all = text::distinct(list);
    if list.len() > 0 {
        let init = list.drop_last();
        let head = text::distinct(init);
        law_distinct_keeps_each_once(init);
        assert forall|x: Seq<char>| #[trigger] all.contains(x) <==> list.contains(x) by {
            if list.contains(x) {
                let i = list.index_of(x);
                if i < init.len() {
                    assert(init[i] == x);
                    assert(init.contains(x));
                    assert(head.contains(x));
                    let k = head.index_of(x);
                    assert(head[k] == x);
                    assert(all[k] == x);
                } else {
                    assert(x == list.last());
                    if !head.contains(x) {
                        assert(all.last() == x);
                    }
                }
            }
            if all.contains(x) {
                let k = all.index_of(x);
                if k < head.len() {
                    assert(head[k] == x);
                    assert(head.contains(x));
                    let i = init.index_of(x);
                    assert(list[i] == x);
                } else {
                    assert(list[list.len() - 1] == x);
                }
            }
        }
        assert(head.is_prefix_of(all));
        assert forall|n: int| 0 <= n <= list.len() implies text::distinct(#[trigger] list.take(n)).is_prefix_of(
            all,
        ) by {
            if n < list.len() {
                assert(list.take(n) =~= init.take(n));
                let part = text::distinct(init.take(n));
                assert(part.is_prefix_of(head));
                assert(all.subrange(0, part.len() as int) =~= head.subrange(0, part.len() as int));
            } else {
                assert(list.take(n) =~= list);
            }
        }
    } else {
        assert forall|n: int| 0 <= n <= list.len() implies text::distinct(#[trigger] list.take(n)).is_prefix_of(
            all,
        ) by {
            assert(list.take(n) =~= list);
        }
    }
}

/// `b` is `a`, or its other case, where `a` is an ASCII letter.
pub open spec fn alike(a: char, b: char) -> bool {
    ||| a == b
    ||| 'A' <= a <= 'Z' && b as u32 == a as u32 + 32
    ||| 'A' <= b <= 'Z' && a as u32 == b as u32 + 32
}

/// Two texts are the same but for case when they are so character by character.
pub proof fn law_case_by_character(a: Seq<char>, b: Seq<char>)
    ensures
        text::same_but_case(a, b) <==> a.len() == b.len() && forall|i: int|
            0 <= i < a.len() ==> alike(#[trigger] a[i], b[i]),
{
    assert forall|x: char, y: char| #[trigger] alike(x, y) <==> text::ascii_lower(x) == text::ascii_lower(y) by {}
    if text::same_but_case(a, b) {
        assert forall|i: int| 0 <= i < a.len() implies alike(#[trigger] a[i], b[i]) by {
            assert(text::ascii_lower(a[i]) == text::ascii_lower(b[i]));
        }
    }
    if a.len() == b.len() && forall|i: int| 0 <= i < a.len() ==> alike(#[trigger] a[i], b[i]) {
        assert forall|i: int| 0 <= i < a.len() implies text::ascii_lower(#[trigger] a[i]) == text::ascii_lower(
            b[i],
        ) by {
            assert(alike(a[i], b[i]));
        }
    }
}

proof fn lemma_occurs_shift(s: Seq<char>, part: Seq<char>, at: int, k: int)
    requires
        0 <= at <= s.len(),
        0 <= k,
    ensures
        text::occurs_at(s.skip(at), part, k) <==> text::occurs_at(s, part, at + k),
{
    if k + part.len() <= s.skip(at).len() {
        assert(s.skip(at).subrange(k, k + part.len()) =~= s.subrange(at + k, at + k + part.len()));
    }
}

proof fn lemma_next_shift(s: Seq<char>, part: Seq<char>, at: int, k: int)
    requires
        0 <= at <= s.len(),
        0 <= k,
    ensures
        text::next_at(s, part, at + k) == (match text::next_at(s.skip(at), part, k) {
            Some(i) => Some(at + i),
            None => None,
        }),
    decreases s.len() + 1 - at - k,
{
    lemma_occurs_shift(s, part, at, k);
    if at + k + part.len() <= s.len() && !text::occurs_at(s, part, at + k) {
        lemma_next_shift(s, part, at, k + 1);
    }
}

proof fn lemma_next_bounds(s: Seq<char>, part: Seq<char>, at: int)
    ensures
        text::next_at(s, part, at) matches Some(i) ==> 0 <= at <= i && i + part.len() <= s.len(),
    decreases s.len() + 1 - at,
{
    if 0 <= at && at + part.len() <= s.len() && !text::occurs_at(s, part, at) {
        lemma_next_bounds(s, part, at + 1);
    }
}

proof fn lemma_spans_shift(s: Seq<char>, open: Seq<char>, close: Seq<char>, at: int, k: int)
    requires
        0 <= at <= s.len(),
        0 <= k,
        open.len() > 0,
        close.len() > 0,
    ensures
        text::spans(s, open, close, at + k) == text::spans(s.skip(at), open, close, k),
    decreases s.len() - at - k,
{
    let t = s.skip(at);
    lemma_next_shift(s, open, at, k);
    lemma_next_bounds(t, open, k);
    if let Some(i) = text::next_at(t, open, k) {
        lemma_next_shift(s, close, at, i + open.len() as int);
        lemma_next_bounds(t, close, i + open.len() as int);
        if let Some(j) = text::next_at(t, close, i + open.len() as int) {
            assert(at + (i + open.len()) == (at + i) + open.len());
            lemma_spans_shift(s, open, close, at, j + close.len() as int);
            assert(s.subrange(at + i + open.len(), at + j) =~= t.subrange(i + open.len(), j));
            assert(at + (j + close.len()) == (at + j) + close.len());
        }
    }
}

/// The stretches of a text between `open` and `close`: what stands between the first `open` and the
/// first `close` behind it comes first, and then come those of what follows. Without an `open`, or
/// without a `close` behind it, there are none.
pub proof fn law_spans_one_by_one(s: Seq<char>, open: Seq<char>, close: Seq<char>, i: int, j: int)
    requires
        open.len() > 0,
        close.len() > 0,
        text::occurs_at(s, open, i),
        forall|k: int| 0 <= k < i ==> !text::occurs_at(s, open, k),
    ensures
        i + open.len() <= j && text::occurs_at(s, close, j) && (forall|k: int|
            i + open.len() <= k < j ==> !text::occurs_at(s, close, k)) ==> text::spans(s, open, close, 0)
            == seq![s.subrange(i + open.len(), j)] + text::spans(s.skip(j + close.len()), open, close, 0),
        (forall|k: int| i + open.len() <= k ==> !text::occurs_at(s, close, k)) ==> text::spans(
            s,
            open,
            close,
            0,
        ).len() == 0,
{
    text::lemma_next_at(s, open, 0, i);
    let from = i + open.len() as int;
    if i + open.len() <= j && text::occurs_at(s, close, j) && (forall|k: int|
        i + open.len() <= k < j ==> !text::occurs_at(s, close, k)) {
        text::lemma_next_at(s, close, from, j);
        lemma_spans_shift(s, open, close, j + close.len() as int, 0);
    }
    if forall|k: int| i + open.len() <= k ==> !text::occurs_at(s, close, k) {
        text::lemma_next_none(s, close, from);
    }
}

/// A text without `open` has no stretches.
pub proof fn law_no_span_without_open(s: Seq<char>, open: Seq<char>, close: Seq<char>)
    requires
        forall|k: int| 0 <= k ==> !text::occurs_at(s, open, k),
    ensures
        text::spans(s, open, close, 0).len() == 0,
{
    text::lemma_next_none(s, open, 0);
}

/// White space is the blank, the tab and the line breaks, the no-break space, and the other spaces and
/// separators of Unicode.
pub proof fn law_white_space_is_unicode(c: char)
    ensures
        text::is_space(c) <==> {
            ||| '\t' <= c <= '\r'
            ||| c == ' '
            ||| c == '\u{85}'
            ||| c == '\u{a0}'
            ||| c == '\u{1680}'
            ||| '\u{2000}' <= c <= '\u{200a}'
            ||| c == '\u{2028}'
            ||| c == '\u{2029}'
            ||| c == '\u{202f}'
            ||| c == '\u{205f}'
            ||| c == '\u{3000}'
        },
{
}

} // verus!
