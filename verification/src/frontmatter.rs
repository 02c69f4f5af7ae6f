//! What the headings and the frontmatter of a note say, said of the lines they are written in.
use crate::notes;
use crate::notes::Opened;
use crate::paths;
use crate::reading;
use crate::text;
use crate::wording;
use vstd::prelude::*;

verus! {

/// The line is `key` and then `rest`.
pub open spec fn follows(line: Seq<char>, key: Seq<char>, rest: Seq<char>) -> bool {
    line == key + rest
}

/// The line begins with `key`.
pub open spec fn has_key(line: Seq<char>, key: Seq<char>) -> bool {
    exists|rest: Seq<char>| #[trigger] follows(line, key, rest)
}

proof fn lemma_has_key(line: Seq<char>, key: Seq<char>)
    ensures
        text::begins_with(line, key) <==> has_key(line, key),
        forall|rest: Seq<char>| #[trigger] follows(line, key, rest) ==> rest == line.skip(key.len() as int),
{
    if text::begins_with(line, key) {
        assert(line =~= key + line.skip(key.len() as int));
        assert(follows(line, key, line.skip(key.len() as int)));
    }
    assert forall|rest: Seq<char>| #[trigger] follows(line, key, rest) implies rest == line.skip(
        key.len() as int,
    ) && text::begins_with(line, key) by {
        assert(line.skip(key.len() as int) =~= rest);
        assert(line.take(key.len() as int) =~= key);
    }
}

/// `rest` is what follows `key` in the first line that begins with it.
pub open spec fn is_field(lines: Seq<Seq<char>>, key: Seq<char>, rest: Seq<char>) -> bool {
    exists|i: int|
        {
            &&& 0 <= i < lines.len()
            &&& follows(#[trigger] lines[i], key, rest)
            &&& forall|j: int| 0 <= j < i ==> !has_key(#[trigger] lines[j], key)
        }
}

/// No line begins with `key`.
pub open spec fn lacks(lines: Seq<Seq<char>>, key: Seq<char>) -> bool {
    forall|i: int| 0 <= i < lines.len() ==> !has_key(#[trigger] lines[i], key)
}

proof fn lemma_field(lines: Seq<Seq<char>>, key: Seq<char>)
    ensures
        match notes::field(lines, key) {
            Some(r) => is_field(lines, key, r) && forall|rest: Seq<char>|
                is_field(lines, key, rest) ==> rest == r,
            None => lacks(lines, key),
        },
    decreases lines.len(),
{
    if lines.len() > 0 {
        let init = lines.drop_last();
        let n = lines.len() - 1;
        lemma_field(init, key);
        lemma_has_key(lines.last(), key);
        match notes::field(init, key) {
            Some(r) => {
                let i = choose|i: int|
                    {
                        &&& 0 <= i < init.len()
                        &&& follows(#[trigger] init[i], key, r)
                        &&& forall|j: int| 0 <= j < i ==> !has_key(#[trigger] init[j], key)
                    };
                assert(lines[i] == init[i]);
                assert forall|j: int| 0 <= j < i implies !has_key(#[trigger] lines[j], key) by {
                    assert(lines[j] == init[j]);
                }
                assert(is_field(lines, key, r));
                assert forall|rest: Seq<char>| is_field(lines, key, rest) implies rest == r by {
                    let k = choose|k: int|
                        {
                            &&& 0 <= k < lines.len()
                            &&& follows(#[trigger] lines[k], key, rest)
                            &&& forall|j: int| 0 <= j < k ==> !has_key(#[trigger] lines[j], key)
                        };
                    assert(has_key(lines[i], key));
                    assert(has_key(lines[k], key));
                    assert(k == i);
                    lemma_has_key(lines[k], key);
                }
            },
            None => {
                if text::begins_with(lines.last(), key) {
                    let r = lines.last().skip(key.len() as int);
                    assert(lines.last() =~= key + r);
                    assert(follows(lines[n], key, r));
                    assert forall|j: int| 0 <= j < n implies !has_key(#[trigger] lines[j], key) by {
                        assert(lines[j] == init[j]);
                    }
                    assert(is_field(lines, key, r));
                    assert forall|rest: Seq<char>| is_field(lines, key, rest) implies rest == r by {
                        let k = choose|k: int|
                            {
                                &&& 0 <= k < lines.len()
                                &&& follows(#[trigger] lines[k], key, rest)
                                &&& forall|j: int| 0 <= j < k ==> !has_key(#[trigger] lines[j], key)
                            };
                        assert(has_key(lines[k], key));
                        assert(k == n);
                    }
                } else {
                    assert forall|i: int| 0 <= i < lines.len() implies !has_key(#[trigger] lines[i], key) by {
                        if i < n {
                            assert(lines[i] == init[i]);
                        }
                    }
                }
            },
        }
    }
}

/// `rest` is what follows the mark of a heading in the first line outside of code blocks that begins
/// with it.
pub open spec fn is_heading(lines: Seq<Seq<char>>, rest: Seq<char>) -> bool {
    exists|i: int|
        {
            &&& #[trigger] reading::is_prose(lines, i)
            &&& follows(lines[i], "# "@, rest)
            &&& forall|j: int| 0 <= j < i && #[trigger] reading::is_prose(lines, j) ==> !has_key(lines[j], "# "@)
        }
}

/// No line outside of code blocks is a heading.
pub open spec fn lacks_heading(lines: Seq<Seq<char>>) -> bool {
    forall|j: int| #[trigger] reading::is_prose(lines, j) ==> !has_key(lines[j], "# "@)
}

proof fn lemma_heading(lines: Seq<Seq<char>>)
    ensures
        match notes::field(notes::prose(lines), "# "@) {
            Some(r) => is_heading(lines, r),
            None => lacks_heading(lines),
        },
    decreases lines.len(),
{
    let key = "# "@;
    if lines.len() > 0 {
        let init = lines.drop_last();
        let n = lines.len() - 1;
        lemma_heading(init);
        lemma_has_key(lines.last(), key);
        reading::lemma_last_is_prose(lines);
        assert forall|i: int| 0 <= i < n implies reading::is_prose(init, i) == #[trigger] reading::is_prose(
            lines,
            i,
        ) && init[i] == lines[i] by {
            assert(init.take(i) =~= lines.take(i));
        }
        let before = notes::prose(init);
        let all = notes::prose(lines);
        if reading::is_prose(lines, n) {
            assert(all.drop_last() =~= before);
            assert(all.last() == lines.last());
        } else {
            assert(all == before);
        }
        match notes::field(before, key) {
            Some(r) => {
                let i = choose|i: int|
                    {
                        &&& #[trigger] reading::is_prose(init, i)
                        &&& follows(init[i], key, r)
                        &&& forall|j: int|
                            0 <= j < i && #[trigger] reading::is_prose(init, j) ==> !has_key(init[j], key)
                    };
                assert(reading::is_prose(lines, i));
                assert forall|j: int| 0 <= j < i && #[trigger] reading::is_prose(lines, j) implies !has_key(
                    lines[j],
                    key,
                ) by {
                    assert(reading::is_prose(init, j));
                }
                assert(is_heading(lines, r));
            },
            None => {
                assert forall|j: int| 0 <= j < n && #[trigger] reading::is_prose(lines, j) implies !has_key(
                    lines[j],
                    key,
                ) by {
                    assert(reading::is_prose(init, j));
                }
                if reading::is_prose(lines, n) && text::begins_with(lines.last(), key) {
                    let r = lines.last().skip(key.len() as int);
                    assert(lines.last() =~= key + r);
                    assert(follows(lines[n], key, r));
                    assert(is_heading(lines, r));
                }
            },
        }
    }
}

/// A note is titled by its first heading outside of code blocks, or else by what its frontmatter
/// gives as the title, or else by the name of its file. Its type and its summary are those that the
/// frontmatter gives; without them it is a plain note without a summary.
pub proof fn law_note_says_what_it_is(path: Seq<char>, s: Seq<char>)
    ensures
        ({
            let note = notes::note_in(path, s);
            let head = reading::lines_of(notes::front(s));
            let lines = reading::lines_of(notes::body(s));
            &&& note.path == path
            &&& lacks_heading(lines) || exists|rest: Seq<char>| #[trigger]
                is_heading(lines, rest) && reading::is_bare_of(text::trimmed(rest), note.title)
            &&& lacks_heading(lines) ==> (forall|rest: Seq<char>| #[trigger]
                is_field(head, "title:"@, rest) ==> note.title == notes::value(rest))
            &&& lacks_heading(lines) && lacks(head, "title:"@) ==> match paths::stem_of(path) {
                Some(stem) => note.title == stem,
                None => note.title.len() == 0,
            }
            &&& forall|rest: Seq<char>| #[trigger]
                is_field(head, "type:"@, rest) ==> note.note_type == notes::value(rest)
            &&& lacks(head, "type:"@) ==> note.note_type == "note"@
            &&& forall|rest: Seq<char>| #[trigger]
                is_field(head, "summary:"@, rest) ==> note.summary == notes::value(rest)
            &&& lacks(head, "summary:"@) ==> note.summary.len() == 0
        }),
{
    reveal_strlit("");
    let note = notes::note_in(path, s);
    let head = reading::lines_of(notes::front(s));
    let lines = reading::lines_of(notes::body(s));
    lemma_heading(lines);
    lemma_field(head, "title:"@);
    lemma_field(head, "type:"@);
    lemma_field(head, "summary:"@);
    if let Some(r) = notes::field(notes::prose(lines), "# "@) {
        reading::lemma_is_bare_of(text::trimmed(r), note.title);
        assert(is_heading(lines, r));
        assert(!lacks_heading(lines)) by {
            let i = choose|i: int|
                {
                    &&& #[trigger] reading::is_prose(lines, i)
                    &&& follows(lines[i], "# "@, r)
                    &&& forall|j: int|
                        0 <= j < i && #[trigger] reading::is_prose(lines, j) ==> !has_key(lines[j], "# "@)
                };
            assert(has_key(lines[i], "# "@));
        }
    }
    lemma_lacks(head, "title:"@);
    lemma_lacks(head, "type:"@);
    lemma_lacks(head, "summary:"@);
}

proof fn lemma_lacks(lines: Seq<Seq<char>>, key: Seq<char>)
    ensures
        lacks(lines, key) ==> forall|rest: Seq<char>| !#[trigger] is_field(lines, key, rest),
{
    if lacks(lines, key) {
        assert forall|rest: Seq<char>| !#[trigger] is_field(lines, key, rest) by {
            if is_field(lines, key, rest) {
                let i = choose|i: int|
                    {
                        &&& 0 <= i < lines.len()
                        &&& follows(#[trigger] lines[i], key, rest)
                        &&& forall|j: int| 0 <= j < i ==> !has_key(#[trigger] lines[j], key)
                    };
                assert(has_key(lines[i], key));
            }
        }
    }
}

/// A comment begins at `k`: a `#` in front, or behind white space.
pub open spec fn comment_starts(s: Seq<char>, k: int) -> bool {
    0 <= k < s.len() && s[k] == '#' && (k == 0 || text::is_space(s[k - 1]))
}

proof fn lemma_comment_at(s: Seq<char>, from: int, n: int)
    requires
        0 <= from <= n <= s.len(),
        forall|k: int| from <= k < n ==> !comment_starts(s, k),
        n < s.len() ==> comment_starts(s, n),
    ensures
        notes::comment_at(s, from) == n,
    decreases n - from,
{
    if from < n {
        assert(!comment_starts(s, from));
        lemma_comment_at(s, from + 1, n);
    }
}

proof fn lemma_first_of(s: Seq<char>, c: char, from: int, n: int)
    requires
        0 <= from <= n <= s.len(),
        forall|k: int| from <= k < n ==> s[k] != c,
        n < s.len() ==> s[n] == c,
    ensures
        notes::first_of(s, c, from) == n,
    decreases n - from,
{
    if from < n {
        lemma_first_of(s, c, from + 1, n);
    }
}

/// `x` is the part of `t` before a comment, or all of `t` where there is none.
pub open spec fn is_before_comment(t: Seq<char>, x: Seq<char>) -> bool {
    &&& x.len() <= t.len()
    &&& x == t.take(x.len() as int)
    &&& forall|k: int| 0 <= k < x.len() ==> !#[trigger] comment_starts(t, k)
    &&& x.len() < t.len() ==> comment_starts(t, x.len() as int)
}

/// A quoted text in the frontmatter says what is between the quotation marks, whatever follows them.
pub proof fn law_quoted_value(s: Seq<char>, q: char, inner: Seq<char>, rest: Seq<char>)
    requires
        q == '"' || q == '\'',
        text::trimmed(s) == seq![q] + inner + seq![q] + rest,
        !inner.contains(q),
    ensures
        notes::value(s) == inner,
{
    let t = text::trimmed(s);
    let n = inner.len() as int + 1;
    assert(t[0] == q);
    assert(t[n] == q);
    assert forall|k: int| 1 <= k < n implies t[k] != q by {
        assert(t[k] == inner[k - 1]);
    }
    lemma_first_of(t, q, 1, n);
    assert(t.subrange(1, n) =~= inner);
}

/// A text in the frontmatter that no quotation mark begins, or one that is not closed, says what stands before a comment, without
/// white space around it.
pub proof fn law_plain_value(s: Seq<char>, x: Seq<char>)
    requires
        is_before_comment(text::trimmed(s), x),
        text::trimmed(s).len() > 0 && (text::trimmed(s)[0] == '"' || text::trimmed(s)[0] == '\'') ==> (forall|k: int|
            1 <= k < text::trimmed(s).len() ==> #[trigger] text::trimmed(s)[k] != text::trimmed(s)[0]),
    ensures
        reading::is_bare_of(text::trimmed(x), notes::value(s)),
{
    let t = text::trimmed(s);
    if t.len() > 0 && (t[0] == '"' || t[0] == '\'') {
        lemma_first_of(t, t[0], 1, t.len() as int);
    }
    lemma_comment_at(t, 0, x.len() as int);
    reading::lemma_is_bare_of(text::trimmed(x), notes::value(s));
}

/// The line names a list of files, and `rest` stands behind the key.
pub open spec fn names_list(line: Seq<char>, rest: Seq<char>) -> bool {
    exists|tail: Seq<char>|
        {
            &&& follows(text::trimmed(line), "files:"@, tail) || follows(
                text::trimmed(line),
                "file-registry:"@,
                tail,
            )
            &&& rest == #[trigger] text::trimmed(tail)
        }
}

/// The line names no list of files.
pub open spec fn names_none(line: Seq<char>) -> bool {
    !has_key(text::trimmed(line), "files:"@) && !has_key(text::trimmed(line), "file-registry:"@)
}

proof fn lemma_names_list(line: Seq<char>, rest: Seq<char>)
    ensures
        notes::list_rest(line) == Some(rest) <==> names_list(line, rest),
        notes::list_rest(line) is None <==> names_none(line),
{
    reveal_strlit("files:");
    reveal_strlit("file-registry:");
    let t = text::trimmed(line);
    lemma_has_key(t, "files:"@);
    lemma_has_key(t, "file-registry:"@);
    if text::begins_with(t, "files:"@) {
        assert(t =~= "files:"@ + t.skip(6));
        assert(follows(t, "files:"@, t.skip(6)));
        assert(!text::begins_with(t, "file-registry:"@)) by {
            if text::begins_with(t, "file-registry:"@) {
                assert(t.take(14)[4] == "file-registry:"@[4]);
                assert(t.take(6)[4] == "files:"@[4]);
            }
        }
    } else if text::begins_with(t, "file-registry:"@) {
        assert(t =~= "file-registry:"@ + t.skip(14));
        assert(follows(t, "file-registry:"@, t.skip(14)));
    }
    if names_list(line, rest) {
        let tail = choose|tail: Seq<char>|
            {
                &&& follows(t, "files:"@, tail) || follows(t, "file-registry:"@, tail)
                &&& rest == #[trigger] text::trimmed(tail)
            };
        if follows(t, "files:"@, tail) {
            assert(has_key(t, "files:"@));
        } else {
            assert(has_key(t, "file-registry:"@));
        }
    }
}

/// Blank, or a comment.
pub open spec fn says_nothing(s: Seq<char>) -> bool {
    text::trimmed(s).len() == 0 || text::trimmed(s)[0] == '#'
}

/// The line is an item of a list.
pub open spec fn is_item(line: Seq<char>) -> bool {
    has_key(text::trimmed(line), "- "@)
}

/// What the items among the lines say.
pub open spec fn said(lines: Seq<Seq<char>>) -> Seq<Seq<char>>
    decreases lines.len(),
{
    if lines.len() == 0 {
        Seq::empty()
    } else if is_item(lines.last()) {
        said(lines.drop_last()).push(notes::value(text::trimmed(lines.last()).skip(2)))
    } else {
        said(lines.drop_last())
    }
}

proof fn lemma_says_nothing(s: Seq<char>)
    ensures
        says_nothing(s) <==> notes::uncommented(s).len() == 0,
{
    let mid = text::trimmed(s);
    wording::law_every_text_is_trimmed(s);
    let (a, b) = choose|a: Seq<char>, b: Seq<char>| #[trigger] wording::wraps(s, a, mid, b);
    let n = a.len() as int;
    let c = lemma_first_comment(s, 0);
    let x = s.take(c);
    wording::law_every_text_is_trimmed(x);
    let (p, q) = choose|p: Seq<char>, q: Seq<char>| #[trigger] wording::wraps(x, p, text::trimmed(x), q);
    lemma_comment_at(s, 0, c);
    if says_nothing(s) {
        assert(c <= n || mid.len() == 0) by {
            if mid.len() > 0 {
                assert(s[n] == '#');
                if n > 0 {
                    assert(s[n - 1] == a[n - 1]);
                }
                assert(comment_starts(s, n));
            }
        }
        assert forall|i: int| 0 <= i < x.len() implies text::is_space(#[trigger] x[i]) by {
            assert(x[i] == s[i]);
            if i < n {
                assert(s[i] == a[i]);
            } else {
                assert(s[i] == b[i - n]);
            }
        }
        if text::trimmed(x).len() > 0 {
            assert(x[p.len() as int] == text::trimmed(x)[0]);
        }
    } else {
        assert(s[n] == mid[0]);
        assert(c > n) by {
            if c <= n && c < s.len() {
                assert(comment_starts(s, c));
                if c < n {
                    assert(s[c] == a[c]);
                }
            }
        }
        assert(x[n] == s[n]);
        if text::trimmed(x).len() == 0 {
            if n < p.len() {
                assert(x[n] == p[n]);
            } else {
                assert(x[n] == q[n - p.len()]);
            }
        }
    }
}

proof fn lemma_bracket_says_something(s: Seq<char>)
    requires
        s.len() > 0,
        s[0] == '[',
    ensures
        !says_nothing(s),
{
    let mid = text::trimmed(s);
    wording::law_every_text_is_trimmed(s);
    let (a, b) = choose|a: Seq<char>, b: Seq<char>| #[trigger] wording::wraps(s, a, mid, b);
    if a.len() > 0 {
        assert(s[0] == a[0]);
        assert(text::is_space('['));
    }
    if mid.len() == 0 {
        assert(s[0] == b[0]);
    } else {
        assert(s[0] == mid[0]);
    }
}

proof fn lemma_first_comment(s: Seq<char>, from: int) -> (n: int)
    requires
        0 <= from <= s.len(),
    ensures
        from <= n <= s.len(),
        forall|k: int| from <= k < n ==> !comment_starts(s, k),
        n < s.len() ==> comment_starts(s, n),
    decreases s.len() - from,
{
    if from == s.len() || comment_starts(s, from) {
        from
    } else {
        lemma_first_comment(s, from + 1)
    }
}

/// The line neither begins a list nor is an item, and says something: it ends a list of items.
pub open spec fn ends_list(line: Seq<char>) -> bool {
    names_none(line) && !is_item(line) && !says_nothing(line)
}

/// A key with nothing behind it but a comment opens a list, and the list has the items on the lines
/// that follow; blank lines and comments do not end it.
pub proof fn law_list_has_its_items(pre: Seq<Seq<char>>, key: Seq<char>, lines: Seq<Seq<char>>, rest: Seq<char>)
    requires
        notes::opened(pre) != Opened::Flow,
        names_list(key, rest),
        says_nothing(rest),
        forall|i: int|
            0 <= i < lines.len() ==> names_none(#[trigger] lines[i]) && (is_item(lines[i]) || says_nothing(
                lines[i],
            )),
    ensures
        notes::items(pre.push(key) + lines) == notes::items(pre) + said(lines),
        notes::opened(pre.push(key) + lines) == Opened::Block,
    decreases lines.len(),
{
    let all = pre.push(key) + lines;
    if lines.len() == 0 {
        assert(all =~= pre.push(key));
        assert(pre.push(key).drop_last() =~= pre);
        lemma_names_list(key, rest);
        lemma_says_nothing(rest);
        assert(!(rest.len() > 0 && rest[0] == '[')) by {
            if rest.len() > 0 && rest[0] == '[' {
                lemma_bracket_says_something(rest);
            }
        }
        assert(notes::items(all) =~= notes::items(pre) + said(lines));
    } else {
        let init = lines.drop_last();
        let line = lines.last();
        assert forall|i: int| 0 <= i < init.len() implies names_none(#[trigger] init[i]) && (is_item(init[i])
            || says_nothing(init[i])) by {
            assert(init[i] == lines[i]);
        }
        law_list_has_its_items(pre, key, init, rest);
        assert(all.drop_last() =~= pre.push(key) + init);
        assert(all.last() == line);
        assert(lines[lines.len() - 1] == line);
        lemma_names_list(line, rest);
        lemma_says_nothing(line);
        lemma_has_key(text::trimmed(line), "- "@);
        assert(notes::items(all) =~= notes::items(pre) + said(lines));
    }
}

/// Lines that begin no list add no files where no list is open, and open none.
pub proof fn law_no_items_without_list(pre: Seq<Seq<char>>, lines: Seq<Seq<char>>)
    requires
        notes::opened(pre) == Opened::No,
        forall|i: int| 0 <= i < lines.len() ==> names_none(#[trigger] lines[i]),
    ensures
        notes::items(pre + lines) == notes::items(pre),
        notes::opened(pre + lines) == Opened::No,
        notes::opened(Seq::empty()) == Opened::No,
        notes::items(Seq::empty()).len() == 0,
    decreases lines.len(),
{
    let all = pre + lines;
    if lines.len() == 0 {
        assert(all =~= pre);
    } else {
        let init = lines.drop_last();
        assert forall|i: int| 0 <= i < init.len() implies names_none(#[trigger] init[i]) by {
            assert(init[i] == lines[i]);
        }
        law_no_items_without_list(pre, init);
        assert(all.drop_last() =~= pre + init);
        assert(names_none(lines[lines.len() - 1]));
        lemma_names_list(lines.last(), Seq::empty());
        assert(notes::items(all) =~= notes::items(pre));
    }
}

/// A line that says something and is no item ends a list of items.
pub proof fn law_other_line_ends_list(pre: Seq<Seq<char>>, line: Seq<char>)
    requires
        notes::opened(pre) != Opened::Flow,
        ends_list(line),
    ensures
        notes::items(pre.push(line)) == notes::items(pre),
        notes::opened(pre.push(line)) == Opened::No,
{
    let all = pre.push(line);
    assert(all.drop_last() =~= pre);
    lemma_names_list(line, Seq::empty());
    lemma_says_nothing(line);
    lemma_has_key(text::trimmed(line), "- "@);
    assert(notes::items(all) =~= notes::items(pre));
}

/// A bracket behind the key begins a list that has the pieces behind the bracket, and those of the
/// lines that follow until it is closed.
pub proof fn law_bracket_begins_list(pre: Seq<Seq<char>>, line: Seq<char>, rest: Seq<char>, inner: Seq<char>)
    ensures
        notes::opened(pre) != Opened::Flow && names_list(line, rest) && rest == seq!['['] + inner ==> {
            &&& notes::items(pre.push(line)) == notes::items(pre) + notes::flow_pieces(inner, 0)
            &&& notes::opened(pre.push(line)) == (if notes::flow_closes(inner, 0) {
                Opened::No
            } else {
                Opened::Flow
            })
        },
        notes::opened(pre) == Opened::Flow ==> {
            &&& notes::items(pre.push(line)) == notes::items(pre) + notes::flow_pieces(line, 0)
            &&& notes::opened(pre.push(line)) == (if notes::flow_closes(line, 0) {
                Opened::No
            } else {
                Opened::Flow
            })
        },
{
    let all = pre.push(line);
    assert(all.drop_last() =~= pre);
    lemma_names_list(line, rest);
    if notes::opened(pre) != Opened::Flow && names_list(line, rest) && rest == seq!['['] + inner {
        assert(rest[0] == '[');
        assert(rest.skip(1) =~= inner);
    }
}

/// A piece of a list in brackets ends at `k`.
pub open spec fn is_end(s: Seq<char>, k: int) -> bool {
    0 <= k < s.len() && (s[k] == ',' || s[k] == ']' || comment_starts(s, k))
}

/// Nothing ends a piece from `a` up to `b`, and no quotation begins there where `from` is the
/// beginning of the piece.
pub open spec fn runs_on(s: Seq<char>, from: int, a: int, b: int) -> bool {
    forall|k: int|
        a <= k < b ==> !#[trigger] is_end(s, k) && !((s[k] == '"' || s[k] == '\'') && text::is_blank(
            s.subrange(from, k),
        ))
}

proof fn lemma_piece_end(s: Seq<char>, from: int, at: int, end: int)
    requires
        0 <= from <= at <= end <= s.len(),
        runs_on(s, from, at, end),
        end < s.len() ==> is_end(s, end),
    ensures
        notes::piece_end(s, from, at, None) == end,
    decreases end - at,
{
    if at < end {
        assert(!is_end(s, at));
        lemma_piece_end(s, from, at + 1, end);
    }
}

proof fn lemma_quote_end(s: Seq<char>, from: int, at: int, b: int, q: char)
    requires
        0 <= from <= at <= b < s.len(),
        forall|k: int| at <= k < b ==> s[k] != q,
        s[b] == q,
    ensures
        notes::piece_end(s, from, at, Some(q)) == notes::piece_end(s, from, b + 1, None),
    decreases b - at,
{
    if at < b {
        lemma_quote_end(s, from, at + 1, b, q);
    }
}

/// A text, unless it is empty.
pub open spec fn unless_empty(x: Seq<char>) -> Seq<Seq<char>> {
    if x.len() == 0 {
        Seq::empty()
    } else {
        seq![x]
    }
}

proof fn lemma_flow(s: Seq<char>, from: int, end: int)
    requires
        0 <= from <= end <= s.len(),
        notes::piece_end(s, from, from, None) == end,
    ensures
        notes::flow_pieces(s, from) == unless_empty(notes::value(s.subrange(from, end))) + (if end < s.len()
            && s[end] == ',' {
            notes::flow_pieces(s, end + 1)
        } else {
            Seq::empty()
        }),
        notes::flow_closes(s, from) == (end < s.len() && (s[end] == ']' || s[end] == ',' && notes::flow_closes(
            s,
            end + 1,
        ))),
{
    let one = notes::one_piece(s.subrange(from, end));
    assert(one =~= unless_empty(notes::value(s.subrange(from, end))));
    if !(end < s.len() && s[end] == ',') {
        assert(one + Seq::<Seq<char>>::empty() =~= one);
    }
}

/// A piece of a list in brackets goes up to the next comma, closing bracket or comment; behind a
/// comma comes the next piece, and a closing bracket closes the list. An empty piece does not count.
pub proof fn law_pieces_of_brackets(s: Seq<char>, from: int, end: int)
    requires
        0 <= from <= end <= s.len(),
        runs_on(s, from, from, end),
        end < s.len() ==> is_end(s, end),
    ensures
        notes::flow_pieces(s, from) == unless_empty(notes::value(s.subrange(from, end))) + (if end < s.len()
            && s[end] == ',' {
            notes::flow_pieces(s, end + 1)
        } else {
            Seq::empty()
        }),
        notes::flow_closes(s, from) == (end < s.len() && (s[end] == ']' || s[end] == ',' && notes::flow_closes(
            s,
            end + 1,
        ))),
{
    lemma_piece_end(s, from, from, end);
    lemma_flow(s, from, end);
}

/// What is quoted in a list in brackets is one piece, whatever commas, brackets and comments are in
/// it.
pub proof fn law_quoted_piece_of_brackets(s: Seq<char>, from: int, a: int, b: int, end: int)
    requires
        0 <= from <= a < b < end <= s.len(),
        text::is_blank(s.subrange(from, a)),
        s[a] == '"' || s[a] == '\'',
        s[b] == s[a],
        forall|k: int| a < k < b ==> s[k] != s[a],
        runs_on(s, from, b + 1, end),
        end < s.len() ==> is_end(s, end),
    ensures
        notes::flow_pieces(s, from) == unless_empty(notes::value(s.subrange(from, end))) + (if end < s.len()
            && s[end] == ',' {
            notes::flow_pieces(s, end + 1)
        } else {
            Seq::empty()
        }),
        notes::flow_closes(s, from) == (end < s.len() && (s[end] == ']' || s[end] == ',' && notes::flow_closes(
            s,
            end + 1,
        ))),
{
    lemma_blank_run(s, from, from, a);
    assert(notes::piece_end(s, from, a, None) == notes::piece_end(s, from, a + 1, Some(s[a])));
    lemma_quote_end(s, from, a + 1, b, s[a]);
    lemma_piece_end(s, from, b + 1, end);
    lemma_flow(s, from, end);
}

/// A quotation that is not closed in a list in brackets goes to the end of the line, and the list goes
/// on.
pub proof fn law_open_quote_in_brackets(s: Seq<char>, from: int, a: int)
    requires
        0 <= from <= a < s.len(),
        text::is_blank(s.subrange(from, a)),
        s[a] == '"' || s[a] == '\'',
        forall|k: int| a < k < s.len() ==> s[k] != s[a],
    ensures
        notes::flow_pieces(s, from) == unless_empty(notes::value(s.skip(from))),
        !notes::flow_closes(s, from),
{
    lemma_blank_run(s, from, from, a);
    lemma_open_end(s, from, a + 1, s[a]);
    lemma_flow(s, from, s.len() as int);
    assert(s.subrange(from, s.len() as int) =~= s.skip(from));
    assert(notes::flow_pieces(s, from) =~= unless_empty(notes::value(s.skip(from))));
}

proof fn lemma_open_end(s: Seq<char>, from: int, at: int, q: char)
    requires
        0 <= from <= at <= s.len(),
        forall|k: int| at <= k < s.len() ==> s[k] != q,
    ensures
        notes::piece_end(s, from, at, Some(q)) == s.len(),
    decreases s.len() - at,
{
    if at < s.len() {
        lemma_open_end(s, from, at + 1, q);
    }
}

proof fn lemma_blank_run(s: Seq<char>, from: int, at: int, a: int)
    requires
        0 <= from <= at <= a < s.len(),
        text::is_blank(s.subrange(from, a)),
        s[a] == '"' || s[a] == '\'',
    ensures
        notes::piece_end(s, from, at, None) == notes::piece_end(s, from, a, None),
    decreases a - at,
{
    if at < a {
        assert(text::is_space(s.subrange(from, a)[at - from]));
        assert(s[at] == s.subrange(from, a)[at - from]);
        assert(!notes::is_quote(s[at]));
        lemma_blank_run(s, from, at + 1, a);
    }
}

} // verus!
