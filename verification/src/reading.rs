//! What a note is read as, said of the text that it is written in.
use crate::gather;
use crate::notes;
use crate::symbols;
use crate::text;
use crate::vault;
use crate::wording;
use vstd::prelude::*;

verus! {

/// The frontmatter of a note stands between a fence at its very beginning and the next fence at the
/// beginning of a line; the body is what follows. Without both fences all of the text is body.
pub proof fn law_frontmatter_stands_between_fences(s: Seq<char>, front: Seq<char>, body: Seq<char>)
    ensures
        s == "---"@ + front + "\n---"@ + body && (forall|k: int|
            3 <= k < 3 + front.len() ==> !text::occurs_at(s, "\n---"@, k)) ==> notes::front(s) == front
            && notes::body(s) == body,
        !(exists|rest: Seq<char>| s == #[trigger] ("---"@ + rest)) ==> notes::front(s).len() == 0 && notes::body(s)
            == s,
        (forall|k: int| 3 <= k ==> !text::occurs_at(s, "\n---"@, k)) ==> notes::front(s).len() == 0
            && notes::body(s) == s,
{
    reveal_strlit("---");
    reveal_strlit("\n---");
    let fence = "---"@;
    let next = "\n---"@;
    if s == fence + front + next + body && (forall|k: int|
        3 <= k < 3 + front.len() ==> !text::occurs_at(s, next, k)) {
        assert(s.take(3) =~= fence);
        let i = 3 + front.len() as int;
        assert(s.subrange(i, i + 4) =~= next);
        assert(text::occurs_at(s, next, i));
        text::lemma_next_at(s, next, 3, i);
        assert(s.subrange(3, i) =~= front);
        assert(s.skip(i + 4) =~= body);
    }
    if !(exists|rest: Seq<char>| s == #[trigger] (fence + rest)) {
        if text::begins_with(s, fence) {
            assert(s =~= fence + s.skip(3));
        }
    }
    if forall|k: int| 3 <= k ==> !text::occurs_at(s, next, k) {
        text::lemma_next_none(s, next, 3);
    }
}

/// The line opens or closes a code block: its text begins with three backticks.
pub open spec fn is_fence(line: Seq<char>) -> bool {
    exists|rest: Seq<char>| text::trimmed(line) == #[trigger] ("```"@ + rest)
}

/// How many of the lines open or close a code block.
pub open spec fn fences(lines: Seq<Seq<char>>) -> nat
    decreases lines.len(),
{
    if lines.len() == 0 {
        0
    } else {
        fences(lines.drop_last()) + (if is_fence(lines.last()) {
            1nat
        } else {
            0
        })
    }
}

/// The line at `i` stands outside of code blocks.
pub open spec fn is_prose(lines: Seq<Seq<char>>, i: int) -> bool {
    0 <= i < lines.len() && !is_fence(lines[i]) && fences(lines.take(i)) % 2 == 0
}

proof fn lemma_begins(whole: Seq<char>, part: Seq<char>)
    ensures
        text::begins_with(whole, part) <==> exists|rest: Seq<char>| whole == #[trigger] (part + rest),
{
    if text::begins_with(whole, part) {
        assert(whole =~= part + whole.skip(part.len() as int));
    }
    assert forall|rest: Seq<char>| whole == #[trigger] (part + rest) implies text::begins_with(whole, part) by {
        assert(whole.take(part.len() as int) =~= part);
    }
}

proof fn lemma_fence(line: Seq<char>)
    ensures
        notes::is_fence(line) <==> is_fence(line),
{
    lemma_begins(text::trimmed(line), "```"@);
}

proof fn lemma_in_block(lines: Seq<Seq<char>>)
    ensures
        notes::in_block(lines) <==> fences(lines) % 2 == 1,
    decreases lines.len(),
{
    if lines.len() > 0 {
        lemma_in_block(lines.drop_last());
        lemma_fence(lines.last());
    }
}

/// Whether the last line is prose decides whether it is read.
pub proof fn lemma_last_is_prose(lines: Seq<Seq<char>>)
    requires
        lines.len() > 0,
    ensures
        notes::prose(lines) == (if is_prose(lines, lines.len() - 1) {
            notes::prose(lines.drop_last()).push(lines.last())
        } else {
            notes::prose(lines.drop_last())
        }),
{
    let init = lines.drop_last();
    lemma_fence(lines.last());
    lemma_in_block(init);
    assert(lines.take(lines.len() - 1) =~= init);
}

proof fn lemma_prose(lines: Seq<Seq<char>>, line: Seq<char>)
    ensures
        notes::prose(lines).contains(line) <==> exists|i: int| #[trigger] is_prose(lines, i) && lines[i] == line,
    decreases lines.len(),
{
    if lines.len() > 0 {
        let n = lines.len() - 1;
        let init = lines.drop_last();
        let before = notes::prose(init);
        let all = notes::prose(lines);
        lemma_prose(init, line);
        lemma_fence(lines.last());
        lemma_in_block(init);
        assert(lines.take(n) =~= init);
        assert forall|i: int| 0 <= i < n implies is_prose(init, i) == #[trigger] is_prose(lines, i) by {
            assert(init[i] == lines[i]);
            assert(init.take(i) =~= lines.take(i));
        }
        if all.contains(line) {
            let k = all.index_of(line);
            if k < before.len() {
                assert(before[k] == line);
                assert(before.contains(line));
                let i = choose|i: int| #[trigger] is_prose(init, i) && init[i] == line;
                assert(is_prose(lines, i));
            } else {
                assert(is_prose(lines, n));
            }
        }
        if exists|i: int| #[trigger] is_prose(lines, i) && lines[i] == line {
            let i = choose|i: int| #[trigger] is_prose(lines, i) && lines[i] == line;
            if i < n {
                assert(is_prose(init, i));
                assert(init[i] == line);
                assert(before.contains(line));
                let k = before.index_of(line);
                assert(all[k] == line);
            } else {
                assert(all[before.len() as int] == line);
            }
        }
    }
}

/// The lines of a text.
pub open spec fn lines_of(s: Seq<char>) -> Seq<Seq<char>> {
    text::pieces(s, '\n')
}

/// A line of the body that stands outside of code blocks.
pub open spec fn is_prose_of(s: Seq<char>, line: Seq<char>) -> bool {
    exists|i: int| #[trigger] is_prose(lines_of(notes::body(s)), i) && lines_of(notes::body(s))[i] == line
}

/// An identifier: a letter or an underscore, then letters, digits and underscores. Beyond ASCII all
/// but white space counts as a letter.
pub open spec fn is_identifier(x: Seq<char>) -> bool {
    &&& x.len() > 0
    &&& !('0' <= x[0] <= '9')
    &&& forall|i: int|
        0 <= i < x.len() ==> {
            ||| 'a' <= #[trigger] x[i] <= 'z'
            ||| 'A' <= x[i] <= 'Z'
            ||| '0' <= x[i] <= '9'
            ||| x[i] == '_'
            ||| x[i] > '\u{7f}' && !text::is_space(x[i])
        }
}

/// The identifier stands in backticks in the line, alone or with the parentheses of a call.
pub open spec fn shows(line: Seq<char>, x: Seq<char>) -> bool {
    is_identifier(x) && (text::spans(line, "`"@, "`"@, 0).contains(x) || text::spans(
        line,
        "`"@,
        "`"@,
        0,
    ).contains(x + "()"@))
}

proof fn lemma_shows(line: Seq<char>, x: Seq<char>)
    ensures
        notes::ticked_idents()(line).contains(x) <==> shows(line, x),
{
    reveal_strlit("()");
    let ticked = notes::ticked(line);
    let f = notes::ident_in();
    gather::lemma_gather_source(ticked, f, x);
    assert(notes::is_ident(x) <==> is_identifier(x)) by {
        if notes::is_ident(x) {
            assert forall|i: int| 0 <= i < x.len() implies {
                ||| 'a' <= #[trigger] x[i] <= 'z'
                ||| 'A' <= x[i] <= 'Z'
                ||| '0' <= x[i] <= '9'
                ||| x[i] == '_'
                ||| x[i] > '\u{7f}' && !text::is_space(x[i])
            } by {
                assert(notes::is_ident_char(x[i]));
            }
        }
        if is_identifier(x) {
            assert forall|i: int| 0 <= i < x.len() implies notes::is_ident_char(#[trigger] x[i]) by {}
        }
    }
    if notes::ticked_idents()(line).contains(x) {
        let i = choose|i: int| 0 <= i < ticked.len() && f(#[trigger] ticked[i]).contains(x);
        let t = ticked[i];
        assert(f(t)[0] == x);
        assert(ticked.contains(t));
        if text::ends_in(t, "()"@) {
            assert(t =~= x + "()"@);
        }
    }
    if shows(line, x) {
        if ticked.contains(x) {
            let i = ticked.index_of(x);
            if text::ends_in(x, "()"@) {
                assert(x.skip(x.len() - 2)[0] == "()"@[0]);
                assert(x[x.len() - 2] == '(');
            }
            assert(f(ticked[i])[0] == x);
            assert(f(ticked[i]).contains(x));
        } else {
            let t = x + "()"@;
            let i = ticked.index_of(t);
            assert(t.skip(t.len() - 2) =~= "()"@);
            assert(t.take(t.len() - 2) =~= x);
            assert(f(ticked[i])[0] == x);
            assert(f(ticked[i]).contains(x));
        }
    }
}

/// The identifiers of a note are those that stand in backticks, alone or as a call, in a line of its
/// body outside of code blocks; each is listed once.
pub proof fn law_note_has_its_identifiers(path: Seq<char>, s: Seq<char>, x: Seq<char>)
    ensures
        notes::note_in(path, s).code_idents.contains(x) <==> exists|line: Seq<char>| #[trigger]
            is_prose_of(s, line) && shows(line, x),
        notes::note_in(path, s).code_idents.no_duplicates(),
{
    let lines = lines_of(notes::body(s));
    let prose = notes::prose(lines);
    let f = notes::ticked_idents();
    let all = gather::gather(prose, f);
    wording::law_distinct_keeps_each_once(all);
    gather::lemma_gather_source(prose, f, x);
    lemma_gathered(s, f, x);
    assert forall|line: Seq<char>| f(line).contains(x) <==> #[trigger] shows(line, x) by {
        lemma_shows(line, x);
    }
    if all.contains(x) {
        let line = choose|line: Seq<char>| #[trigger] is_prose_of(s, line) && f(line).contains(x);
        assert(shows(line, x));
        assert(is_prose_of(s, line));
    }
    if exists|line: Seq<char>| #[trigger] is_prose_of(s, line) && shows(line, x) {
        let line = choose|line: Seq<char>| #[trigger] is_prose_of(s, line) && shows(line, x);
        assert(is_prose_of(s, line) && f(line).contains(x));
    }
}

/// What is gathered from the prose of a note comes from a line of it.
proof fn lemma_gathered(s: Seq<char>, f: spec_fn(Seq<char>) -> Seq<Seq<char>>, x: Seq<char>)
    ensures
        gather::gather(notes::prose(lines_of(notes::body(s))), f).contains(x) <==> exists|line: Seq<char>|
            #[trigger] is_prose_of(s, line) && f(line).contains(x),
{
    let lines = lines_of(notes::body(s));
    let prose = notes::prose(lines);
    gather::lemma_gather_source(prose, f, x);
    if gather::gather(prose, f).contains(x) {
        let i = choose|i: int| 0 <= i < prose.len() && f(#[trigger] prose[i]).contains(x);
        assert(prose.contains(prose[i]));
        lemma_prose(lines, prose[i]);
        assert(is_prose_of(s, prose[i]));
    }
    if exists|line: Seq<char>| #[trigger] is_prose_of(s, line) && f(line).contains(x) {
        let line = choose|line: Seq<char>| #[trigger] is_prose_of(s, line) && f(line).contains(x);
        lemma_prose(lines, line);
        assert(prose.contains(line));
        let i = prose.index_of(line);
        assert(f(prose[i]).contains(x));
    }
}

/// The wikilink `t` leads to `x`: what stands before the heading in it, and before the text that is
/// shown for it, without white space around it.
pub open spec fn leads_to(t: Seq<char>, x: Seq<char>) -> bool {
    exists|n: int|
        {
            &&& 0 <= n <= t.len()
            &&& forall|k: int| 0 <= k < n ==> #[trigger] t[k] != '|' && t[k] != '#'
            &&& n < t.len() ==> t[n] == '|' || t[n] == '#'
            &&& x == text::trimmed(#[trigger] t.take(n))
        }
}

proof fn lemma_first_piece(s: Seq<char>, c: char, n: int)
    requires
        0 <= n <= s.len(),
        forall|k: int| 0 <= k < n ==> s[k] != c,
        n < s.len() ==> s[n] == c,
    ensures
        text::pieces(s, c)[0] == s.take(n),
        n == s.len() ==> text::pieces(s, c).len() == 1,
        n < s.len() ==> text::pieces(s, c).len() >= 2,
    decreases s.len(),
{
    let all = text::pieces(s, c);
    if s.len() == 0 {
        assert(s.take(0) =~= s);
    } else {
        let init = s.drop_last();
        let before = text::pieces(init, c);
        assert forall|k: int| 0 <= k < n && k < init.len() implies init[k] != c by {
            assert(init[k] == s[k]);
        }
        if n < s.len() - 1 {
            assert(init[n] == s[n]);
            lemma_first_piece(init, c, n);
            assert(init.take(n) =~= s.take(n));
            assert(all[0] == before[0]);
        } else {
            lemma_first_piece(init, c, init.len() as int);
            assert(init.take(init.len() as int) =~= init);
            if n == s.len() {
                assert(s.last() == s[n - 1]);
                assert(all[0] =~= s);
                assert(s.take(n) =~= s);
            } else {
                assert(s.last() == c);
                assert(all[0] == before[0]);
                assert(s.take(n) =~= init);
            }
        }
    }
}

spec fn stop(s: Seq<char>, c: char, n: int) -> bool {
    &&& 0 <= n <= s.len()
    &&& forall|k: int| 0 <= k < n ==> s[k] != c
    &&& n < s.len() ==> s[n] == c
}

proof fn lemma_stop(s: Seq<char>, c: char) -> (n: int)
    ensures
        stop(s, c, n),
    decreases s.len(),
{
    if s.len() == 0 {
        0
    } else {
        let m = lemma_stop(s.drop_last(), c);
        assert forall|k: int| 0 <= k < m implies s[k] != c by {
            assert(s[k] == s.drop_last()[k]);
        }
        if m < s.len() - 1 {
            assert(s[m] == s.drop_last()[m]);
            m
        } else if s.last() == c {
            m
        } else {
            m + 1
        }
    }
}

proof fn lemma_leads_to(t: Seq<char>, x: Seq<char>)
    ensures
        x == notes::link_target(t) <==> leads_to(t, x),
{
    let a = lemma_stop(t, '|');
    lemma_first_piece(t, '|', a);
    let u = t.take(a);
    let b = lemma_stop(u, '#');
    lemma_first_piece(u, '#', b);
    assert(u.take(b) =~= t.take(b));
    assert(notes::link_target(t) == text::trimmed(t.take(b)));
    assert forall|k: int| 0 <= k < b implies #[trigger] t[k] != '|' && t[k] != '#' by {
        assert(u[k] == t[k]);
    }
    if b < a {
        assert(u[b] == t[b]);
    }
    assert(b < t.len() ==> t[b] == '|' || t[b] == '#');
    assert(leads_to(t, text::trimmed(t.take(b))));
    if leads_to(t, x) {
        let n = choose|n: int|
            {
                &&& 0 <= n <= t.len()
                &&& forall|k: int| 0 <= k < n ==> #[trigger] t[k] != '|' && t[k] != '#'
                &&& n < t.len() ==> t[n] == '|' || t[n] == '#'
                &&& x == text::trimmed(#[trigger] t.take(n))
            };
        assert(n == b) by {
            if n < b {
                assert(t[n] != '|' && t[n] != '#');
            }
            if b < n {
                assert(t[b] != '|' && t[b] != '#');
            }
        }
    }
}

/// A wikilink in the line leads to the note.
pub open spec fn links(line: Seq<char>, x: Seq<char>) -> bool {
    exists|i: int|
        0 <= i < text::spans(line, "[["@, "]]"@, 0).len() && leads_to(
            #[trigger] text::spans(line, "[["@, "]]"@, 0)[i],
            x,
        )
}

/// The wikilinks of a note lead where those in the lines of its body outside of code blocks lead;
/// each target is listed once.
pub proof fn law_note_has_its_wikilinks(path: Seq<char>, s: Seq<char>, x: Seq<char>)
    ensures
        notes::note_in(path, s).wikilinks.contains(x) <==> exists|line: Seq<char>| #[trigger]
            is_prose_of(s, line) && links(line, x),
        notes::note_in(path, s).wikilinks.no_duplicates(),
{
    let f = notes::line_links();
    let all = gather::gather(notes::prose(lines_of(notes::body(s))), f);
    wording::law_distinct_keeps_each_once(all);
    lemma_gathered(s, f, x);
    assert forall|line: Seq<char>| f(line).contains(x) <==> #[trigger] links(line, x) by {
        let found = text::spans(line, "[["@, "]]"@, 0);
        if f(line).contains(x) {
            let i = f(line).index_of(x);
            assert(f(line)[i] == x);
            lemma_leads_to(found[i], x);
            assert(leads_to(text::spans(line, "[["@, "]]"@, 0)[i], x));
        }
        if links(line, x) {
            let i = choose|i: int| 0 <= i < found.len() && leads_to(#[trigger] found[i], x);
            lemma_leads_to(found[i], x);
            assert(f(line)[i] == x);
        }
    }
    if all.contains(x) {
        let line = choose|line: Seq<char>| #[trigger] is_prose_of(s, line) && f(line).contains(x);
        assert(links(line, x));
        assert(is_prose_of(s, line));
    }
    if exists|line: Seq<char>| #[trigger] is_prose_of(s, line) && links(line, x) {
        let line = choose|line: Seq<char>| #[trigger] is_prose_of(s, line) && links(line, x);
        assert(is_prose_of(s, line) && f(line).contains(x));
    }
}

/// `m` is the path `p` with the line `n` behind a colon.
pub open spec fn gives_line(m: Seq<char>, p: Seq<char>, n: nat) -> bool {
    exists|digits: Seq<char>|
        {
            &&& m == #[trigger] (p + seq![':'] + digits)
            &&& !digits.contains(':')
            &&& text::number_in(digits) == Some(n)
            &&& n <= u32::MAX
        }
}

proof fn lemma_last_of(s: Seq<char>, c: char)
    ensures
        -1 <= notes::last_of(s, c) < s.len(),
        notes::last_of(s, c) >= 0 ==> s[notes::last_of(s, c)] == c,
        forall|j: int| notes::last_of(s, c) < j < s.len() ==> s[j] != c,
    decreases s.len(),
{
    if s.len() > 0 && s.last() != c {
        lemma_last_of(s.drop_last(), c);
        assert forall|j: int| notes::last_of(s, c) < j < s.len() implies s[j] != c by {
            if j < s.len() - 1 {
                assert(s.drop_last()[j] == s[j]);
            }
        }
    }
}

proof fn lemma_split_line(m: Seq<char>, p: Seq<char>, n: nat)
    ensures
        gives_line(m, p, n) ==> notes::split_line(m) == (p, Some(n as u32)),
        notes::split_line(m).1 matches Some(k) ==> gives_line(m, notes::split_line(m).0, k as nat),
        notes::split_line(m).1 is None ==> notes::split_line(m).0 == m,
{
    lemma_last_of(m, ':');
    let i = notes::last_of(m, ':');
    if gives_line(m, p, n) {
        let digits = choose|digits: Seq<char>|
            {
                &&& m == #[trigger] (p + seq![':'] + digits)
                &&& !digits.contains(':')
                &&& text::number_in(digits) == Some(n)
                &&& n <= u32::MAX
            };
        assert(m[p.len() as int] == ':');
        assert forall|j: int| p.len() < j < m.len() implies m[j] != ':' by {
            assert(m[j] == digits[j - p.len() - 1]);
        }
        assert(i == p.len());
        assert(m.take(i) =~= p);
        assert(m.skip(i + 1) =~= digits);
    }
    if notes::split_line(m).1 is Some {
        let digits = m.skip(i + 1);
        assert(m =~= m.take(i) + seq![':'] + digits);
        if digits.contains(':') {
            let j = digits.index_of(':');
            assert(m[i + 1 + j] == ':');
        }
    }
}

/// `fr` is the reference that `m` is: a path, and a line where one stands behind it and a colon. It
/// is bare where it has no directory.
pub open spec fn is_ref(m: Seq<char>, fr: vault::FileRefView) -> bool {
    &&& fr.is_bare_filename == !fr.path.contains('/')
    &&& match fr.line {
        Some(n) => gives_line(m, fr.path, n as nat),
        None => fr.path == m && forall|p: Seq<char>, n: nat| !gives_line(m, p, n),
    }
}

proof fn lemma_is_ref(m: Seq<char>, fr: vault::FileRefView)
    ensures
        fr == notes::ref_in(m) <==> is_ref(m, fr),
{
    let made = notes::ref_in(m);
    lemma_split_line(m, made.path, 0);
    lemma_last_of(made.path, '/');
    assert(made.is_bare_filename == !made.path.contains('/')) by {
        if made.path.contains('/') {
            let j = made.path.index_of('/');
            assert(made.path[j] == '/');
        }
        if notes::last_of(made.path, '/') >= 0 {
            assert(made.path[notes::last_of(made.path, '/')] == '/');
        }
    }
    assert forall|p: Seq<char>, n: nat| gives_line(m, p, n) implies made.path == p && made.line == Some(
        n as u32,
    ) by {
        lemma_split_line(m, p, n);
    }
    assert(is_ref(m, made));
    if is_ref(m, fr) {
        match fr.line {
            Some(n) => {
                lemma_split_line(m, fr.path, n as nat);
            },
            None => {
                if let Some(k) = made.line {
                    assert(gives_line(m, made.path, k as nat));
                }
            },
        }
        assert(fr.path =~= made.path);
    }
}

/// Source code can stand at the path `m`: it holds no white space, and without the line behind it
/// has an extension that is supported.
pub open spec fn is_source(m: Seq<char>) -> bool {
    &&& forall|i: int| 0 <= i < m.len() ==> !text::is_space(#[trigger] m[i])
    &&& exists|fr: vault::FileRefView| #[trigger] is_ref(m, fr) && symbols::supported(fr.path)
}

proof fn lemma_is_source(m: Seq<char>)
    ensures
        notes::names_source(m) <==> is_source(m),
{
    let made = notes::ref_in(m);
    lemma_is_ref(m, made);
    assert forall|fr: vault::FileRefView| #[trigger] is_ref(m, fr) implies fr == made by {
        lemma_is_ref(m, fr);
    }
}

/// `x` is `s`, or what `s` has between two like marks of quotation.
pub open spec fn is_bare_of(s: Seq<char>, x: Seq<char>) -> bool {
    if s.len() >= 2 && (s[0] == '"' || s[0] == '\'' || s[0] == '`') && s[s.len() - 1] == s[0] {
        s == seq![s[0]] + x + seq![s[0]]
    } else {
        x == s
    }
}

pub proof fn lemma_is_bare_of(s: Seq<char>, x: Seq<char>)
    ensures
        x == notes::unquoted(s) <==> is_bare_of(s, x),
{
    if s.len() >= 2 && s[0] == s.last() && (s[0] == '"' || s[0] == '\'' || s[0] == '`') {
        let u = s.subrange(1, s.len() - 1);
        assert(s =~= seq![s[0]] + u + seq![s[0]]);
        if s == seq![s[0]] + x + seq![s[0]] {
            assert(x =~= u) by {
                assert(x.len() == u.len());
                assert forall|k: int| 0 <= k < x.len() implies x[k] == u[k] by {
                    assert((seq![s[0]] + x + seq![s[0]])[k + 1] == x[k]);
                }
            }
        }
    }
}

/// The line is a table row whose first cell is the path of a source file, bare or quoted.
pub open spec fn rows(line: Seq<char>, m: Seq<char>) -> bool {
    is_source(m) && exists|cell: Seq<char>, rest: Seq<char>|
        {
            &&& text::trimmed(line) == #[trigger] (seq!['|'] + cell + seq!['|'] + rest)
            &&& !cell.contains('|')
            &&& is_bare_of(text::trimmed(cell), m)
        }
}

proof fn lemma_second_piece(cell: Seq<char>, rest: Seq<char>)
    requires
        !cell.contains('|'),
    ensures
        text::pieces(seq!['|'] + cell + seq!['|'] + rest, '|').len() >= 3,
        text::pieces(seq!['|'] + cell + seq!['|'] + rest, '|')[1] == cell,
    decreases rest.len(),
{
    let s = seq!['|'] + cell + seq!['|'] + rest;
    if rest.len() == 0 {
        let t = seq!['|'] + cell;
        assert(s.drop_last() =~= t);
        lemma_pieces_from(cell);
        assert(s.last() == '|');
        assert(text::pieces(s, '|') =~= text::pieces(t, '|').push(seq![]));
    } else {
        let t = seq!['|'] + cell + seq!['|'] + rest.drop_last();
        assert(s.drop_last() =~= t);
        lemma_second_piece(cell, rest.drop_last());
    }
}

proof fn lemma_pieces_from(cell: Seq<char>)
    requires
        !cell.contains('|'),
    ensures
        text::pieces(seq!['|'] + cell, '|') == seq![Seq::<char>::empty(), cell],
    decreases cell.len(),
{
    let s = seq!['|'] + cell;
    if cell.len() == 0 {
        reveal_with_fuel(text::pieces, 2);
        assert(s.drop_last() =~= Seq::empty());
        assert(s.last() == '|');
        assert(cell =~= Seq::empty());
        assert(text::pieces(s.drop_last(), '|') =~= seq![Seq::<char>::empty()]);
        assert(text::pieces(s, '|') =~= text::pieces(s.drop_last(), '|').push(seq![]));
        assert(text::pieces(s, '|') =~= seq![Seq::<char>::empty(), cell]);
    } else {
        let init = cell.drop_last();
        assert(!init.contains('|')) by {
            if init.contains('|') {
                let k = init.index_of('|');
                assert(cell[k] == '|');
            }
        }
        lemma_pieces_from(init);
        assert(s.drop_last() =~= seq!['|'] + init);
        assert(s.last() == cell.last());
        assert(cell.contains(cell.last()));
        let before = seq![Seq::<char>::empty(), init];
        assert(before.last() == init);
        assert(cell =~= init.push(cell.last()));
        assert(text::pieces(s, '|') =~= seq![Seq::<char>::empty(), cell]);
    }
}

proof fn lemma_rows(line: Seq<char>, m: Seq<char>)
    ensures
        notes::row_files()(line).contains(m) <==> rows(line, m),
{
    reveal_strlit("|");
    let row = text::trimmed(line);
    let cells = text::pieces(row, '|');
    let made = notes::row_files()(line);
    if made.contains(m) {
        assert(made[0] == m);
        lemma_is_source(m);
        lemma_is_bare_of(text::trimmed(cells[1]), m);
        assert(row.take(1)[0] == "|"@[0]);
        assert(row[0] == '|');
        let tail = row.skip(1);
        let n = lemma_stop(tail, '|');
        if n == tail.len() {
            assert(!tail.contains('|'));
            lemma_pieces_from(tail);
            assert(row =~= seq!['|'] + tail);
            assert(false);
        }
        let cell = tail.take(n);
        let rest = tail.skip(n + 1);
        assert(!cell.contains('|')) by {
            if cell.contains('|') {
                let k = cell.index_of('|');
                assert(tail[k] == '|');
            }
        }
        assert(row =~= seq!['|'] + cell + seq!['|'] + rest);
        lemma_second_piece(cell, rest);
        assert(text::trimmed(line) == (seq!['|'] + cell + seq!['|'] + rest));
    }
    if rows(line, m) {
        let (cell, rest) = choose|cell: Seq<char>, rest: Seq<char>|
            {
                &&& text::trimmed(line) == #[trigger] (seq!['|'] + cell + seq!['|'] + rest)
                &&& !cell.contains('|')
                &&& is_bare_of(text::trimmed(cell), m)
            };
        lemma_second_piece(cell, rest);
        lemma_is_source(m);
        lemma_is_bare_of(text::trimmed(cell), m);
        assert(row.take(1) =~= "|"@);
        assert(made[0] == m);
    }
}

/// The path of a source file stands in backticks in the line.
pub open spec fn quotes(line: Seq<char>, m: Seq<char>) -> bool {
    is_source(m) && text::spans(line, "`"@, "`"@, 0).contains(m)
}

/// The file is mentioned: in a list of the frontmatter, or outside of code blocks in the first cell
/// of a table row or in backticks.
pub open spec fn is_mentioned(s: Seq<char>, m: Seq<char>) -> bool {
    ||| notes::items(lines_of(notes::front(s))).contains(m)
    ||| exists|line: Seq<char>| #[trigger] is_prose_of(s, line) && (rows(line, m) || quotes(line, m))
}

/// The texts are those by which a note mentions files, each once, and the references are what they are,
/// one for one.
pub open spec fn refer(s: Seq<char>, list: Seq<Seq<char>>, refs: Seq<vault::FileRefView>) -> bool {
    &&& list.no_duplicates()
    &&& forall|m: Seq<char>| #[trigger] list.contains(m) <==> is_mentioned(s, m)
    &&& refs.len() == list.len()
    &&& forall|i: int| 0 <= i < list.len() ==> is_ref(#[trigger] list[i], refs[i])
}

/// The file references of a note are those that its lists, its table rows and its backticks mention:
/// each a path, with the line that stands behind it and a colon. What is mentioned twice in the same
/// words is referred to once.
pub proof fn law_note_has_its_references(path: Seq<char>, s: Seq<char>, fr: vault::FileRefView)
    ensures
        exists|list: Seq<Seq<char>>| #[trigger] refer(s, list, notes::note_in(path, s).file_refs),
        notes::note_in(path, s).file_refs.contains(fr) <==> exists|m: Seq<char>| #[trigger]
            is_mentioned(s, m) && is_ref(m, fr),
{
    let head = lines_of(notes::front(s));
    let prose = notes::prose(lines_of(notes::body(s)));
    let first = notes::items(head);
    let second = gather::gather(prose, notes::row_files());
    let third = gather::gather(prose, notes::ticked_files());
    let all = first + second + third;
    let list = notes::mentions(head, prose);
    wording::law_distinct_keeps_each_once(all);
    assert forall|m: Seq<char>| list.contains(m) <==> #[trigger] is_mentioned(s, m) by {
        lemma_gathered(s, notes::row_files(), m);
        lemma_gathered(s, notes::ticked_files(), m);
        lemma_three(first, second, third, m);
        assert forall|line: Seq<char>|
            notes::row_files()(line).contains(m) <==> #[trigger] rows(line, m) by {
            lemma_rows(line, m);
        }
        assert forall|line: Seq<char>|
            notes::ticked_files()(line).contains(m) <==> #[trigger] quotes(line, m) by {
            gather::lemma_filter_contains(notes::ticked(line), notes::source_span(), m);
            lemma_is_source(m);
        }
        if second.contains(m) {
            let line = choose|line: Seq<char>| #[trigger]
                is_prose_of(s, line) && notes::row_files()(line).contains(m);
            assert(rows(line, m));
            assert(is_prose_of(s, line));
        }
        if third.contains(m) {
            let line = choose|line: Seq<char>| #[trigger]
                is_prose_of(s, line) && notes::ticked_files()(line).contains(m);
            assert(quotes(line, m));
            assert(is_prose_of(s, line));
        }
        if exists|line: Seq<char>| #[trigger] is_prose_of(s, line) && (rows(line, m) || quotes(line, m)) {
            let line = choose|line: Seq<char>| #[trigger]
                is_prose_of(s, line) && (rows(line, m) || quotes(line, m));
            if rows(line, m) {
                assert(is_prose_of(s, line) && notes::row_files()(line).contains(m));
            } else {
                assert(is_prose_of(s, line) && notes::ticked_files()(line).contains(m));
            }
        }
    }
    let refs = notes::refs_in(list);
    assert forall|i: int| 0 <= i < list.len() implies is_ref(#[trigger] list[i], refs[i]) by {
        lemma_is_ref(list[i], refs[i]);
    }
    assert(refer(s, list, notes::note_in(path, s).file_refs));
    if refs.contains(fr) {
        let i = refs.index_of(fr);
        assert(refs[i] == fr);
        lemma_is_ref(list[i], fr);
        assert(list.contains(list[i]));
        assert(is_mentioned(s, list[i]));
    }
    if exists|m: Seq<char>| #[trigger] is_mentioned(s, m) && is_ref(m, fr) {
        let m = choose|m: Seq<char>| #[trigger] is_mentioned(s, m) && is_ref(m, fr);
        lemma_is_ref(m, fr);
        assert(list.contains(m));
        let i = list.index_of(m);
        assert(refs[i] == fr);
    }
}

proof fn lemma_three(a: Seq<Seq<char>>, b: Seq<Seq<char>>, c: Seq<Seq<char>>, x: Seq<char>)
    ensures
        (a + b + c).contains(x) <==> a.contains(x) || b.contains(x) || c.contains(x),
{
    let all = a + b + c;
    if a.contains(x) {
        assert(all[a.index_of(x)] == x);
    }
    if b.contains(x) {
        assert(all[a.len() + b.index_of(x)] == x);
    }
    if c.contains(x) {
        assert(all[a.len() + b.len() + c.index_of(x)] == x);
    }
    if all.contains(x) {
        let k = all.index_of(x);
        if k < a.len() {
            assert(a[k] == x);
        } else if k < a.len() + b.len() {
            assert(b[k - a.len()] == x);
        } else {
            assert(c[k - a.len() - b.len()] == x);
        }
    }
}

} // verus!
