//! Reading a note of the vault: its frontmatter, and in its prose the source files, identifiers and
//! other notes that it mentions. What stands in fenced code blocks is no mention.
use crate::gather;
use crate::paths;
use crate::symbols;
use crate::text;
use crate::vault;
use crate::vault::{FileRef, VaultNote};
use vstd::prelude::*;
use vstd::string::*;

verus! {

/// Where the frontmatter ends: a note that begins with a fence has it up to the next one.
pub open spec fn front_end(s: Seq<char>) -> Option<int> {
    if text::begins_with(s, "---"@) {
        text::next_at(s, "\n---"@, 3)
    } else {
        None
    }
}

/// The frontmatter of a note.
pub open spec fn front(s: Seq<char>) -> Seq<char> {
    match front_end(s) {
        Some(i) => s.subrange(3, i),
        None => Seq::empty(),
    }
}

/// What stands behind the frontmatter.
pub open spec fn body(s: Seq<char>) -> Seq<char> {
    match front_end(s) {
        Some(i) => s.skip(i + 4),
        None => s,
    }
}

/// `s` without the quotation marks around it.
pub open spec fn unquoted(s: Seq<char>) -> Seq<char> {
    if s.len() >= 2 && s[0] == s.last() && (s[0] == '"' || s[0] == '\'' || s[0] == '`') {
        s.subrange(1, s.len() - 1)
    } else {
        s
    }
}

/// A comment begins at `i`: a `#` at the beginning, or behind white space.
pub open spec fn is_comment(s: Seq<char>, i: int) -> bool {
    0 <= i < s.len() && s[i] == '#' && (i == 0 || text::is_space(s[i - 1]))
}

/// The first position from `i` on where a comment begins, or the length of `s` when there is none.
pub open spec fn comment_at(s: Seq<char>, i: int) -> int
    decreases s.len() - i,
{
    if i >= s.len() {
        s.len() as int
    } else if is_comment(s, i) {
        i
    } else {
        comment_at(s, i + 1)
    }
}

/// `s` without a comment, and without white space around it.
pub open spec fn uncommented(s: Seq<char>) -> Seq<char> {
    text::trimmed(s.take(comment_at(s, 0)))
}

/// The first position of `c` in `s` from `i` on, or the length of `s` when there is none.
pub open spec fn first_of(s: Seq<char>, c: char, i: int) -> int
    decreases s.len() - i,
{
    if i >= s.len() {
        s.len() as int
    } else if s[i] == c {
        i
    } else {
        first_of(s, c, i + 1)
    }
}

/// A mark that a text in the frontmatter can be quoted with.
pub open spec fn is_quote(c: char) -> bool {
    c == '"' || c == '\''
}

/// What a text in the frontmatter says: what is quoted, or all of it but a comment.
pub open spec fn value(s: Seq<char>) -> Seq<char> {
    let t = text::trimmed(s);
    if t.len() > 0 && is_quote(t[0]) && first_of(t, t[0], 1) < t.len() {
        t.subrange(1, first_of(t, t[0], 1))
    } else {
        unquoted(uncommented(t))
    }
}

/// What follows `key` in the first line that begins with it.
pub open spec fn field(lines: Seq<Seq<char>>, key: Seq<char>) -> Option<Seq<char>>
    decreases lines.len(),
{
    if lines.len() == 0 {
        None
    } else {
        match field(lines.drop_last(), key) {
            Some(found) => Some(found),
            None => if text::begins_with(lines.last(), key) {
                Some(lines.last().skip(key.len() as int))
            } else {
                None
            },
        }
    }
}

/// What a frontmatter says under `key`.
pub open spec fn setting(lines: Seq<Seq<char>>, key: Seq<char>) -> Option<Seq<char>> {
    match field(lines, key) {
        Some(s) => Some(value(s)),
        None => None,
    }
}

/// What stands behind the key, where the line names a list of files.
pub open spec fn list_rest(line: Seq<char>) -> Option<Seq<char>> {
    let t = text::trimmed(line);
    if text::begins_with(t, "files:"@) {
        Some(text::trimmed(t.skip(6)))
    } else if text::begins_with(t, "file-registry:"@) {
        Some(text::trimmed(t.skip(14)))
    } else {
        None
    }
}

/// The line is an item of a list.
pub open spec fn is_item(line: Seq<char>) -> bool {
    text::begins_with(text::trimmed(line), "- "@)
}

/// The text of an item.
pub open spec fn item_text(line: Seq<char>) -> Seq<char> {
    value(text::trimmed(line).skip(2))
}

/// Where the piece of a list in brackets ends that begins at `from`, where it was read up to `i`: at a
/// comma, at the closing bracket, at a comment or at the end of the line, but not inside quotes.
pub open spec fn piece_end(s: Seq<char>, from: int, i: int, quote: Option<char>) -> int
    decreases s.len() - i,
{
    if i >= s.len() {
        s.len() as int
    } else {
        match quote {
            Some(q) => piece_end(
                s,
                from,
                i + 1,
                if s[i] == q {
                    None
                } else {
                    quote
                },
            ),
            None => if s[i] == ',' || s[i] == ']' || is_comment(s, i) {
                i
            } else {
                piece_end(
                    s,
                    from,
                    i + 1,
                    if is_quote(s[i]) && text::is_blank(s.subrange(from, i)) {
                        Some(s[i])
                    } else {
                        None
                    },
                )
            },
        }
    }
}

/// The piece that `s` is, unless it is empty.
pub open spec fn one_piece(s: Seq<char>) -> Seq<Seq<char>> {
    if value(s).len() == 0 {
        seq![]
    } else {
        seq![value(s)]
    }
}

/// The pieces that a line holds of a list in brackets, from `from` on.
pub open spec fn flow_pieces(s: Seq<char>, from: int) -> Seq<Seq<char>>
    decreases s.len() - from,
{
    let end = piece_end(s, from, from, None);
    if from <= end < s.len() && s[end] == ',' {
        one_piece(s.subrange(from, end)) + flow_pieces(s, end + 1)
    } else {
        one_piece(s.subrange(from, end))
    }
}

/// The list in brackets ends in the line.
pub open spec fn flow_closes(s: Seq<char>, from: int) -> bool
    decreases s.len() - from,
{
    let end = piece_end(s, from, from, None);
    if from <= end < s.len() && s[end] == ',' {
        flow_closes(s, end + 1)
    } else {
        from <= end < s.len() && s[end] == ']'
    }
}

/// Whether a list of files is open, and how it is written.
#[derive(Clone, Copy, PartialEq, Eq, Structural)]
pub enum Opened {
    /// No list is open.
    No,
    /// A list with an item on each line.
    Block,
    /// A list in brackets.
    Flow,
}

/// A list in brackets goes on behind the line `s`, or ends in it.
pub open spec fn after_flow(s: Seq<char>) -> Opened {
    if flow_closes(s, 0) {
        Opened::No
    } else {
        Opened::Flow
    }
}

/// The list that is open behind `lines`. Blank lines and comments do not end one.
pub open spec fn opened(lines: Seq<Seq<char>>) -> Opened
    decreases lines.len(),
{
    if lines.len() == 0 {
        Opened::No
    } else {
        let before = opened(lines.drop_last());
        let line = lines.last();
        if before == Opened::Flow {
            after_flow(line)
        } else {
            match list_rest(line) {
                Some(rest) => if rest.len() > 0 && rest[0] == '[' {
                    after_flow(rest.skip(1))
                } else if uncommented(rest).len() == 0 {
                    Opened::Block
                } else {
                    Opened::No
                },
                None => if before == Opened::Block && (is_item(line) || uncommented(line).len() == 0) {
                    Opened::Block
                } else {
                    Opened::No
                },
            }
        }
    }
}

/// The files that the line adds where the list `before` is open.
pub open spec fn line_items(before: Opened, line: Seq<char>) -> Seq<Seq<char>> {
    if before == Opened::Flow {
        flow_pieces(line, 0)
    } else {
        match list_rest(line) {
            Some(rest) => if rest.len() > 0 && rest[0] == '[' {
                flow_pieces(rest.skip(1), 0)
            } else {
                seq![]
            },
            None => if before == Opened::Block && is_item(line) {
                seq![item_text(line)]
            } else {
                seq![]
            },
        }
    }
}

/// The files that the lists of a frontmatter name.
pub open spec fn items(lines: Seq<Seq<char>>) -> Seq<Seq<char>>
    decreases lines.len(),
{
    if lines.len() == 0 {
        Seq::empty()
    } else {
        items(lines.drop_last()) + line_items(opened(lines.drop_last()), lines.last())
    }
}

/// The line opens or closes a code block.
pub open spec fn is_fence(line: Seq<char>) -> bool {
    text::begins_with(text::trimmed(line), "```"@)
}

/// A code block is open behind `lines`.
pub open spec fn in_block(lines: Seq<Seq<char>>) -> bool
    decreases lines.len(),
{
    if lines.len() == 0 {
        false
    } else if is_fence(lines.last()) {
        !in_block(lines.drop_last())
    } else {
        in_block(lines.drop_last())
    }
}

/// The lines outside of code blocks.
pub open spec fn prose(lines: Seq<Seq<char>>) -> Seq<Seq<char>>
    decreases lines.len(),
{
    if lines.len() == 0 {
        Seq::empty()
    } else if is_fence(lines.last()) || in_block(lines.drop_last()) {
        prose(lines.drop_last())
    } else {
        prose(lines.drop_last()).push(lines.last())
    }
}

/// Source code may stand at the path `s`: it has no white space in it, and an extension that symbols
/// can be extracted from.
pub open spec fn names_source(s: Seq<char>) -> bool {
    &&& forall|i: int| 0 <= i < s.len() ==> !text::is_space(#[trigger] s[i])
    &&& symbols::supported(split_line(s).0)
}

/// The last position of `c`, or a negative number where it does not occur.
pub open spec fn last_of(s: Seq<char>, c: char) -> int
    decreases s.len(),
{
    if s.len() == 0 {
        -1
    } else if s.last() == c {
        s.len() - 1
    } else {
        last_of(s.drop_last(), c)
    }
}

/// A path, and the line that stands behind it and a colon.
pub open spec fn split_line(s: Seq<char>) -> (Seq<char>, Option<u32>) {
    let i = last_of(s, ':');
    if i < 0 {
        (s, None)
    } else {
        match text::number_in(s.skip(i + 1)) {
            Some(n) => if n <= u32::MAX {
                (s.take(i), Some(n as u32))
            } else {
                (s, None)
            },
            None => (s, None),
        }
    }
}

/// The reference to a source file that `s` is.
pub open spec fn ref_in(s: Seq<char>) -> vault::FileRefView {
    let (path, line) = split_line(s);
    vault::FileRefView { path, is_bare_filename: last_of(path, '/') < 0, line }
}

/// The source file that the first cell of a table row names.
pub open spec fn row_files() -> spec_fn(Seq<char>) -> Seq<Seq<char>> {
    |line: Seq<char>|
        {
            let row = text::trimmed(line);
            let cells = text::pieces(row, '|');
            if text::begins_with(row, "|"@) && cells.len() >= 3 && names_source(
                unquoted(text::trimmed(cells[1])),
            ) {
                seq![unquoted(text::trimmed(cells[1]))]
            } else {
                seq![]
            }
        }
}

/// What stands in backticks in a line.
pub open spec fn ticked(line: Seq<char>) -> Seq<Seq<char>> {
    text::spans(line, "`"@, "`"@, 0)
}

/// A source file.
pub open spec fn source_span() -> spec_fn(Seq<char>) -> bool {
    |s: Seq<char>| names_source(s)
}

/// The source files that stand in backticks in a line.
pub open spec fn ticked_files() -> spec_fn(Seq<char>) -> Seq<Seq<char>> {
    |line: Seq<char>| ticked(line).filter(source_span())
}

/// A character of an identifier: a letter, a digit or an underscore. Beyond ASCII all but white space
/// counts as a letter; what is no name in any language links to nothing.
pub open spec fn is_ident_char(c: char) -> bool {
    ||| 'a' <= c <= 'z'
    ||| 'A' <= c <= 'Z'
    ||| '0' <= c <= '9'
    ||| c == '_'
    ||| c > '\u{7f}' && !text::is_space(c)
}

/// An identifier.
pub open spec fn is_ident(s: Seq<char>) -> bool {
    &&& s.len() > 0
    &&& !('0' <= s[0] <= '9')
    &&& forall|i: int| 0 <= i < s.len() ==> is_ident_char(#[trigger] s[i])
}

/// `s` without the parentheses of a call.
pub open spec fn callee(s: Seq<char>) -> Seq<char> {
    if text::ends_in(s, "()"@) {
        s.take(s.len() - 2)
    } else {
        s
    }
}

/// The identifier that a stretch in backticks is.
pub open spec fn ident_in() -> spec_fn(Seq<char>) -> Seq<Seq<char>> {
    |s: Seq<char>|
        if is_ident(callee(s)) {
            seq![callee(s)]
        } else {
            seq![]
        }
}

/// The identifiers that stand in backticks in a line.
pub open spec fn ticked_idents() -> spec_fn(Seq<char>) -> Seq<Seq<char>> {
    |line: Seq<char>| gather::gather(ticked(line), ident_in())
}

/// The note that a wikilink leads to, without the heading in it and the text shown for it.
pub open spec fn link_target(s: Seq<char>) -> Seq<char> {
    text::trimmed(text::pieces(text::pieces(s, '|')[0], '#')[0])
}

/// The notes that the wikilinks in a line lead to.
pub open spec fn line_links() -> spec_fn(Seq<char>) -> Seq<Seq<char>> {
    |line: Seq<char>|
        Seq::new(
            text::spans(line, "[["@, "]]"@, 0).len(),
            |i: int| link_target(text::spans(line, "[["@, "]]"@, 0)[i]),
        )
}

/// The first heading.
pub open spec fn heading(lines: Seq<Seq<char>>) -> Option<Seq<char>> {
    match field(lines, "# "@) {
        Some(s) => Some(unquoted(text::trimmed(s))),
        None => None,
    }
}

/// The title of a note: its first heading, or what its frontmatter says, or the name of its file.
pub open spec fn title_of(path: Seq<char>, head: Seq<Seq<char>>, lines: Seq<Seq<char>>) -> Seq<char> {
    match heading(lines) {
        Some(t) => t,
        None => match setting(head, "title:"@) {
            Some(t) => t,
            None => match paths::stem_of(path) {
                Some(t) => t,
                None => Seq::empty(),
            },
        },
    }
}

/// What a field says, or `otherwise`.
pub open spec fn field_or(lines: Seq<Seq<char>>, key: Seq<char>, otherwise: Seq<char>) -> Seq<char> {
    match setting(lines, key) {
        Some(t) => t,
        None => otherwise,
    }
}

/// The source files that a note mentions: in its frontmatter, in tables, and in backticks.
pub open spec fn mentions(head: Seq<Seq<char>>, lines: Seq<Seq<char>>) -> Seq<Seq<char>> {
    text::distinct(
        items(head) + gather::gather(lines, row_files()) + gather::gather(lines, ticked_files()),
    )
}

/// The references to source files.
pub open spec fn refs_in(list: Seq<Seq<char>>) -> Seq<vault::FileRefView> {
    Seq::new(list.len(), |i: int| ref_in(list[i]))
}

/// The note that the text of a file is.
pub open spec fn note_in(path: Seq<char>, s: Seq<char>) -> vault::NoteView {
    let head = text::pieces(front(s), '\n');
    let lines = prose(text::pieces(body(s), '\n'));
    vault::NoteView {
        path,
        title: title_of(path, head, lines),
        note_type: field_or(head, "type:"@, "note"@),
        summary: field_or(head, "summary:"@, ""@),
        file_refs: refs_in(mentions(head, lines)),
        code_idents: text::distinct(gather::gather(lines, ticked_idents())),
        wikilinks: text::distinct(gather::gather(lines, line_links())),
    }
}

fn read_unquoted(s: &str) -> (r: String)
    ensures
        r@ == unquoted(s@),
{
    let c = text::chars_of(s);
    let n: usize = c.len();
    if n >= 2 && c[0] == c[n - 1] && (c[0] == '"' || c[0] == '\'' || c[0] == '`') {
        s.substring_char(1, n - 1).to_string()
    } else {
        s.to_string()
    }
}

fn read_field(lines: &Vec<String>, key: &str) -> (r: Option<String>)
    ensures
        r.deep_view() == field(lines.deep_view(), key@),
{
    let ghost all = lines.deep_view();
    let n: usize = lines.len();
    let skip: usize = text::chars_of(key).len();
    assert(all.take(0) =~= Seq::empty());
    for i in 0..n
        invariant
            n == lines@.len(),
            all == lines.deep_view(),
            skip == key@.len(),
            field(all.take(i as int), key@) is None,
    {
        let line = lines[i].as_str();
        proof {
            assert(all[i as int] == line@);
            assert(all.take(i + 1).drop_last() =~= all.take(i as int));
            assert(all.take(i + 1).last() == all[i as int]);
        }
        if text::starts_with_text(line, key) {
            let end: usize = text::chars_of(line).len();
            let found = line.substring_char(skip, end).to_string();
            assert(found@ =~= line@.skip(skip as int));
            proof {
                lemma_field_stays(all, key@, i + 1);
            }
            return Some(found);
        }
    }
    assert(all.take(n as int) =~= all);
    None
}

/// What the first of the lines says stays said.
proof fn lemma_field_stays(lines: Seq<Seq<char>>, key: Seq<char>, i: int)
    requires
        0 <= i <= lines.len(),
        field(lines.take(i), key) is Some,
    ensures
        field(lines, key) == field(lines.take(i), key),
    decreases lines.len() - i,
{
    if i < lines.len() {
        assert(lines.take(i + 1).drop_last() =~= lines.take(i));
        lemma_field_stays(lines, key, i + 1);
    } else {
        assert(lines.take(i) =~= lines);
    }
}

/// Whether a comment begins at `i`.
fn comment_here(c: &Vec<char>, i: usize) -> (r: bool)
    requires
        i < c@.len(),
    ensures
        r == is_comment(c@, i as int),
{
    c[i] == '#' && (i == 0 || text::space(c[i - 1]))
}

fn read_uncommented(s: &str) -> (r: String)
    ensures
        r@ == uncommented(s@),
{
    let c = text::chars_of(s);
    let n: usize = c.len();
    let mut i: usize = 0;
    while i < n && !comment_here(&c, i)
        invariant
            n == c@.len(),
            c@ == s@,
            i <= n,
            comment_at(s@, 0) == comment_at(s@, i as int),
        decreases n - i,
    {
        i = i + 1;
    }
    assert(comment_at(s@, 0) == i);
    let kept = s.substring_char(0, i);
    assert(kept@ =~= s@.take(i as int));
    text::trim(kept)
}

fn read_value(s: &str) -> (r: String)
    ensures
        r@ == value(s@),
{
    let bare = text::trim(s);
    let c = text::chars_of(bare.as_str());
    let n: usize = c.len();
    if n > 0 && (c[0] == '"' || c[0] == '\'') {
        let mark = c[0];
        let mut i: usize = 1;
        while i < n && c[i] != mark
            invariant
                n == c@.len(),
                c@ == bare@,
                1 <= i <= n,
                first_of(bare@, mark, 1) == first_of(bare@, mark, i as int),
            decreases n - i,
        {
            i = i + 1;
        }
        assert(first_of(bare@, mark, 1) == i);
        if i < n {
            return bare.as_str().substring_char(1, i).to_string();
        }
    }
    read_unquoted(read_uncommented(bare.as_str()).as_str())
}

fn read_setting(lines: &Vec<String>, key: &str) -> (r: Option<String>)
    ensures
        r.deep_view() == setting(lines.deep_view(), key@),
{
    let said = read_field(lines, key);
    assert(said.deep_view() == field(lines.deep_view(), key@));
    match said {
        Some(s) => Some(read_value(s.as_str())),
        None => None,
    }
}

/// What stands behind the key, where the line names a list of files.
fn read_list_rest(line: &str) -> (r: Option<String>)
    ensures
        r.deep_view() == list_rest(line@),
{
    let bare = text::trim(line);
    let end: usize = text::chars_of(bare.as_str()).len();
    proof {
        reveal_strlit("files:");
        reveal_strlit("file-registry:");
        assert("files:"@.len() == 6);
        assert("file-registry:"@.len() == 14);
    }
    if text::starts_with_text(bare.as_str(), "files:") {
        let rest = bare.as_str().substring_char(6, end);
        assert(rest@ =~= bare@.skip(6));
        Some(text::trim(rest))
    } else if text::starts_with_text(bare.as_str(), "file-registry:") {
        let rest = bare.as_str().substring_char(14, end);
        assert(rest@ =~= bare@.skip(14));
        Some(text::trim(rest))
    } else {
        None
    }
}

/// Where the piece of a list in brackets ends that begins at `from`.
fn find_piece_end(s: &str, c: &Vec<char>, from: usize) -> (r: usize)
    requires
        c@ == s@,
        from <= c@.len(),
    ensures
        r == piece_end(s@, from as int, from as int, None),
        from <= r <= c@.len(),
{
    let n: usize = c.len();
    let mut quote: Option<char> = None;
    let mut i: usize = from;
    while i < n
        invariant
            c@ == s@,
            n == c@.len(),
            from <= i <= n,
            piece_end(s@, from as int, from as int, None) == piece_end(s@, from as int, i as int, quote),
        decreases n - i,
    {
        match quote {
            Some(q) => {
                if c[i] == q {
                    quote = None;
                }
            },
            None => {
                if c[i] == ',' || c[i] == ']' || comment_here(c, i) {
                    return i;
                }
                if (c[i] == '"' || c[i] == '\'') && text::blank(s.substring_char(from, i)) {
                    quote = Some(c[i]);
                }
            },
        }
        i = i + 1;
    }
    n
}

/// The pieces that a line holds of a list in brackets, and whether the list ends in the line.
fn read_flow(s: &str) -> (r: (Vec<String>, bool))
    ensures
        r.0.deep_view() == flow_pieces(s@, 0),
        r.1 == flow_closes(s@, 0),
{
    let c = text::chars_of(s);
    let n: usize = c.len();
    let mut out: Vec<String> = Vec::new();
    let mut from: usize = 0;
    assert(out.deep_view() + flow_pieces(s@, 0) =~= flow_pieces(s@, 0));
    loop
        invariant
            c@ == s@,
            n == c@.len(),
            from <= n,
            out.deep_view() + flow_pieces(s@, from as int) == flow_pieces(s@, 0),
            flow_closes(s@, from as int) == flow_closes(s@, 0),
        decreases n - from,
    {
        let ghost before = out.deep_view();
        let end: usize = find_piece_end(s, &c, from);
        let piece = s.substring_char(from, end);
        let said = read_value(piece);
        if text::chars_of(said.as_str()).len() > 0 {
            out.push(said);
        }
        assert(out.deep_view() =~= before + one_piece(s@.subrange(from as int, end as int)));
        if end < n && c[end] == ',' {
            assert(out.deep_view() + flow_pieces(s@, end + 1) =~= before + flow_pieces(s@, from as int));
            from = end + 1;
        } else {
            return (out, end < n && c[end] == ']');
        }
    }
}

/// The list that is open behind a line, and the files that the line adds.
fn read_line_items(before: Opened, line: &str) -> (r: (Opened, Vec<String>))
    ensures
        r.1.deep_view() == line_items(before, line@),
        forall|lines: Seq<Seq<char>>|
            lines.len() > 0 && (#[trigger] opened(lines.drop_last())) == before && lines.last() == line@
                ==> opened(lines) == r.0,
{
    if before == Opened::Flow {
        let (found, closed) = read_flow(line);
        return (
            if closed {
                Opened::No
            } else {
                Opened::Flow
            },
            found,
        );
    }
    let named = read_list_rest(line);
    assert(named.deep_view() == list_rest(line@));
    let mut out: Vec<String> = Vec::new();
    match named {
        Some(rest) => {
            let c = text::chars_of(rest.as_str());
            if c.len() > 0 && c[0] == '[' {
                let inner = rest.as_str().substring_char(1, c.len());
                assert(inner@ =~= rest@.skip(1));
                let (found, closed) = read_flow(inner);
                return (
                    if closed {
                        Opened::No
                    } else {
                        Opened::Flow
                    },
                    found,
                );
            }
            assert(out.deep_view() =~= seq![]);
            let bare: bool = text::chars_of(read_uncommented(rest.as_str()).as_str()).len() == 0;
            (
                if bare {
                    Opened::Block
                } else {
                    Opened::No
                },
                out,
            )
        },
        None => {
            let bare = text::trim(line);
            let item: bool = text::starts_with_text(bare.as_str(), "- ");
            if before == Opened::Block && item {
                let end: usize = text::chars_of(bare.as_str()).len();
                proof {
                    reveal_strlit("- ");
                    assert("- "@.len() == 2);
                    assert(bare@.len() >= 2);
                }
                let rest = bare.as_str().substring_char(2, end);
                assert(rest@ =~= bare@.skip(2));
                out.push(read_value(rest));
                assert(out.deep_view() =~= seq![item_text(line@)]);
                return (Opened::Block, out);
            }
            assert(out.deep_view() =~= seq![]);
            let empty: bool = text::chars_of(read_uncommented(line).as_str()).len() == 0;
            (
                if before == Opened::Block && empty {
                    Opened::Block
                } else {
                    Opened::No
                },
                out,
            )
        },
    }
}

fn read_items(lines: &Vec<String>) -> (r: Vec<String>)
    ensures
        r.deep_view() == items(lines.deep_view()),
{
    let ghost all = lines.deep_view();
    let n: usize = lines.len();
    let mut out: Vec<String> = Vec::new();
    let mut open = Opened::No;
    assert(out.deep_view() =~= items(all.take(0)));
    for i in 0..n
        invariant
            n == lines@.len(),
            all == lines.deep_view(),
            open == opened(all.take(i as int)),
            out.deep_view() == items(all.take(i as int)),
    {
        let ghost before = out.deep_view();
        proof {
            assert(all[i as int] == lines@[i as int]@);
            assert(all.take(i + 1).drop_last() =~= all.take(i as int));
            assert(all.take(i + 1).last() == all[i as int]);
        }
        let (next, mut more) = read_line_items(open, lines[i].as_str());
        let ghost added = more.deep_view();
        proof {
            assert(opened(all.take(i + 1).drop_last()) == open);
        }
        out.append(&mut more);
        assert(out.deep_view() =~= before + added);
        open = next;
    }
    assert(all.take(n as int) =~= all);
    out
}

fn read_prose(lines: &Vec<String>) -> (r: Vec<String>)
    ensures
        r.deep_view() == prose(lines.deep_view()),
{
    let ghost all = lines.deep_view();
    let n: usize = lines.len();
    let mut out: Vec<String> = Vec::new();
    let mut inside: bool = false;
    assert(out.deep_view() =~= prose(all.take(0)));
    for i in 0..n
        invariant
            n == lines@.len(),
            all == lines.deep_view(),
            inside == in_block(all.take(i as int)),
            out.deep_view() == prose(all.take(i as int)),
    {
        let ghost before = out.deep_view();
        proof {
            assert(all[i as int] == lines@[i as int]@);
            assert(all.take(i + 1).drop_last() =~= all.take(i as int));
            assert(all.take(i + 1).last() == all[i as int]);
        }
        if text::starts_with_text(text::trim(lines[i].as_str()).as_str(), "```") {
            inside = !inside;
        } else if !inside {
            out.push(lines[i].clone());
            assert(out.deep_view() =~= before.push(all[i as int]));
        }
    }
    assert(all.take(n as int) =~= all);
    out
}

fn find_last(c: &Vec<char>, wanted: char) -> (r: Option<usize>)
    ensures
        match r {
            Some(i) => last_of(c@, wanted) == i && i < c@.len(),
            None => last_of(c@, wanted) < 0,
        },
{
    let mut n: usize = c.len();
    assert(c@.take(n as int) =~= c@);
    while n > 0
        invariant
            n <= c@.len(),
            last_of(c@, wanted) == last_of(c@.take(n as int), wanted),
        decreases n,
    {
        n = n - 1;
        assert(c@.take(n + 1).last() == c@[n as int]);
        assert(c@.take(n + 1).drop_last() =~= c@.take(n as int));
        if c[n] == wanted {
            return Some(n);
        }
    }
    None
}

fn read_split_line(s: &str) -> (r: (String, Option<u32>))
    ensures
        (r.0@, r.1) == split_line(s@),
{
    let c = text::chars_of(s);
    let n: usize = c.len();
    match find_last(&c, ':') {
        Some(i) => {
            let tail = s.substring_char(i + 1, n);
            assert(tail@ =~= s@.skip(i + 1));
            match text::parse_number(tail) {
                Some(found) => if found <= 0xffff_ffff {
                    let head = s.substring_char(0, i);
                    assert(head@ =~= s@.take(i as int));
                    (head.to_string(), Some(found as u32))
                } else {
                    (s.to_string(), None)
                },
                None => (s.to_string(), None),
            }
        },
        None => (s.to_string(), None),
    }
}

fn read_ref(s: &str) -> (r: FileRef)
    ensures
        r.deep_view() == ref_in(s@),
{
    let (path, line) = read_split_line(s);
    let bare: bool = find_last(&text::chars_of(path.as_str()), '/').is_none();
    FileRef { path, is_bare_filename: bare, line }
}

fn is_source(s: &str) -> (r: bool)
    ensures
        r == names_source(s@),
{
    let c = text::chars_of(s);
    let n: usize = c.len();
    for i in 0..n
        invariant
            n == c@.len(),
            c@ == s@,
            forall|k: int| 0 <= k < i ==> !text::is_space(#[trigger] c@[k]),
    {
        if text::space(c[i]) {
            assert(text::is_space(s@[i as int]));
            return false;
        }
    }
    let (path, _) = read_split_line(s);
    symbols::is_supported(path.as_str())
}

fn read_row(line: &str) -> (r: Option<String>)
    ensures
        row_files()(line@) == (match r {
            Some(file) => seq![file@],
            None => seq![],
        }),
{
    let row = text::trim(line);
    let cells = text::split(row.as_str(), '|');
    if text::starts_with_text(row.as_str(), "|") && cells.len() >= 3 {
        assert(cells.deep_view()[1] == cells@[1]@);
        let first = read_unquoted(text::trim(cells[1].as_str()).as_str());
        if is_source(first.as_str()) {
            return Some(first);
        }
    }
    assert(row_files()(line@) =~= seq![]);
    None
}

/// What stands in backticks in a line.
fn read_ticked(line: &str) -> (r: Vec<String>)
    ensures
        r.deep_view() == ticked(line@),
{
    proof {
        reveal_strlit("`");
    }
    text::between(line, "`", "`")
}

fn read_row_files(lines: &Vec<String>) -> (r: Vec<String>)
    ensures
        r.deep_view() == gather::gather(lines.deep_view(), row_files()),
{
    let ghost all = lines.deep_view();
    let ghost f = row_files();
    let mut out: Vec<String> = Vec::new();
    let n: usize = lines.len();
    assert(out.deep_view() =~= gather::gather(all.take(0), f));
    for i in 0..n
        invariant
            n == lines@.len(),
            all == lines.deep_view(),
            f == row_files(),
            out.deep_view() == gather::gather(all.take(i as int), f),
    {
        let ghost before = out.deep_view();
        proof {
            assert(all[i as int] == lines@[i as int]@);
            gather::lemma_gather_step(all, f, i as int);
        }
        if let Some(file) = read_row(lines[i].as_str()) {
            out.push(file);
        }
        assert(out.deep_view() =~= before + f(all[i as int]));
    }
    assert(all.take(n as int) =~= all);
    out
}

fn read_files_in(line: &str) -> (r: Vec<String>)
    ensures
        r.deep_view() == ticked_files()(line@),
{
    let list = read_ticked(line);
    let ghost all = list.deep_view();
    let mut out: Vec<String> = Vec::new();
    let n: usize = list.len();
    assert(out.deep_view() =~= all.take(0).filter(source_span())) by {
        reveal(Seq::filter);
    }
    for i in 0..n
        invariant
            n == list@.len(),
            all == list.deep_view(),
            out.deep_view() == all.take(i as int).filter(source_span()),
    {
        let ghost before = out.deep_view();
        proof {
            assert(all[i as int] == list@[i as int]@);
            gather::lemma_filter_step(all, source_span(), i as int);
        }
        if is_source(list[i].as_str()) {
            out.push(list[i].clone());
            assert(out.deep_view() =~= before.push(all[i as int]));
        }
    }
    assert(all.take(n as int) =~= all);
    out
}

fn read_ident(s: &str) -> (r: Option<String>)
    ensures
        ident_in()(s@) == (match r {
            Some(ident) => seq![ident@],
            None => seq![],
        }),
{
    let end: usize = text::chars_of(s).len();
    let called: bool = text::ends_with_text(s, "()");
    proof {
        reveal_strlit("()");
        assert("()"@.len() == 2);
    }
    let name = if called {
        s.substring_char(0, end - 2).to_string()
    } else {
        s.to_string()
    };
    assert(name@ =~= callee(s@));
    let c = text::chars_of(name.as_str());
    let n: usize = c.len();
    if n == 0 || ('0' <= c[0] && c[0] <= '9') {
        assert(ident_in()(s@) =~= seq![]);
        return None;
    }
    for i in 0..n
        invariant
            n == c@.len(),
            c@ == name@,
            name@ == callee(s@),
            forall|k: int| 0 <= k < i ==> is_ident_char(#[trigger] c@[k]),
    {
        let x = c[i];
        let fine: bool = ('a' <= x && x <= 'z') || ('A' <= x && x <= 'Z') || ('0' <= x && x <= '9') || x
            == '_' || (x > '\u{7f}' && !text::space(x));
        if !fine {
            assert(!is_ident_char(callee(s@)[i as int]));
            assert(ident_in()(s@) =~= seq![]);
            return None;
        }
    }
    Some(name)
}

fn read_idents_in(line: &str) -> (r: Vec<String>)
    ensures
        r.deep_view() == ticked_idents()(line@),
{
    let list = read_ticked(line);
    let ghost all = list.deep_view();
    let ghost f = ident_in();
    let mut out: Vec<String> = Vec::new();
    let n: usize = list.len();
    assert(out.deep_view() =~= gather::gather(all.take(0), f));
    for i in 0..n
        invariant
            n == list@.len(),
            all == list.deep_view(),
            f == ident_in(),
            out.deep_view() == gather::gather(all.take(i as int), f),
    {
        let ghost before = out.deep_view();
        proof {
            assert(all[i as int] == list@[i as int]@);
            gather::lemma_gather_step(all, f, i as int);
        }
        if let Some(ident) = read_ident(list[i].as_str()) {
            out.push(ident);
        }
        assert(out.deep_view() =~= before + f(all[i as int]));
    }
    assert(all.take(n as int) =~= all);
    out
}

/// A text has at least one piece.
proof fn lemma_some_piece(s: Seq<char>, c: char)
    ensures
        text::pieces(s, c).len() > 0,
    decreases s.len(),
{
    if s.len() > 0 {
        lemma_some_piece(s.drop_last(), c);
    }
}

fn read_target(s: &str) -> (r: String)
    ensures
        r@ == link_target(s@),
{
    let shown = text::split(s, '|');
    proof {
        lemma_some_piece(s@, '|');
        assert(shown.deep_view()[0] == shown@[0]@);
    }
    let parts = text::split(shown[0].as_str(), '#');
    proof {
        lemma_some_piece(shown@[0]@, '#');
        assert(parts.deep_view()[0] == parts@[0]@);
    }
    text::trim(parts[0].as_str())
}

fn read_links_in(line: &str) -> (r: Vec<String>)
    ensures
        r.deep_view() == line_links()(line@),
{
    proof {
        reveal_strlit("[[");
        reveal_strlit("]]");
    }
    let list = text::between(line, "[[", "]]");
    let ghost all = list.deep_view();
    let mut out: Vec<String> = Vec::new();
    let n: usize = list.len();
    for i in 0..n
        invariant
            n == list@.len(),
            all == list.deep_view(),
            out@.len() == i,
            forall|k: int| 0 <= k < i ==> (#[trigger] out@[k])@ == link_target(all[k]),
    {
        assert(all[i as int] == list@[i as int]@);
        out.push(read_target(list[i].as_str()));
    }
    assert(out.deep_view() =~= line_links()(line@));
    out
}

/// What the lines of a note mention in backticks and in wikilinks.
struct Mentions {
    files: Vec<String>,
    idents: Vec<String>,
    links: Vec<String>,
}

fn read_mentions(lines: &Vec<String>) -> (r: Mentions)
    ensures
        r.files.deep_view() == gather::gather(lines.deep_view(), ticked_files()),
        r.idents.deep_view() == gather::gather(lines.deep_view(), ticked_idents()),
        r.links.deep_view() == gather::gather(lines.deep_view(), line_links()),
{
    let ghost all = lines.deep_view();
    let mut files: Vec<String> = Vec::new();
    let mut idents: Vec<String> = Vec::new();
    let mut links: Vec<String> = Vec::new();
    let n: usize = lines.len();
    assert(files.deep_view() =~= gather::gather(all.take(0), ticked_files()));
    assert(idents.deep_view() =~= gather::gather(all.take(0), ticked_idents()));
    assert(links.deep_view() =~= gather::gather(all.take(0), line_links()));
    for i in 0..n
        invariant
            n == lines@.len(),
            all == lines.deep_view(),
            files.deep_view() == gather::gather(all.take(i as int), ticked_files()),
            idents.deep_view() == gather::gather(all.take(i as int), ticked_idents()),
            links.deep_view() == gather::gather(all.take(i as int), line_links()),
    {
        let ghost f = files.deep_view();
        let ghost d = idents.deep_view();
        let ghost l = links.deep_view();
        let line = lines[i].as_str();
        proof {
            assert(all[i as int] == line@);
            gather::lemma_gather_step(all, ticked_files(), i as int);
            gather::lemma_gather_step(all, ticked_idents(), i as int);
            gather::lemma_gather_step(all, line_links(), i as int);
        }
        let mut more_files = read_files_in(line);
        let mut more_idents = read_idents_in(line);
        let mut more_links = read_links_in(line);
        files.append(&mut more_files);
        idents.append(&mut more_idents);
        links.append(&mut more_links);
        assert(files.deep_view() =~= f + ticked_files()(line@));
        assert(idents.deep_view() =~= d + ticked_idents()(line@));
        assert(links.deep_view() =~= l + line_links()(line@));
    }
    assert(all.take(n as int) =~= all);
    Mentions { files, idents, links }
}

fn read_refs(list: &Vec<String>) -> (r: Vec<FileRef>)
    ensures
        r.deep_view() == refs_in(list.deep_view()),
{
    let ghost all = list.deep_view();
    let mut out: Vec<FileRef> = Vec::new();
    let n: usize = list.len();
    for i in 0..n
        invariant
            n == list@.len(),
            all == list.deep_view(),
            out@.len() == i,
            forall|k: int| 0 <= k < i ==> (#[trigger] out@[k]).deep_view() == ref_in(all[k]),
    {
        assert(all[i as int] == list@[i as int]@);
        out.push(read_ref(list[i].as_str()));
    }
    assert(out.deep_view() =~= refs_in(all));
    out
}

fn read_title(path: &str, head: &Vec<String>, lines: &Vec<String>) -> (r: String)
    ensures
        r@ == title_of(path@, head.deep_view(), lines.deep_view()),
{
    let first = read_field(lines, "# ");
    assert(first.deep_view() == field(lines.deep_view(), "# "@));
    if let Some(found) = first {
        return read_unquoted(text::trim(found.as_str()).as_str());
    }
    let said = read_setting(head, "title:");
    assert(said.deep_view() == setting(head.deep_view(), "title:"@));
    if let Some(found) = said {
        return found;
    }
    let stem = paths::file_stem(path);
    assert(stem.deep_view() == paths::stem_of(path@));
    match stem {
        Some(found) => found,
        None => {
            let none = String::new();
            assert(none@ =~= Seq::empty());
            none
        },
    }
}

fn read_field_or(lines: &Vec<String>, key: &str, otherwise: &str) -> (r: String)
    ensures
        r@ == field_or(lines.deep_view(), key@, otherwise@),
{
    let said = read_setting(lines, key);
    assert(said.deep_view() == setting(lines.deep_view(), key@));
    match said {
        Some(found) => found,
        None => otherwise.to_string(),
    }
}

/// Read the note that stands at `path` and says `source`.
pub fn parse_note(path: &str, source: &str) -> (r: VaultNote)
    ensures
        r.deep_view() == note_in(path@, source@),
{
    let (front_text, body_text) = split_frontmatter(source);
    let head = text::split(front_text.as_str(), '\n');
    let lines = read_prose(&text::split(body_text.as_str(), '\n'));
    let mut files = read_items(&head);
    let ghost first = files.deep_view();
    let mut rows = read_row_files(&lines);
    let ghost second = rows.deep_view();
    let Mentions { files: ticked_list, idents, links } = read_mentions(&lines);
    let mut spans = ticked_list;
    let ghost third = spans.deep_view();
    files.append(&mut rows);
    assert(files.deep_view() =~= first + second);
    files.append(&mut spans);
    assert(files.deep_view() =~= first + second + third);
    VaultNote {
        path: path.to_string(),
        title: read_title(path, &head, &lines),
        note_type: read_field_or(&head, "type:", "note"),
        summary: read_field_or(&head, "summary:", ""),
        file_refs: read_refs(&text::without_repeats(&files)),
        code_idents: text::without_repeats(&idents),
        wikilinks: text::without_repeats(&links),
    }
}

/// The frontmatter of a note, and what stands behind it.
pub fn split_frontmatter(source: &str) -> (r: (String, String))
    ensures
        r.0@ == front(source@),
        r.1@ == body(source@),
{
    let c = text::chars_of(source);
    let n: usize = c.len();
    proof {
        reveal_strlit("---");
        reveal_strlit("\n---");
        assert("---"@.len() == 3);
        assert("\n---"@.len() == 4);
    }
    if text::starts_with_text(source, "---") {
        if let Some(i) = text::find_next(&c, &text::chars_of("\n---"), 3) {
            assert(i + 4 <= n);
            let head = source.substring_char(3, i).to_string();
            let tail = source.substring_char(i + 4, n).to_string();
            assert(tail@ =~= source@.skip(i + 4));
            return (head, tail);
        }
    }
    let none = String::new();
    assert(none@ =~= Seq::empty());
    (none, source.to_string())
}

} // verus!
