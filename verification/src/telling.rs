//! What the reports tell, said of the links, the references and the notes they are on.
use crate::gather;
use crate::index;
use crate::index::MatchConfidence;
use crate::laws;
use crate::matching;
use crate::meaning;
use crate::paths;
use crate::reports;
use crate::resolve;
use crate::spelling;
use crate::text;
use crate::update;
use crate::vault;
use crate::wording;
use vstd::prelude::*;

verus! {

/// The lines, each with a line break in front.
pub open spec fn listed(lines: Seq<Seq<char>>) -> Seq<char>
    decreases lines.len(),
{
    if lines.len() == 0 {
        Seq::empty()
    } else {
        listed(lines.drop_last()) + "\n"@ + lines.last()
    }
}

proof fn lemma_listed_is_joined(lines: Seq<Seq<char>>)
    requires
        lines.len() > 0,
    ensures
        listed(lines) == "\n"@ + reports::joined(lines),
    decreases lines.len(),
{
    if lines.len() == 1 {
        assert(lines.drop_last().len() == 0);
        assert(listed(lines.drop_last()) =~= Seq::empty());
        assert(listed(lines) =~= "\n"@ + lines[0]);
    } else {
        lemma_listed_is_joined(lines.drop_last());
        assert(listed(lines) =~= "\n"@ + reports::joined(lines));
    }
}

/// The line speaks of a note with a link to a symbol of the file, where the link is no guess.
pub open spec fn speaks_of_symbol(v: index::IndexView, file: Seq<char>, line: Seq<char>) -> bool {
    exists|j: int, d: index::DocView|
        {
            &&& v.code_symbols.entries.contains_key(file)
            &&& 0 <= j < v.code_symbols.entries[file].len()
            &&& #[trigger] laws::has_doc(v, (file, v.code_symbols.entries[file][j].name), d)
            &&& d.confidence != MatchConfidence::Fuzzy
            &&& line == "  - "@ + d.note_title + " ["@ + d.note_type + "] references `"@
                + v.code_symbols.entries[file][j].name + "`"@
        }
}

/// The path of the file ends in the path.
pub open spec fn ends_in_path(file: Seq<char>, path: Seq<char>) -> bool {
    exists|head: Seq<Seq<char>>| paths::components(file) == #[trigger] (head + paths::components(path))
}

/// The line speaks of a note with a reference whose path the path of the file ends in.
pub open spec fn speaks_of_ref(v: index::IndexView, file: Seq<char>, line: Seq<char>) -> bool {
    exists|k: Seq<char>, i: int|
        {
            &&& v.vault_notes.entries.contains_key(k)
            &&& 0 <= i < v.vault_notes.entries[k].file_refs.len()
            &&& ends_in_path(file, (#[trigger] v.vault_notes.entries[k].file_refs[i]).path)
            &&& line == "  - "@ + v.vault_notes.entries[k].title + " ["@ + v.vault_notes.entries[k].note_type
                + "] has file reference to `"@ + v.vault_notes.entries[k].file_refs[i].path + "`"@
        }
}

proof fn lemma_symbol_lines(v: index::IndexView, file: Seq<char>, line: Seq<char>)
    ensures
        reports::symbol_lines(v, file).contains(line) <==> speaks_of_symbol(v, file, line),
{
    let f = reports::lines_on_symbol(v, file);
    let list = v.code_symbols.at(file);
    gather::lemma_gather_source(list, f, line);
    if reports::symbol_lines(v, file).contains(line) {
        let j = choose|j: int| 0 <= j < list.len() && f(#[trigger] list[j]).contains(line);
        let name = list[j].name;
        let docs = matching::docs_of(v.sym_to_docs, (file, name));
        let kept = reports::traceable_docs(v, file, name);
        let i = f(list[j]).index_of(line);
        assert(f(list[j])[i] == line);
        let d = kept[i];
        assert(kept.contains(d));
        gather::lemma_filter_contains(docs, update::traceable(), d);
        assert(laws::has_doc(v, (file, v.code_symbols.entries[file][j].name), d));
    }
    if speaks_of_symbol(v, file, line) {
        let (j, d) = choose|j: int, d: index::DocView|
            {
                &&& v.code_symbols.entries.contains_key(file)
                &&& 0 <= j < v.code_symbols.entries[file].len()
                &&& #[trigger] laws::has_doc(v, (file, v.code_symbols.entries[file][j].name), d)
                &&& d.confidence != MatchConfidence::Fuzzy
                &&& line == "  - "@ + d.note_title + " ["@ + d.note_type + "] references `"@
                    + v.code_symbols.entries[file][j].name + "`"@
            };
        let name = list[j].name;
        let docs = matching::docs_of(v.sym_to_docs, (file, name));
        let kept = reports::traceable_docs(v, file, name);
        gather::lemma_filter_contains(docs, update::traceable(), d);
        assert(kept.contains(d));
        let i = kept.index_of(d);
        assert(f(list[j])[i] == line);
        assert(f(list[j]).contains(line));
    }
}

proof fn lemma_ref_lines(v: index::IndexView, file: Seq<char>, line: Seq<char>)
    requires
        v.vault_notes.wf(),
    ensures
        gather::gather(v.vault_notes.order, reports::lines_on_note(v, file)).contains(line) <==> speaks_of_ref(
            v,
            file,
            line,
        ),
{
    let keys = v.vault_notes.order;
    let f = reports::lines_on_note(v, file);
    gather::lemma_gather_source(keys, f, line);
    if gather::gather(keys, f).contains(line) {
        let a = choose|a: int| 0 <= a < keys.len() && f(#[trigger] keys[a]).contains(line);
        let k = keys[a];
        assert(keys.contains(k));
        assert(v.vault_notes.entries.contains_key(k));
        let note = v.vault_notes.at(k);
        let g = reports::lines_on_ref(note, file);
        gather::lemma_gather_source(note.file_refs, g, line);
        let i = choose|i: int| 0 <= i < note.file_refs.len() && g(#[trigger] note.file_refs[i]).contains(line);
        assert(g(note.file_refs[i])[0] == line);
        spelling::law_tail_is_an_ending(note.file_refs[i].path, file);
        assert(ends_in_path(file, v.vault_notes.entries[k].file_refs[i].path));
    }
    if speaks_of_ref(v, file, line) {
        let (k, i) = choose|k: Seq<char>, i: int|
            {
                &&& v.vault_notes.entries.contains_key(k)
                &&& 0 <= i < v.vault_notes.entries[k].file_refs.len()
                &&& ends_in_path(file, (#[trigger] v.vault_notes.entries[k].file_refs[i]).path)
                &&& line == "  - "@ + v.vault_notes.entries[k].title + " ["@
                    + v.vault_notes.entries[k].note_type + "] has file reference to `"@
                    + v.vault_notes.entries[k].file_refs[i].path + "`"@
            };
        let note = v.vault_notes.at(k);
        let g = reports::lines_on_ref(note, file);
        spelling::law_tail_is_an_ending(note.file_refs[i].path, file);
        assert(g(note.file_refs[i])[0] == line);
        assert(g(note.file_refs[i]).contains(line));
        gather::lemma_gather_source(note.file_refs, g, line);
        assert(keys.contains(k));
        let a = keys.index_of(k);
        assert(f(keys[a]).contains(line));
    }
}

/// The lines of a report on a change of the file.
pub open spec fn are_affected(v: index::IndexView, file: Seq<char>, lines: Seq<Seq<char>>) -> bool {
    &&& lines.no_duplicates()
    &&& forall|line: Seq<char>| #[trigger]
        lines.contains(line) <==> speaks_of_symbol(v, file, line) || speaks_of_ref(v, file, line)
    &&& forall|i: int, j: int|
        0 <= i < j < lines.len() && speaks_of_symbol(v, file, #[trigger] lines[j]) ==> speaks_of_symbol(
            v,
            file,
            #[trigger] lines[i],
        )
}

/// The report on a change of a file has a line for each note with a link to a symbol of the file
/// that is no guess, and then for each reference in which the path of the file ends; it has no other
/// line, none twice, and says how many they are. There is no report where there is no such line.
pub proof fn law_impact_tells_every_note(v: index::IndexView, path: Seq<char>, file: Seq<char>)
    requires
        v.vault_notes.wf(),
        meaning::stands_at(v.root, path, file),
    ensures
        ({
            let told = reports::impact_report(
                path,
                reports::impact_lines(v, paths::normal(paths::path_join(v.root, path))),
            );
            &&& told is None <==> forall|line: Seq<char>|
                !(#[trigger] speaks_of_symbol(v, file, line)) && !speaks_of_ref(v, file, line)
            &&& told matches Some(report) ==> exists|lines: Seq<Seq<char>>|
                #[trigger] are_affected(v, file, lines) && report == "Doctrack: changes to `"@ + path
                    + "` may affect "@ + text::decimal(lines.len()) + " vault note(s):"@ + listed(lines)
        }),
{
    meaning::lemma_stands_at(v.root, path, file);
    let first = reports::symbol_lines(v, file);
    let second = gather::gather(v.vault_notes.order, reports::lines_on_note(v, file));
    let all = first + second;
    let lines = reports::impact_lines(v, file);
    wording::law_distinct_keeps_each_once(all);
    assert forall|line: Seq<char>| #[trigger]
        lines.contains(line) <==> speaks_of_symbol(v, file, line) || speaks_of_ref(v, file, line) by {
        lemma_symbol_lines(v, file, line);
        lemma_ref_lines(v, file, line);
        assert(all.contains(line) <==> first.contains(line) || second.contains(line)) by {
            if first.contains(line) {
                assert(all[first.index_of(line)] == line);
            }
            if second.contains(line) {
                assert(all[first.len() + second.index_of(line)] == line);
            }
        }
    }
    if lines.len() == 0 {
        assert forall|line: Seq<char>| !(#[trigger] speaks_of_symbol(v, file, line)) && !speaks_of_ref(
            v,
            file,
            line,
        ) by {
            assert(!lines.contains(line));
        }
    } else {
        assert(lines.contains(lines[0]));
        assert(speaks_of_symbol(v, file, lines[0]) || speaks_of_ref(v, file, lines[0]));
        lemma_listed_is_joined(lines);
        reveal_strlit(" vault note(s):");
        reveal_strlit(" vault note(s):\n");
        reveal_strlit("\n");
        assert(" vault note(s):\n"@ =~= " vault note(s):"@ + "\n"@);
        let head = "Doctrack: changes to `"@ + path + "` may affect "@ + text::decimal(lines.len());
        assert(head + " vault note(s):\n"@ + reports::joined(lines) =~= head + " vault note(s):"@ + listed(lines));
        assert forall|i: int, j: int| 0 <= i < j < lines.len() && speaks_of_symbol(
            v,
            file,
            #[trigger] lines[j],
        ) implies speaks_of_symbol(v, file, #[trigger] lines[i]) by {
            lemma_symbol_lines(v, file, lines[j]);
            let n = first.len() as int;
            assert(all.take(n) =~= first);
            wording::law_distinct_keeps_each_once(first);
            let part = text::distinct(first);
            assert(text::distinct(all.take(n)).is_prefix_of(lines));
            assert(part.contains(lines[j]));
            let k = part.index_of(lines[j]);
            assert(part[k] == lines.subrange(0, part.len() as int)[k]);
            assert(lines[k] == lines[j]);
            assert(part[i] == lines.subrange(0, part.len() as int)[i]);
            assert(part.contains(lines[i]));
            lemma_symbol_lines(v, file, lines[i]);
        }
        assert(are_affected(v, file, lines));
    }
}

/// A reference of the note means no file.
pub open spec fn is_stale(
    v: index::IndexView,
    note: vault::NoteView,
    disk: Set<Seq<char>>,
    line: Seq<char>,
) -> bool {
    exists|i: int|
        {
            &&& 0 <= i < note.file_refs.len()
            &&& resolve::resolved(v, #[trigger] note.file_refs[i], disk).len() == 0
            &&& line == "  - STALE: `"@ + note.file_refs[i].path + "` not found in project"@
        }
}

/// A reference of the note means several files.
pub open spec fn is_ambiguous(
    v: index::IndexView,
    note: vault::NoteView,
    disk: Set<Seq<char>>,
    line: Seq<char>,
) -> bool {
    exists|i: int|
        {
            &&& 0 <= i < note.file_refs.len()
            &&& resolve::resolved(v, #[trigger] note.file_refs[i], disk).len() >= 2
            &&& line == "  - AMBIGUOUS: `"@ + note.file_refs[i].path + "` resolves to "@ + text::decimal(
                resolve::resolved(v, note.file_refs[i], disk).len(),
            ) + " files"@
        }
}

/// The note of that title, but for case, is in the vault.
pub open spec fn titles(v: index::IndexView, k: Seq<char>, link: Seq<char>) -> bool {
    let title = v.vault_notes.entries[k].title;
    &&& v.vault_notes.entries.contains_key(k)
    &&& title.len() == link.len()
    &&& forall|i: int| 0 <= i < link.len() ==> wording::alike(#[trigger] title[i], link[i])
}

/// The wikilink leads to a note: the disk has its file in the vault, or a note has its title.
pub open spec fn leads(v: index::IndexView, link: Seq<char>, disk: Set<Seq<char>>) -> bool {
    ||| exists|file: Seq<char>| #[trigger]
        disk.contains(file) && meaning::stands_at(v.vault_root, link + ".md"@, file)
    ||| exists|k: Seq<char>| titles(v, k, link)
}

/// A wikilink of the note leads to no note.
pub open spec fn is_broken(
    v: index::IndexView,
    note: vault::NoteView,
    disk: Set<Seq<char>>,
    line: Seq<char>,
) -> bool {
    exists|i: int|
        {
            &&& 0 <= i < note.wikilinks.len()
            &&& !leads(v, #[trigger] note.wikilinks[i], disk)
            &&& line == "  - BROKEN WIKILINK: [["@ + note.wikilinks[i] + "]]"@
        }
}

proof fn lemma_leads(v: index::IndexView, link: Seq<char>, disk: Set<Seq<char>>)
    requires
        v.vault_notes.wf(),
    ensures
        leads(v, link, disk) <==> disk.contains(reports::link_path(v, link)) || reports::has_title(v, link),
{
    let at = reports::link_path(v, link);
    meaning::lemma_stands_at(v.vault_root, link + ".md"@, at);
    assert forall|file: Seq<char>| #[trigger]
        disk.contains(file) && meaning::stands_at(v.vault_root, link + ".md"@, file) implies file == at by {
        meaning::lemma_stands_at(v.vault_root, link + ".md"@, file);
    }
    let keys = v.vault_notes.order;
    assert forall|k: Seq<char>| titles(v, k, link) implies reports::has_title(v, link) by {
        assert(keys.contains(k));
        let i = keys.index_of(k);
        wording::law_case_by_character(v.vault_notes.at(k).title, link);
        assert(text::same_but_case(v.vault_notes.at(keys[i]).title, link));
    }
    if reports::has_title(v, link) {
        let i = choose|i: int|
            0 <= i < keys.len() && text::same_but_case(v.vault_notes.at(#[trigger] keys[i]).title, link);
        assert(keys.contains(keys[i]));
        assert(v.vault_notes.entries.contains_key(keys[i]));
        wording::law_case_by_character(v.vault_notes.at(keys[i]).title, link);
        assert(titles(v, keys[i], link));
    }
}

proof fn lemma_ref_issues(
    v: index::IndexView,
    note: vault::NoteView,
    disk: Set<Seq<char>>,
    line: Seq<char>,
)
    ensures
        gather::gather(note.file_refs, reports::ref_issues(v, disk)).contains(line) <==> is_stale(
            v,
            note,
            disk,
            line,
        ) || is_ambiguous(v, note, disk, line),
{
    let f = reports::ref_issues(v, disk);
    let refs = note.file_refs;
    gather::lemma_gather_source(refs, f, line);
    if gather::gather(refs, f).contains(line) {
        let i = choose|i: int| 0 <= i < refs.len() && f(#[trigger] refs[i]).contains(line);
        assert(f(refs[i])[0] == line);
        assert(resolve::resolved(v, note.file_refs[i], disk).len() != 1);
    }
    if is_stale(v, note, disk, line) {
        let i = choose|i: int|
            {
                &&& 0 <= i < note.file_refs.len()
                &&& resolve::resolved(v, #[trigger] note.file_refs[i], disk).len() == 0
                &&& line == "  - STALE: `"@ + note.file_refs[i].path + "` not found in project"@
            };
        assert(f(refs[i])[0] == line);
        assert(f(refs[i]).contains(line));
    }
    if is_ambiguous(v, note, disk, line) {
        let i = choose|i: int|
            {
                &&& 0 <= i < note.file_refs.len()
                &&& resolve::resolved(v, #[trigger] note.file_refs[i], disk).len() >= 2
                &&& line == "  - AMBIGUOUS: `"@ + note.file_refs[i].path + "` resolves to "@ + text::decimal(
                    resolve::resolved(v, note.file_refs[i], disk).len(),
                ) + " files"@
            };
        assert(f(refs[i])[0] == line);
        assert(f(refs[i]).contains(line));
    }
}

proof fn lemma_link_issues(
    v: index::IndexView,
    note: vault::NoteView,
    disk: Set<Seq<char>>,
    line: Seq<char>,
)
    requires
        v.vault_notes.wf(),
    ensures
        gather::gather(note.wikilinks, reports::link_issues(v, disk)).contains(line) <==> is_broken(
            v,
            note,
            disk,
            line,
        ),
{
    let f = reports::link_issues(v, disk);
    let links = note.wikilinks;
    gather::lemma_gather_source(links, f, line);
    if gather::gather(links, f).contains(line) {
        let i = choose|i: int| 0 <= i < links.len() && f(#[trigger] links[i]).contains(line);
        lemma_leads(v, links[i], disk);
        assert(f(links[i])[0] == line);
        assert(!leads(v, note.wikilinks[i], disk));
    }
    if is_broken(v, note, disk, line) {
        let i = choose|i: int|
            {
                &&& 0 <= i < note.wikilinks.len()
                &&& !leads(v, #[trigger] note.wikilinks[i], disk)
                &&& line == "  - BROKEN WIKILINK: [["@ + note.wikilinks[i] + "]]"@
            };
        lemma_leads(v, links[i], disk);
        assert(f(links[i])[0] == line);
        assert(f(links[i]).contains(line));
    }
}

/// How many references of the note do not mean exactly one file, and how many of its wikilinks
/// lead to no note.
pub open spec fn faults(v: index::IndexView, note: vault::NoteView, disk: Set<Seq<char>>) -> nat {
    note.file_refs.filter(|fr: vault::FileRefView| resolve::resolved(v, fr, disk).len() != 1).len()
        + note.wikilinks.filter(|link: Seq<char>| !leads(v, link, disk)).len()
}

/// The lines of a report on the note.
pub open spec fn are_faults(
    v: index::IndexView,
    note: vault::NoteView,
    disk: Set<Seq<char>>,
    lines: Seq<Seq<char>>,
) -> bool {
    &&& lines.len() == faults(v, note, disk)
    &&& forall|line: Seq<char>| #[trigger]
        lines.contains(line) <==> is_stale(v, note, disk, line) || is_ambiguous(v, note, disk, line)
            || is_broken(v, note, disk, line)
    &&& forall|i: int|
        0 <= i < note.file_refs.filter(
            |fr: vault::FileRefView| resolve::resolved(v, fr, disk).len() != 1,
        ).len() ==> is_stale(v, note, disk, #[trigger] lines[i]) || is_ambiguous(v, note, disk, lines[i])
}

/// Nothing is wrong with the note: each reference means exactly one file, whatever its form, and
/// each wikilink leads to a note.
pub open spec fn is_faultless(v: index::IndexView, note: vault::NoteView, disk: Set<Seq<char>>) -> bool {
    &&& forall|i: int|
        0 <= i < note.file_refs.len() ==> resolve::resolved(v, #[trigger] note.file_refs[i], disk).len() == 1
    &&& forall|i: int| 0 <= i < note.wikilinks.len() ==> leads(v, #[trigger] note.wikilinks[i], disk)
}

proof fn lemma_issues(v: index::IndexView, note: vault::NoteView, disk: Set<Seq<char>>)
    requires
        v.vault_notes.wf(),
    ensures
        are_faults(v, note, disk, reports::issues(v, note, disk)),
        reports::issues(v, note, disk).len() == 0 <==> is_faultless(v, note, disk),
{
    let f = reports::ref_issues(v, disk);
    let g = reports::link_issues(v, disk);
    let first = gather::gather(note.file_refs, f);
    let second = gather::gather(note.wikilinks, g);
    let lines = reports::issues(v, note, disk);
    assert forall|line: Seq<char>| #[trigger]
        lines.contains(line) <==> is_stale(v, note, disk, line) || is_ambiguous(v, note, disk, line)
            || is_broken(v, note, disk, line) by {
        lemma_ref_issues(v, note, disk, line);
        lemma_link_issues(v, note, disk, line);
        if first.contains(line) {
            assert(lines[first.index_of(line)] == line);
        }
        if second.contains(line) {
            assert(lines[first.len() + second.index_of(line)] == line);
        }
    }
    let p = |fr: vault::FileRefView| resolve::resolved(v, fr, disk).len() != 1;
    let q = |link: Seq<char>| !leads(v, link, disk);
    assert forall|i: int| 0 <= i < note.wikilinks.len() implies g(#[trigger] note.wikilinks[i]).len() == (
    if q(note.wikilinks[i]) {
        1nat
    } else {
        0
    }) by {
        lemma_leads(v, note.wikilinks[i], disk);
    }
    gather::lemma_gather_count(note.file_refs, f, p);
    gather::lemma_gather_count(note.wikilinks, g, q);
    assert forall|i: int| 0 <= i < note.file_refs.filter(p).len() implies is_stale(
        v,
        note,
        disk,
        #[trigger] lines[i],
    ) || is_ambiguous(v, note, disk, lines[i]) by {
        assert(lines[i] == first[i]);
        assert(first.contains(first[i]));
        lemma_ref_issues(v, note, disk, first[i]);
    }
    if lines.len() == 0 {
        assert forall|i: int| 0 <= i < note.file_refs.len() implies resolve::resolved(
            v,
            #[trigger] note.file_refs[i],
            disk,
        ).len() == 1 by {
            let fr = note.file_refs[i];
            let stale = "  - STALE: `"@ + fr.path + "` not found in project"@;
            let many = "  - AMBIGUOUS: `"@ + fr.path + "` resolves to "@ + text::decimal(
                resolve::resolved(v, fr, disk).len(),
            ) + " files"@;
            assert(!lines.contains(stale));
            assert(!lines.contains(many));
        }
        assert forall|i: int| 0 <= i < note.wikilinks.len() implies leads(
            v,
            #[trigger] note.wikilinks[i],
            disk,
        ) by {
            assert(!lines.contains("  - BROKEN WIKILINK: [["@ + note.wikilinks[i] + "]]"@));
        }
    } else {
        assert(lines.contains(lines[0]));
    }
}

/// A note is clean exactly when each of its references means exactly one file and each of its
/// wikilinks leads to a note. Otherwise the report has a line for each fault and no other: for each
/// reference that means no file or several, and then for each wikilink that leads to no note.
/// A note that the index does not know is not found.
pub proof fn law_check_tells_every_fault(
    v: index::IndexView,
    path: Seq<char>,
    disk: Set<Seq<char>>,
    key: Seq<char>,
)
    requires
        v.vault_notes.wf(),
        meaning::stands_at(v.vault_root, path, key),
    ensures
        reports::validation(v, path, disk) is NotFound <==> !v.vault_notes.entries.contains_key(key),
        v.vault_notes.entries.contains_key(key) ==> (reports::validation(v, path, disk) is Clean
            <==> is_faultless(v, v.vault_notes.entries[key], disk)),
        reports::validation(v, path, disk) matches reports::ValidationView::Issues(report) ==> exists|
            lines: Seq<Seq<char>>,
        |
            #[trigger] are_faults(v, v.vault_notes.entries[key], disk, lines) && report == "Doctrack: "@ + path
                + " has "@ + text::decimal(lines.len()) + " issue(s):"@ + listed(lines),
{
    meaning::lemma_stands_at(v.vault_root, path, key);
    let note = v.vault_notes.entries[key];
    let lines = reports::issues(v, note, disk);
    lemma_issues(v, note, disk);
    if lines.len() > 0 {
        lemma_listed_is_joined(lines);
        reveal_strlit(" issue(s):");
        reveal_strlit(" issue(s):\n");
        reveal_strlit("\n");
        assert(" issue(s):\n"@ =~= " issue(s):"@ + "\n"@);
        let head = "Doctrack: "@ + path + " has "@ + text::decimal(lines.len());
        assert(head + " issue(s):\n"@ + reports::joined(lines) =~= head + " issue(s):"@ + listed(lines));
    }
}

/// The note has a link that is no guess.
pub open spec fn is_linked(v: index::IndexView, n: Seq<char>) -> bool {
    v.doc_to_syms.contains_key(n) && exists|i: int|
        0 <= i < v.doc_to_syms[n].len() && (#[trigger] v.doc_to_syms[n][i]).confidence
            != MatchConfidence::Fuzzy
}

/// The link at `at.1` of the symbol `at.0` is no guess.
pub open spec fn is_counted(v: index::IndexView, at: ((Seq<char>, Seq<char>), int)) -> bool {
    &&& v.sym_to_docs.contains_key(at.0)
    &&& 0 <= at.1 < v.sym_to_docs[at.0].len()
    &&& v.sym_to_docs[at.0][at.1].confidence != MatchConfidence::Fuzzy
}

spec fn counted_of(docs: Seq<index::DocView>) -> Set<int> {
    Set::new(|i: int| 0 <= i < docs.len() && docs[i].confidence != MatchConfidence::Fuzzy)
}

spec fn counted_in(v: index::IndexView, keys: Seq<(Seq<char>, Seq<char>)>) -> Set<
    ((Seq<char>, Seq<char>), int),
> {
    Set::new(|at: ((Seq<char>, Seq<char>), int)| keys.contains(at.0) && is_counted(v, at))
}

proof fn lemma_counted_of(docs: Seq<index::DocView>)
    ensures
        counted_of(docs).finite(),
        counted_of(docs).len() == docs.filter(update::traceable()).len(),
    decreases docs.len(),
{
    reveal(Seq::filter);
    if docs.len() == 0 {
        assert(counted_of(docs) =~= Set::empty());
    } else {
        let n = docs.len() - 1;
        let init = docs.drop_last();
        lemma_counted_of(init);
        gather::lemma_filter_step(docs, update::traceable(), n);
        assert(docs.take(n) =~= init);
        assert(docs.take(n + 1) =~= docs);
        if docs[n].confidence != MatchConfidence::Fuzzy {
            assert(counted_of(docs) =~= counted_of(init).insert(n));
        } else {
            assert(counted_of(docs) =~= counted_of(init));
        }
    }
}

proof fn lemma_counted_in(v: index::IndexView, keys: Seq<(Seq<char>, Seq<char>)>)
    requires
        keys.no_duplicates(),
        forall|i: int| 0 <= i < keys.len() ==> v.sym_to_docs.contains_key(#[trigger] keys[i]),
    ensures
        counted_in(v, keys).finite(),
        counted_in(v, keys).len() == reports::traceable_links(v.sym_to_docs, keys),
    decreases keys.len(),
{
    if keys.len() == 0 {
        assert(counted_in(v, keys) =~= Set::empty());
    } else {
        let init = keys.drop_last();
        let k = keys.last();
        let docs = v.sym_to_docs[k];
        assert forall|i: int| 0 <= i < init.len() implies v.sym_to_docs.contains_key(#[trigger] init[i]) by {
            assert(init[i] == keys[i]);
        }
        lemma_counted_in(v, init);
        lemma_counted_of(docs);
        let pair = |i: int| (k, i);
        let own = counted_of(docs).map(pair);
        vstd::set_lib::lemma_map_size(counted_of(docs), own, pair);
        let before = counted_in(v, init);
        assert(!init.contains(k)) by {
            if init.contains(k) {
                let i = init.index_of(k);
                assert(keys[i] == keys[keys.len() - 1]);
            }
        }
        assert(counted_in(v, keys) =~= before.union(own)) by {
            assert forall|at: ((Seq<char>, Seq<char>), int)| counted_in(v, keys).contains(at)
                <==> before.union(own).contains(at) by {
                assert(keys.contains(at.0) <==> init.contains(at.0) || at.0 == k) by {
                    if keys.contains(at.0) {
                        let i = keys.index_of(at.0);
                        if i < init.len() {
                            assert(init[i] == at.0);
                        }
                    }
                    if init.contains(at.0) {
                        assert(keys[init.index_of(at.0)] == at.0);
                    }
                    assert(keys[keys.len() - 1] == k);
                }
                assert(v.sym_to_docs.contains_key(keys[keys.len() - 1]));
                if at.0 == k && is_counted(v, at) {
                    assert(counted_of(docs).contains(at.1));
                    assert(pair(at.1) == at);
                    assert(own.contains(at));
                }
                if own.contains(at) {
                    let i = choose|i: int| counted_of(docs).contains(i) && pair(i) == at;
                    assert(at == (k, i));
                }
            }
        }
        assert(before.disjoint(own)) by {
            assert forall|at: ((Seq<char>, Seq<char>), int)| !(before.contains(at) && own.contains(at)) by {
                if own.contains(at) {
                    let i = choose|i: int| counted_of(docs).contains(i) && pair(i) == at;
                    assert(at.0 == k);
                }
            }
        }
        vstd::set_lib::lemma_set_disjoint_lens(before, own);
    }
}

/// The coverage of an index counts its notes, its source files, the notes that have a link that is
/// no guess, and the links that are no guesses, each once.
pub proof fn law_coverage_counts_no_guesses(v: index::IndexView, c: reports::Coverage)
    requires
        v.vault_notes.wf(),
        v.code_symbols.wf(),
        c.measures(v),
    ensures
        v.vault_notes.entries.dom().finite(),
        c.notes == v.vault_notes.entries.dom().len(),
        v.code_symbols.entries.dom().finite(),
        c.code_files == v.code_symbols.entries.dom().len(),
        c.linked == Set::new(|n: Seq<char>| is_linked(v, n)).len(),
        Set::new(|at: ((Seq<char>, Seq<char>), int)| is_counted(v, at)).finite(),
        c.links < usize::MAX ==> c.links == Set::new(
            |at: ((Seq<char>, Seq<char>), int)| is_counted(v, at),
        ).len(),
{
    let keys = choose|keys: Seq<(Seq<char>, Seq<char>)>|
        #[trigger] reports::lists_symbols(v, keys) && c.links == (if reports::traceable_links(
            v.sym_to_docs,
            keys,
        ) <= usize::MAX {
            reports::traceable_links(v.sym_to_docs, keys)
        } else {
            usize::MAX as nat
        });
    assert forall|i: int| 0 <= i < keys.len() implies v.sym_to_docs.contains_key(#[trigger] keys[i]) by {
        assert(keys.to_set().contains(keys[i]));
    }
    lemma_counted_in(v, keys);
    let all = Set::new(|at: ((Seq<char>, Seq<char>), int)| is_counted(v, at));
    assert(counted_in(v, keys) =~= all) by {
        assert forall|at: ((Seq<char>, Seq<char>), int)| all.contains(at) implies counted_in(v, keys).contains(
            at,
        ) by {
            assert(v.sym_to_docs.dom().contains(at.0));
            assert(keys.to_set().contains(at.0));
        }
    }
    let notes = v.vault_notes.order;
    notes.unique_seq_to_set();
    assert(notes.to_set() =~= v.vault_notes.entries.dom());
    let files = v.code_symbols.order;
    files.unique_seq_to_set();
    assert(files.to_set() =~= v.code_symbols.entries.dom());
    assert(Set::new(|n: Seq<char>| is_linked(v, n)) =~= reports::documenting(v)) by {
        assert forall|n: Seq<char>| is_linked(v, n) <==> reports::documenting(v).contains(n) by {}
    }
}

} // verus!
