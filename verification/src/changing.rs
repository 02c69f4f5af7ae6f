//! What each change of an index does, said of the links, the definitions and the files in it.
use crate::gather;
use crate::index;
use crate::laws;
use crate::linking;
use crate::matching;
use crate::meaning;
use crate::order;
use crate::paths;
use crate::project;
use crate::ranking;
use crate::resolve;
use crate::symbols;
use crate::table;
use crate::text;
use crate::update;
use crate::vault;
use vstd::prelude::*;

verus! {

/// Unlinking notes takes away their links and no others.
pub proof fn law_unlink_takes_own_links(
    v: index::IndexView,
    notes: Set<Seq<char>>,
    s: (Seq<char>, Seq<char>),
    d: index::DocView,
    n: Seq<char>,
)
    requires
        laws::docs_backed(v),
    ensures
        laws::has_doc(update::unlinked(v, notes), s, d) <==> laws::has_doc(v, s, d) && !notes.contains(d.note_path),
        update::refs_from(update::unlinked(v, notes), n) == (if notes.contains(n) {
            Seq::empty()
        } else {
            update::refs_from(v, n)
        }),
        update::unlinked(v, notes) == (index::IndexView {
            sym_to_docs: update::unlinked(v, notes).sym_to_docs,
            doc_to_syms: update::unlinked(v, notes).doc_to_syms,
            ..v
        }),
{
    laws::lemma_unlinked_docs(v, notes, s, d);
    if laws::has_doc(v, s, d) {
        let r = index::RefView { symbol: s, confidence: d.confidence };
        assert(laws::has_ref(v, d.note_path, r));
        let i = v.doc_to_syms[d.note_path].index_of(r);
        assert(v.doc_to_syms[d.note_path][i].symbol == s);
    }
}

/// Every name is known at each place where a file defines it, and nowhere else.
pub open spec fn knows_definitions(v: index::IndexView) -> bool {
    forall|n: Seq<char>, file: Seq<char>, m: Seq<char>| #[trigger]
        is_known(v, n, (file, m)) <==> m == n && linking::defines(v, file, n)
}

/// The place is known as a definition of the name.
pub open spec fn is_known(v: index::IndexView, n: Seq<char>, place: (Seq<char>, Seq<char>)) -> bool {
    v.symbol_names.contains_key(n) && v.symbol_names[n].contains(place)
}

proof fn lemma_knows_definitions(v: index::IndexView)
    requires
        laws::names_agree(v),
    ensures
        knows_definitions(v),
{
    assert forall|n: Seq<char>, file: Seq<char>, m: Seq<char>| #[trigger] is_known(v, n, (file, m)) <==> m == n
        && linking::defines(v, file, n) by {
        assert(matching::definitions(v, n).contains((file, m)) <==> m == n && laws::exists_symbol(v, (file, m)));
        assert(laws::exists_symbol(v, (file, m)) <==> linking::defines(v, file, m)) by {
            if laws::exists_symbol(v, (file, m)) {
                let list = v.code_symbols.at(file);
                let i = choose|i: int| 0 <= i < list.len() && (#[trigger] list[i]).name == m;
                assert(v.code_symbols.entries[file][i].name == m);
            }
            if linking::defines(v, file, m) {
                let j = choose|j: int|
                    0 <= j < v.code_symbols.entries[file].len() && (
                    #[trigger] v.code_symbols.entries[file][j]).name == m;
                assert(v.code_symbols.at(file)[j].name == m);
            }
        }
    }
}

/// A sound index knows the definitions of its files.
pub proof fn law_index_knows_definitions(v: index::IndexView)
    requires
        laws::sound(v),
    ensures
        knows_definitions(v),
{
    lemma_knows_definitions(v);
}

/// Every file but one has the symbols that it had.
pub open spec fn same_code_but(v: index::IndexView, w: index::IndexView, file: Seq<char>) -> bool {
    forall|f: Seq<char>|
        f != file ==> (#[trigger] w.code_symbols.entries.contains_key(f) <==> v.code_symbols.entries.contains_key(
            f,
        )) && w.code_symbols.entries[f] == v.code_symbols.entries[f]
}

/// A source file that was read anew has the symbols that were found in it, and is there; the symbols
/// of other files, the notes and the lookup table are as they were, and each name is known where it
/// is defined now.
pub proof fn law_code_change_takes_symbols(
    v: index::IndexView,
    file: Seq<char>,
    list: Seq<symbols::SymbolView>,
    disk: Set<Seq<char>>,
)
    requires
        laws::sound(v),
    ensures
        ({
            let w = update::with_code(v, file, list, disk);
            &&& w.code_symbols.entries.contains_key(file) && w.code_symbols.entries[file] == list
            &&& same_code_but(v, w, file)
            &&& w.vault_notes == v.vault_notes
            &&& w.file_lookup == v.file_lookup
            &&& w.removed == v.removed.remove(file)
            &&& w.root == v.root && w.vault_root == v.vault_root
            &&& knows_definitions(w)
        }),
{
    laws::law_reindex_code_is_sound(v, file, list, disk);
    laws::lemma_relink_frame(v, update::with_symbols(v, file, list), file, disk);
    lemma_knows_definitions(update::with_code(v, file, list, disk));
}

/// A source file that was deleted has no symbols and is not there; the symbols of other files, the
/// notes and the lookup table are as they were, and each name is known where it is defined now.
pub proof fn law_code_removal_takes_symbols(v: index::IndexView, file: Seq<char>, disk: Set<Seq<char>>)
    requires
        laws::sound(v),
    ensures
        ({
            let w = update::without_code(v, file, disk);
            &&& !w.code_symbols.entries.contains_key(file)
            &&& same_code_but(v, w, file)
            &&& w.vault_notes == v.vault_notes
            &&& w.file_lookup == v.file_lookup
            &&& w.removed == v.removed.insert(file)
            &&& w.root == v.root && w.vault_root == v.vault_root
            &&& knows_definitions(w)
        }),
{
    let w = update::without_code(v, file, disk);
    laws::law_remove_code_is_sound(v, file, disk);
    laws::lemma_relink_frame(v, update::without_file(v, file), file, disk);
    lemma_knows_definitions(w);
    assert(w.removed =~= v.removed.insert(file));
}

/// Recording the symbols of a file takes away the links to those that it no longer defines, and no
/// others.
pub proof fn law_lost_symbols_lose_links(
    v: index::IndexView,
    file: Seq<char>,
    list: Seq<symbols::SymbolView>,
    s: (Seq<char>, Seq<char>),
    d: index::DocView,
)
    ensures
        ({
            let w = update::with_symbols(v, file, list);
            &&& laws::has_doc(w, s, d) <==> laws::has_doc(v, s, d) && !(s.0 == file && linking::defines(
                v,
                file,
                s.1,
            ) && !linking::defines(w, file, s.1))
            &&& w.doc_to_syms == v.doc_to_syms
            &&& same_code_but(v, w, file)
            &&& w.code_symbols.entries.contains_key(file) && w.code_symbols.entries[file] == list
        }),
{
    let w = update::with_symbols(v, file, list);
    assert(linking::defines(v, file, s.1) <==> update::names_of(v, file).contains(s.1)) by {
        if linking::defines(v, file, s.1) {
            let j = choose|j: int|
                0 <= j < v.code_symbols.entries[file].len() && (#[trigger] v.code_symbols.entries[file][j]).name
                    == s.1;
            assert(v.code_symbols.at(file)[j].name == s.1);
        }
        if update::names_of(v, file).contains(s.1) {
            let l = v.code_symbols.at(file);
            let j = choose|j: int| 0 <= j < l.len() && (#[trigger] l[j]).name == s.1;
            assert(v.code_symbols.entries[file][j].name == s.1);
        }
    }
    assert(linking::defines(w, file, s.1) <==> update::names_in(list).contains(s.1)) by {
        if linking::defines(w, file, s.1) {
            let j = choose|j: int|
                0 <= j < w.code_symbols.entries[file].len() && (#[trigger] w.code_symbols.entries[file][j]).name
                    == s.1;
            assert(list[j].name == s.1);
        }
        if update::names_in(list).contains(s.1) {
            let j = choose|j: int| 0 <= j < list.len() && (#[trigger] list[j]).name == s.1;
            assert(w.code_symbols.entries[file][j].name == s.1);
        }
    }
}

/// Every note but one is as it was.
pub open spec fn same_notes_but(v: index::IndexView, w: index::IndexView, n: Seq<char>) -> bool {
    forall|k: Seq<char>|
        k != n ==> (#[trigger] w.vault_notes.entries.contains_key(k) <==> v.vault_notes.entries.contains_key(k))
            && w.vault_notes.entries[k] == v.vault_notes.entries[k] && update::refs_from(w, k)
            == update::refs_from(v, k)
}

/// A note that was read anew stands at its path; other notes and their links, the source files and
/// the lookup table are as they were.
pub proof fn law_note_change_takes_note(
    v: index::IndexView,
    note: vault::NoteView,
    disk: Set<Seq<char>>,
    s: (Seq<char>, Seq<char>),
    d: index::DocView,
)
    requires
        laws::sound(v),
    ensures
        ({
            let w = update::with_note(v, note, disk);
            let n = paths::normal(note.path);
            &&& w.vault_notes.entries.contains_key(n) && w.vault_notes.entries[n] == note
            &&& same_notes_but(v, w, n)
            &&& d.note_path != n ==> (laws::has_doc(w, s, d) <==> laws::has_doc(v, s, d))
            &&& laws::has_doc(w, s, d) && d.note_path == n ==> d.note_title == note.title && d.note_type
                == note.note_type
            &&& w == (index::IndexView {
                vault_notes: w.vault_notes,
                sym_to_docs: w.sym_to_docs,
                doc_to_syms: w.doc_to_syms,
                ..v
            })
        }),
{
    let n = paths::normal(note.path);
    let w = update::with_note(v, note, disk);
    let bare = update::unlinked(v, set![n]);
    let u = index::IndexView { vault_notes: bare.vault_notes.put(n, note), ..bare };
    law_unlink_takes_own_links(v, set![n], s, d, n);
    let guess = matching::best_of(matching::scored_files(u, note.title));
    let links = matching::first_of_each(matching::due_links(u, note, disk, guess));
    laws::lemma_linked_docs(u, note, links, s, d);
    assert(laws::has_doc(u, s, d) == laws::has_doc(bare, s, d));
    linking::law_linked_note_has_its_links(u, note, disk);
    assert forall|k: Seq<char>| k != n implies (#[trigger] w.vault_notes.entries.contains_key(k)
        <==> v.vault_notes.entries.contains_key(k)) && w.vault_notes.entries[k] == v.vault_notes.entries[k]
        && update::refs_from(w, k) == update::refs_from(v, k) by {
        law_unlink_takes_own_links(v, set![n], s, d, k);
        assert(update::refs_from(w, k) == update::refs_from(u, k));
        assert(update::refs_from(u, k) == update::refs_from(bare, k));
    }
}

/// A note that was deleted is gone with its links; other notes and their links, the source files and
/// the lookup table are as they were.
pub proof fn law_note_removal_takes_note(
    v: index::IndexView,
    n: Seq<char>,
    s: (Seq<char>, Seq<char>),
    d: index::DocView,
)
    requires
        laws::sound(v),
    ensures
        ({
            let w = update::without_note_at(v, n);
            &&& !w.vault_notes.entries.contains_key(n)
            &&& update::refs_from(w, n).len() == 0
            &&& same_notes_but(v, w, n)
            &&& laws::has_doc(w, s, d) <==> laws::has_doc(v, s, d) && d.note_path != n
            &&& w == (index::IndexView {
                vault_notes: w.vault_notes,
                sym_to_docs: w.sym_to_docs,
                doc_to_syms: w.doc_to_syms,
                ..v
            })
        }),
{
    let w = update::without_note_at(v, n);
    let bare = update::unlinked(v, set![n]);
    laws::law_remove_note_is_sound(v, n);
    law_unlink_takes_own_links(v, set![n], s, d, n);
    assert(laws::has_doc(w, s, d) == laws::has_doc(bare, s, d));
    assert forall|k: Seq<char>| k != n implies (#[trigger] w.vault_notes.entries.contains_key(k)
        <==> v.vault_notes.entries.contains_key(k)) && w.vault_notes.entries[k] == v.vault_notes.entries[k]
        && update::refs_from(w, k) == update::refs_from(v, k) by {
        law_unlink_takes_own_links(v, set![n], s, d, k);
        assert(update::refs_from(w, k) == update::refs_from(bare, k));
    }
}

/// The file is listed under the name.
pub open spec fn lists(l: table::Listing<Seq<char>, Seq<Seq<char>>>, name: Seq<char>, file: Seq<char>) -> bool {
    l.entries.contains_key(name) && l.entries[name].contains(file)
}

/// The walk came upon the file.
pub open spec fn comes_upon(walked: Seq<Seq<char>>, file: Seq<char>) -> bool {
    exists|i: int| 0 <= i < walked.len() && paths::normal(#[trigger] walked[i]) == file
}

/// After a walk each file that it came upon is listed under its own name beside those that were
/// listed, and none of them counts as deleted any more; the rest of the index is as it was.
pub proof fn law_walk_lists_every_file(
    v: index::IndexView,
    walked: Seq<Seq<char>>,
    name: Seq<char>,
    file: Seq<char>,
)
    ensures
        ({
            let w = project::with_walk(v, walked);
            &&& lists(w.file_lookup, name, file) <==> lists(v.file_lookup, name, file) || comes_upon(walked, file)
                && paths::file_name_of(file) == Some(name)
            &&& w.removed.contains(file) <==> v.removed.contains(file) && !comes_upon(walked, file)
            &&& w == (index::IndexView { file_lookup: w.file_lookup, removed: w.removed, ..v })
        }),
    decreases walked.len(),
{
    if walked.len() > 0 {
        let init = walked.drop_last();
        let last = walked.last();
        law_walk_lists_every_file(v, init, name, file);
        assert(comes_upon(walked, file) <==> comes_upon(init, file) || paths::normal(last) == file) by {
            if comes_upon(walked, file) {
                let i = choose|i: int| 0 <= i < walked.len() && paths::normal(#[trigger] walked[i]) == file;
                if i < init.len() {
                    assert(init[i] == walked[i]);
                }
            }
            if comes_upon(init, file) {
                let i = choose|i: int| 0 <= i < init.len() && paths::normal(#[trigger] init[i]) == file;
                assert(walked[i] == init[i]);
            }
            assert(walked[walked.len() - 1] == last);
        }
        paths::law_normal_keeps_components(last);
        assert(paths::file_name_of(paths::normal(last)) == paths::file_name_of(last));
        let l = project::with_walk(v, init).file_lookup;
        if let Some(own) = paths::file_name_of(last) {
            let was = project::named_so_far(l, own);
            let now = was.push(paths::normal(last));
            assert(now.contains(file) <==> was.contains(file) || paths::normal(last) == file) by {
                if was.contains(file) {
                    assert(now[was.index_of(file)] == file);
                }
                assert(now[was.len() as int] == paths::normal(last));
                if now.contains(file) {
                    let k = now.index_of(file);
                    if k < was.len() {
                        assert(was[k] == file);
                    }
                }
            }
        }
    }
}

/// The note at `i` is the last one that stands at `k`.
pub open spec fn is_last_at(notes: Seq<vault::NoteView>, k: Seq<char>, i: int) -> bool {
    &&& 0 <= i < notes.len()
    &&& paths::normal(notes[i].path) == k
    &&& forall|j: int| i < j < notes.len() ==> paths::normal((#[trigger] notes[j]).path) != k
}

/// Notes are taken in by their paths: the last one at a path stands there, and notes at other paths
/// are as they were.
pub proof fn law_notes_stand_at_their_paths(
    l: table::Listing<Seq<char>, vault::NoteView>,
    notes: Seq<vault::NoteView>,
    k: Seq<char>,
    i: int,
)
    ensures
        is_last_at(notes, k, i) ==> project::with_notes(l, notes).entries.contains_key(k) && project::with_notes(
            l,
            notes,
        ).entries[k] == notes[i],
        (forall|j: int| 0 <= j < notes.len() ==> paths::normal((#[trigger] notes[j]).path) != k) ==> (
        project::with_notes(l, notes).entries.contains_key(k) <==> l.entries.contains_key(k))
            && project::with_notes(l, notes).entries[k] == l.entries[k],
    decreases notes.len(),
{
    if notes.len() > 0 {
        let init = notes.drop_last();
        let n = notes.len() - 1;
        law_notes_stand_at_their_paths(l, init, k, i);
        assert(notes[n] == notes.last());
        assert forall|j: int| 0 <= j < n implies init[j] == #[trigger] notes[j] by {}
        if is_last_at(notes, k, i) && i < n {
            assert(init[i] == notes[i]);
            assert forall|j: int| i < j < init.len() implies paths::normal((#[trigger] init[j]).path) != k by {
                assert(init[j] == notes[j]);
            }
            assert(paths::normal(notes[n].path) != k);
            assert(is_last_at(init, k, i));
        }
        if forall|j: int| 0 <= j < notes.len() ==> paths::normal((#[trigger] notes[j]).path) != k {
            assert forall|j: int| 0 <= j < init.len() implies paths::normal((#[trigger] init[j]).path) != k by {
                assert(init[j] == notes[j]);
            }
            assert(paths::normal(notes[n].path) != k);
        }
    }
}

/// The file at `i` is the last one at `f` that could be read and parsed.
pub open spec fn is_last_read(read: Seq<project::ReadView>, f: Seq<char>, i: int) -> bool {
    &&& 0 <= i < read.len()
    &&& paths::normal(read[i].path) == f
    &&& read[i].symbols is Some
    &&& forall|j: int|
        i < j < read.len() ==> paths::normal((#[trigger] read[j]).path) != f || read[j].symbols is None
}

/// After a build each source file that could be read and parsed has the symbols that were found in
/// it, and the others are as they were; so are the notes and the lookup table. As many files are
/// counted as skipped as could not be read or parsed.
pub proof fn law_build_takes_symbols(
    v: index::IndexView,
    read: Seq<project::ReadView>,
    disk: Set<Seq<char>>,
    f: Seq<char>,
    i: int,
)
    ensures
        ({
            let w = project::built(v, read, disk);
            &&& is_last_read(read, f, i) ==> w.code_symbols.entries.contains_key(f) && w.code_symbols.entries[f]
                == read[i].symbols->0
            &&& (forall|j: int|
                0 <= j < read.len() ==> paths::normal((#[trigger] read[j]).path) != f || read[j].symbols is None)
                ==> (w.code_symbols.entries.contains_key(f) <==> v.code_symbols.entries.contains_key(f))
                && w.code_symbols.entries[f] == v.code_symbols.entries[f]
            &&& w.vault_notes == v.vault_notes
            &&& w.file_lookup == v.file_lookup
        }),
        project::skipped(read) == read.filter(|r: project::ReadView| r.symbols is None).len(),
{
    matching::lemma_linked_frame(project::with_sources(v, read), v.vault_notes.order, disk);
    lemma_sources(v, read, f, i);
    lemma_skipped(read);
}

proof fn lemma_skipped(read: Seq<project::ReadView>)
    ensures
        project::skipped(read) == read.filter(|r: project::ReadView| r.symbols is None).len(),
    decreases read.len(),
{
    reveal(Seq::filter);
    let p = |r: project::ReadView| r.symbols is None;
    if read.len() > 0 {
        let n = read.len() - 1;
        lemma_skipped(read.drop_last());
        gather::lemma_filter_step(read, p, n);
        assert(read.take(n) =~= read.drop_last());
        assert(read.take(n + 1) =~= read);
    }
}

proof fn lemma_sources(v: index::IndexView, read: Seq<project::ReadView>, f: Seq<char>, i: int)
    ensures
        ({
            let w = project::with_sources(v, read);
            &&& is_last_read(read, f, i) ==> w.code_symbols.entries.contains_key(f) && w.code_symbols.entries[f]
                == read[i].symbols->0
            &&& (forall|j: int|
                0 <= j < read.len() ==> paths::normal((#[trigger] read[j]).path) != f || read[j].symbols is None)
                ==> (w.code_symbols.entries.contains_key(f) <==> v.code_symbols.entries.contains_key(f))
                && w.code_symbols.entries[f] == v.code_symbols.entries[f]
            &&& w.vault_notes == v.vault_notes
            &&& w.file_lookup == v.file_lookup
        }),
    decreases read.len(),
{
    if read.len() > 0 {
        let init = read.drop_last();
        let n = read.len() - 1;
        lemma_sources(v, init, f, i);
        assert(read[n] == read.last());
        assert forall|j: int| 0 <= j < n implies init[j] == #[trigger] read[j] by {}
        if is_last_read(read, f, i) && i < n {
            assert(init[i] == read[i]);
            assert forall|j: int| i < j < init.len() implies paths::normal((#[trigger] init[j]).path) != f
                || init[j].symbols is None by {
                assert(init[j] == read[j]);
            }
            assert(paths::normal(read[n].path) != f || read[n].symbols is None);
            assert(is_last_read(init, f, i));
        }
        if forall|j: int|
            0 <= j < read.len() ==> paths::normal((#[trigger] read[j]).path) != f || read[j].symbols is None {
            assert forall|j: int| 0 <= j < init.len() implies paths::normal((#[trigger] init[j]).path) != f
                || init[j].symbols is None by {
                assert(init[j] == read[j]);
            }
            assert(paths::normal(read[n].path) != f || read[n].symbols is None);
        }
    }
}

/// A reference of some note means the file.
pub open spec fn is_meant(v: index::IndexView, disk: Set<Seq<char>>, file: Seq<char>) -> bool {
    exists|k: Seq<char>, i: int|
        {
            &&& v.vault_notes.entries.contains_key(k)
            &&& 0 <= i < v.vault_notes.entries[k].file_refs.len()
            &&& resolve::resolved(v, #[trigger] v.vault_notes.entries[k].file_refs[i], disk).contains(file)
        }
}

proof fn lemma_documented(v: index::IndexView, disk: Set<Seq<char>>, file: Seq<char>)
    requires
        v.vault_notes.wf(),
    ensures
        project::documented(v, disk).contains(file) <==> symbols::supported(file) && is_meant(v, disk, file),
{
    let keys = v.vault_notes.order;
    let f = project::note_files(v, disk);
    let g = project::ref_files(v, disk);
    let all = project::referred_files(v, disk);
    gather::lemma_filter_contains(all, project::is_source(), file);
    gather::lemma_gather_source(keys, f, file);
    if all.contains(file) {
        let a = choose|a: int| 0 <= a < keys.len() && f(#[trigger] keys[a]).contains(file);
        let refs = v.vault_notes.at(keys[a]).file_refs;
        gather::lemma_gather_source(refs, g, file);
        let i = choose|i: int| 0 <= i < refs.len() && g(#[trigger] refs[i]).contains(file);
        assert(keys.contains(keys[a]));
        assert(v.vault_notes.entries.contains_key(keys[a]));
        assert(resolve::resolved(v, v.vault_notes.entries[keys[a]].file_refs[i], disk).contains(file));
    }
    if is_meant(v, disk, file) {
        let (k, i) = choose|k: Seq<char>, i: int|
            {
                &&& v.vault_notes.entries.contains_key(k)
                &&& 0 <= i < v.vault_notes.entries[k].file_refs.len()
                &&& resolve::resolved(v, #[trigger] v.vault_notes.entries[k].file_refs[i], disk).contains(file)
            };
        let refs = v.vault_notes.at(k).file_refs;
        gather::lemma_gather_source(refs, g, file);
        assert(g(refs[i]).contains(file));
        assert(keys.contains(k));
        let a = keys.index_of(k);
        assert(f(keys[a]).contains(file));
    }
}

/// Every source file that a reference of a note means is indexed, whatever the bound. Of the other
/// source files that are there, as many are indexed as the bound leaves room for; the rest are
/// counted as dropped. No other file is indexed.
pub proof fn law_indexed_files_are_meant_or_there(
    files: project::CodeFiles,
    v: index::IndexView,
    disk: Set<Seq<char>>,
    limit: nat,
    file: Seq<char>,
)
    requires
        v.vault_notes.wf(),
        v.file_lookup.wf(),
        files.selects(v, disk, limit),
    ensures
        ({
            let all = files.files.deep_view();
            &&& symbols::supported(file) && is_meant(v, disk, file) ==> all.contains(file)
            &&& all.contains(file) ==> symbols::supported(file) && (is_meant(v, disk, file) || meaning::is_there(
                v,
                file,
            ))
            &&& files.dropped == 0 ==> (all.contains(file) <==> symbols::supported(file) && (is_meant(
                v,
                disk,
                file,
            ) || meaning::is_there(v, file)))
            &&& files.dropped > 0 ==> all.len() == (if limit > files.referenced {
                limit
            } else {
                files.referenced as nat
            })
            &&& all.len() <= limit || all.len() == files.referenced
        }),
{
    let all = files.files.deep_view();
    let r = files.referenced as int;
    let first = all.take(r);
    let others = all.skip(r);
    lemma_documented(v, disk, file);
    let list = project::undocumented(v, disk);
    gather::lemma_filter_contains(
        resolve::listed_files(v.file_lookup),
        project::is_other_source(v, disk),
        file,
    );
    meaning::lemma_listed(v.file_lookup, file);
    assert(list.contains(file) <==> symbols::supported(file) && meaning::is_there(v, file) && !is_meant(
        v,
        disk,
        file,
    ));
    let rest = choose|rest: Seq<Seq<char>>|
        {
            &&& #[trigger] order::is_sorted(list, rest)
            &&& others == rest.take(
                if rest.len() <= project::room(limit, first.len()) {
                    rest.len() as int
                } else {
                    project::room(limit, first.len()) as int
                },
            )
            &&& files.dropped == rest.len() - others.len()
        };
    ranking::law_ordering_keeps_paths(list, rest);
    assert(list.contains(file) <==> rest.contains(file));
    assert(first.contains(file) <==> project::documented(v, disk).contains(file)) by {
        assert(first.to_set().contains(file) <==> first.contains(file));
    }
    assert(all.contains(file) <==> first.contains(file) || others.contains(file)) by {
        if all.contains(file) {
            let k = all.index_of(file);
            if k < r {
                assert(first[k] == file);
            } else {
                assert(others[k - r] == file);
            }
        }
        if first.contains(file) {
            assert(all[first.index_of(file)] == file);
        }
        if others.contains(file) {
            assert(all[r + others.index_of(file)] == file);
        }
    }
    if others.contains(file) {
        let k = others.index_of(file);
        assert(rest[k] == file);
        assert(rest.contains(file));
    }
    if files.dropped == 0 {
        assert(others =~= rest);
    }
}

/// A walk enters a directory unless its name begins with a dot or is one of those that hold no
/// sources.
pub proof fn law_walk_enters_sources(name: Seq<char>)
    ensures
        project::is_walked(name) <==> !(name.len() > 0 && name[0] == '.') && name != "target"@ && name
            != "node_modules"@ && name != "build"@ && name != "dist"@ && name != "out"@ && name
            != "__pycache__"@ && name != "vendor"@,
{
    reveal_strlit(".");
    reveal_strlit(".git");
    reveal_strlit(".doctrack");
    reveal_strlit(".idea");
    reveal_strlit(".vscode");
    reveal_strlit(".gradle");
    reveal_strlit(".next");
    if text::begins_with(name, "."@) {
        assert(name.take(1)[0] == "."@[0]);
    }
    if name.len() > 0 && name[0] == '.' {
        assert(name.take(1) =~= "."@);
    }
}

/// The root of the project is entered whatever its name, and any other directory by its name.
pub proof fn law_walk_enters_root(root: Seq<char>, dir: Seq<char>)
    ensures
        project::is_entered(root, dir) <==> paths::components(dir) == paths::components(root) || exists|
            name: Seq<char>,
        | paths::file_name_of(dir) == Some(name) && #[trigger] project::is_walked(name),
{
    paths::law_normal_identifies_paths(dir, root);
}

/// The bound costs the files that come last: no file that was dropped comes before one that was let in
/// without a note that refers to it. The files that notes refer to come first, and both come in order.
pub proof fn law_bound_costs_the_last(
    files: project::CodeFiles,
    v: index::IndexView,
    disk: Set<Seq<char>>,
    limit: nat,
    file: Seq<char>,
    i: int,
)
    requires
        v.vault_notes.wf(),
        v.file_lookup.wf(),
        files.selects(v, disk, limit),
    ensures
        ({
            let all = files.files.deep_view();
            let r = files.referenced as int;
            &&& 0 <= i < r ==> is_meant(v, disk, all[i])
            &&& r <= i < all.len() ==> !is_meant(v, disk, all[i]) && meaning::is_there(v, all[i])
            &&& forall|a: int, b: int|
                0 <= a < b < all.len() && (b < r || r <= a) ==> !order::path_before(
                    #[trigger] all[b],
                    #[trigger] all[a],
                )
            &&& symbols::supported(file) && meaning::is_there(v, file) && !all.contains(file) && r <= i < all.len()
                ==> !order::path_before(file, all[i])
        }),
{
    let all = files.files.deep_view();
    let r = files.referenced as int;
    let first = all.take(r);
    let others = all.skip(r);
    let list = project::undocumented(v, disk);
    let rest = choose|rest: Seq<Seq<char>>|
        {
            &&& #[trigger] order::is_sorted(list, rest)
            &&& others == rest.take(
                if rest.len() <= project::room(limit, first.len()) {
                    rest.len() as int
                } else {
                    project::room(limit, first.len()) as int
                },
            )
            &&& files.dropped == rest.len() - others.len()
        };
    ranking::law_ordering_keeps_paths(list, rest);
    if 0 <= i < r {
        assert(first[i] == all[i]);
        assert(first.to_set().contains(all[i]));
        lemma_documented(v, disk, all[i]);
    }
    if r <= i < all.len() {
        assert(others[i - r] == all[i]);
        assert(rest[i - r] == all[i]);
        assert(rest.contains(all[i]));
        assert(list.contains(all[i]));
        gather::lemma_filter_contains(
            resolve::listed_files(v.file_lookup),
            project::is_other_source(v, disk),
            all[i],
        );
        lemma_documented(v, disk, all[i]);
        meaning::lemma_listed(v.file_lookup, all[i]);
    }
    assert forall|a: int, b: int| 0 <= a < b < all.len() && (b < r || r <= a) implies !order::path_before(
        #[trigger] all[b],
        #[trigger] all[a],
    ) by {
        if b < r {
            assert(first[a] == all[a] && first[b] == all[b]);
        } else {
            assert(others[a - r] == all[a] && others[b - r] == all[b]);
            assert(rest[a - r] == others[a - r] && rest[b - r] == others[b - r]);
        }
    }
    if symbols::supported(file) && meaning::is_there(v, file) && !all.contains(file) && r <= i < all.len() {
        lemma_documented(v, disk, file);
        meaning::lemma_listed(v.file_lookup, file);
        gather::lemma_filter_contains(
            resolve::listed_files(v.file_lookup),
            project::is_other_source(v, disk),
            file,
        );
        assert(!project::documented(v, disk).contains(file)) by {
            if project::documented(v, disk).contains(file) {
                assert(first.to_set().contains(file));
                assert(all[first.index_of(file)] == file);
            }
        }
        assert(list.contains(file));
        assert(rest.contains(file));
        let k = rest.index_of(file);
        assert(k >= others.len()) by {
            if k < others.len() {
                assert(all[r + k] == others[k]);
                assert(others[k] == rest[k]);
            }
        }
        assert(rest[i - r] == all[i]);
        assert(!order::path_before(rest[k], rest[i - r]));
    }
}

} // verus!
