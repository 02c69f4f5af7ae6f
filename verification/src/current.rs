//! Links that are up to date: every note has the links that it is due, and keeps them as notes and
//! source files change.
use crate::gather;
use crate::index;
use crate::laws;
use crate::matching;
use crate::notes;
use crate::paths;
use crate::project;
use crate::resolve;
use crate::symbols;
use crate::update;
use crate::vault;
use crate::watch;
use vstd::prelude::*;

verus! {

/// The links that the note at `k` is due.
pub open spec fn due_at(v: index::IndexView, k: Seq<char>, disk: Set<Seq<char>>) -> Seq<matching::LinkView> {
    let note = v.vault_notes.at(k);
    matching::first_of_each(
        matching::due_links(v, note, disk, matching::best_of(matching::scored_files(v, note.title))),
    )
}

/// The note at `k` has the links that it is due, and no others.
pub open spec fn is_current(v: index::IndexView, k: Seq<char>, disk: Set<Seq<char>>) -> bool {
    update::refs_from(v, k) == matching::refs_of(due_at(v, k, disk))
}

/// A note that has just been linked has the links that it is due.
proof fn lemma_linked_is_current(v: index::IndexView, k: Seq<char>, disk: Set<Seq<char>>)
    requires
        v.vault_notes.has(k),
        laws::notes_keyed(v),
        !v.doc_to_syms.contains_key(k),
    ensures
        is_current(matching::linked(v, v.vault_notes.at(k), disk), k, disk),
{
    let note = v.vault_notes.at(k);
    let w = matching::linked(v, note, disk);
    matching::lemma_same_due(v, w, note, disk);
    let links = due_at(v, k, disk);
    assert(due_at(w, k, disk) == links);
    assert(paths::normal(note.path) == k);
    if links.len() == 0 {
        assert(matching::refs_of(links) =~= Seq::empty());
    }
}

/// Notes that have just been linked, one after the other, have the links that they are due.
proof fn lemma_linked_each_current(
    v: index::IndexView,
    keys: Seq<Seq<char>>,
    disk: Set<Seq<char>>,
    k: Seq<char>,
)
    requires
        laws::notes_keyed(v),
        keys.no_duplicates(),
        forall|i: int|
            0 <= i < keys.len() ==> v.vault_notes.has(#[trigger] keys[i]) && !v.doc_to_syms.contains_key(
                keys[i],
            ),
    ensures
        keys.contains(k) ==> is_current(matching::linked_each(v, keys, disk), k, disk),
        !keys.contains(k) ==> update::refs_from(matching::linked_each(v, keys, disk), k)
            == update::refs_from(v, k),
        !keys.contains(k) ==> matching::linked_each(v, keys, disk).doc_to_syms.contains_key(k)
            == v.doc_to_syms.contains_key(k),
    decreases keys.len(),
{
    if keys.len() > 0 {
        let head = keys.drop_last();
        let last = keys.last();
        let u = matching::linked_each(v, head, disk);
        let w = matching::linked_each(v, keys, disk);
        assert forall|i: int| 0 <= i < head.len() implies v.vault_notes.has(#[trigger] head[i])
            && !v.doc_to_syms.contains_key(head[i]) by {
            assert(head[i] == keys[i]);
        }
        lemma_linked_each_current(v, head, disk, k);
        lemma_linked_each_current(v, head, disk, last);
        matching::lemma_linked_frame(v, head, disk);
        assert(keys[keys.len() - 1] == last);
        assert(v.vault_notes.has(last));
        assert(paths::normal(v.vault_notes.at(last).path) == last);
        assert(!head.contains(last)) by {
            if head.contains(last) {
                assert(keys[head.index_of(last)] == keys[keys.len() - 1]);
            }
        }
        assert(keys.contains(k) <==> head.contains(k) || k == last) by {
            if head.contains(k) {
                assert(keys[head.index_of(k)] == k);
            }
            if keys.contains(k) {
                let i = keys.index_of(k);
                if i < head.len() {
                    assert(head[i] == k);
                }
            }
        }
        if k == last {
            lemma_linked_is_current(u, last, disk);
        } else {
            let note = v.vault_notes.at(k);
            matching::lemma_same_due(u, w, note, disk);
            assert(update::refs_from(w, k) == update::refs_from(u, k));
            if head.contains(k) {
                assert(due_at(w, k, disk) == due_at(u, k, disk));
            }
        }
    }
}

/// A note that is read anew has the links that it is due.
pub proof fn law_reindexed_note_is_current(v: index::IndexView, note: vault::NoteView, disk: Set<Seq<char>>)
    requires
        laws::sound(v),
    ensures
        is_current(update::with_note(v, note, disk), paths::normal(note.path), disk),
{
    let key = paths::normal(note.path);
    let bare = update::unlinked(v, set![key]);
    let w = index::IndexView { vault_notes: bare.vault_notes.put(key, note), ..bare };
    assert(set![key].contains(key));
    assert forall|k: Seq<char>| #[trigger] w.vault_notes.has(k) implies paths::normal(w.vault_notes.at(k).path)
        == k by {
        if k != key {
            assert(v.vault_notes.has(k));
        }
    }
    lemma_linked_is_current(w, key, disk);
}

/// After a full build, every note has the links that it is due.
pub proof fn law_built_is_current(
    v: index::IndexView,
    read: Seq<project::ReadView>,
    disk: Set<Seq<char>>,
    k: Seq<char>,
)
    requires
        laws::sound(v),
        v.doc_to_syms.dom() == Set::<Seq<char>>::empty(),
        v.vault_notes.has(k),
    ensures
        is_current(project::built(v, read, disk), k, disk),
{
    let w = project::with_sources(v, read);
    let keys = v.vault_notes.order;
    laws::lemma_sources_sound(v, read);
    assert forall|i: int| 0 <= i < keys.len() implies w.vault_notes.has(#[trigger] keys[i])
        && !w.doc_to_syms.contains_key(keys[i]) by {
        assert(keys.contains(keys[i]));
        assert(v.vault_notes.entries.contains_key(keys[i]) <==> keys.contains(keys[i]));
        assert(!v.doc_to_syms.dom().contains(keys[i]));
    }
    assert(v.vault_notes.entries.contains_key(k) <==> keys.contains(k));
    lemma_linked_each_current(w, keys, disk, k);
}

/// Every note has the links that it is due.
pub open spec fn all_current(v: index::IndexView, disk: Set<Seq<char>>) -> bool {
    forall|k: Seq<char>| #[trigger] v.vault_notes.has(k) ==> is_current(v, k, disk)
}

/// The two hold the same paths, but for `file`.
pub open spec fn alike_but(a: Set<Seq<char>>, b: Set<Seq<char>>, file: Seq<char>) -> bool {
    forall|p: Seq<char>| p != file ==> #[trigger] a.contains(p) == b.contains(p)
}

/// After a change of a file, every note that it can touch has the links that it is due, and every
/// other note has the links that it had.
proof fn lemma_relinked_is_current(
    v: index::IndexView,
    w: index::IndexView,
    file: Seq<char>,
    disk: Set<Seq<char>>,
    k: Seq<char>,
)
    requires
        w.vault_notes.wf(),
        laws::notes_keyed(w),
        w.vault_notes.has(k),
    ensures
        update::affected(v, w, file, disk).contains(k) ==> is_current(
            update::relinked(v, w, file, disk),
            k,
            disk,
        ),
        !update::affected(v, w, file, disk).contains(k) ==> update::refs_from(
            update::relinked(v, w, file, disk),
            k,
        ) == update::refs_from(w, k),
        due_at(update::relinked(v, w, file, disk), k, disk) == due_at(w, k, disk),
{
    let touched = update::affected(v, w, file, disk);
    let u = update::unlinked(w, touched);
    let z = update::relinked(v, w, file, disk);
    let order = w.vault_notes.order;
    let keys = order.filter(update::member(touched));
    laws::lemma_filter_no_duplicates(order, update::member(touched));
    assert forall|i: int| 0 <= i < keys.len() implies u.vault_notes.has(#[trigger] keys[i])
        && !u.doc_to_syms.contains_key(keys[i]) by {
        assert(keys.contains(keys[i]));
        gather::lemma_filter_contains(order, update::member(touched), keys[i]);
        assert(w.vault_notes.entries.contains_key(keys[i]) <==> order.contains(keys[i]));
    }
    assert forall|n: Seq<char>| #[trigger] u.vault_notes.has(n) implies paths::normal(u.vault_notes.at(n).path)
        == n by {
        assert(w.vault_notes.has(n));
    }
    assert(w.vault_notes.entries.contains_key(k) <==> order.contains(k));
    gather::lemma_filter_contains(order, update::member(touched), k);
    lemma_linked_each_current(u, keys, disk, k);
    matching::lemma_linked_frame(u, keys, disk);
    matching::lemma_same_due(w, z, w.vault_notes.at(k), disk);
}

/// After a code file was read anew, every note that its symbols, those it had and those it has, could
/// affect has the links that it is due, and every other note has the links that it had.
pub proof fn law_reindexed_code_is_followed(
    v: index::IndexView,
    file: Seq<char>,
    list: Seq<symbols::SymbolView>,
    disk: Set<Seq<char>>,
    k: Seq<char>,
)
    requires
        laws::sound(v),
        v.vault_notes.has(k),
    ensures
        update::affected(v, update::with_symbols(v, file, list), file, disk).contains(k) ==> is_current(
            update::with_code(v, file, list, disk),
            k,
            disk,
        ),
        !update::affected(v, update::with_symbols(v, file, list), file, disk).contains(k)
            ==> update::refs_from(update::with_code(v, file, list, disk), k) == update::refs_from(v, k),
{
    let w = update::with_symbols(v, file, list);
    assert forall|n: Seq<char>| #[trigger] w.vault_notes.has(n) implies paths::normal(w.vault_notes.at(n).path)
        == n by {
        assert(v.vault_notes.has(n));
    }
    lemma_relinked_is_current(v, w, file, disk, k);
}

/// After a code file was deleted, every note that spoke of it or was linked into it has the links
/// that it is due, and every other note has the links that it had or those that it is due.
pub proof fn law_removed_code_is_followed(
    v: index::IndexView,
    file: Seq<char>,
    disk: Set<Seq<char>>,
    k: Seq<char>,
)
    requires
        laws::sound(v),
        v.vault_notes.has(k),
    ensures
        update::linked_into(v, file)(k) || update::speaks_of(v, file, disk)(k) ==> is_current(
            update::without_code(v, file, disk),
            k,
            disk,
        ),
        is_current(update::without_code(v, file, disk), k, disk) || update::refs_from(
            update::without_code(v, file, disk),
            k,
        ) == update::refs_from(v, k),
{
    let w = update::without_file(v, file);
    assert forall|n: Seq<char>| #[trigger] w.vault_notes.has(n) implies paths::normal(w.vault_notes.at(n).path)
        == n by {
        assert(v.vault_notes.has(n));
    }
    lemma_relinked_is_current(v, w, file, disk, k);
    assert(update::linked_into(w, file)(k) == update::linked_into(v, file)(k));
}

/// The two indexes differ in the links, in what is known of `file`, and in the lookup table alone.
spec fn differ_in_file(v: index::IndexView, w: index::IndexView, file: Seq<char>) -> bool {
    &&& w.root == v.root
    &&& w.vault_notes == v.vault_notes
    &&& forall|f: Seq<char>|
        f != file ==> #[trigger] w.code_symbols.has(f) == v.code_symbols.has(f) && w.code_symbols.at(f)
            == v.code_symbols.at(f)
    &&& forall|n: Seq<char>|
        !update::names_of(v, file).contains(n) && !update::names_of(w, file).contains(n) ==> (
        #[trigger] matching::definitions(w, n)) == matching::definitions(v, n)
}

/// A note that does not speak of `file`, before or after, and for whose title the guess stays and is
/// another file where it counts, is due what it was due.
proof fn lemma_other_due(
    v: index::IndexView,
    w: index::IndexView,
    note: vault::NoteView,
    file: Seq<char>,
    before: Set<Seq<char>>,
    after: Set<Seq<char>>,
    was: Option<(Seq<char>, u32)>,
    now: Option<(Seq<char>, u32)>,
)
    requires
        differ_in_file(v, w, file),
        !update::names_any(note, update::names_of(v, file)),
        !update::names_any(note, update::names_of(w, file)),
        forall|i: int|
            0 <= i < note.file_refs.len() ==> resolve::resolved(w, #[trigger] note.file_refs[i], after)
                == resolve::resolved(v, note.file_refs[i], before) && !resolve::resolved(
                v,
                note.file_refs[i],
                before,
            ).contains(file),
        matching::exact_links(w, note, after).len() == 0 ==> now == was && (was matches Some((guessed, _))
            ==> guessed != file),
    ensures
        matching::due_links(w, note, after, now) == matching::due_links(v, note, before, was),
{
    let rv = matching::ref_links(v, note.summary, before);
    let rw = matching::ref_links(w, note.summary, after);
    assert forall|i: int| 0 <= i < note.file_refs.len() implies rw(#[trigger] note.file_refs[i]) == rv(
        note.file_refs[i],
    ) by {
        let fr = note.file_refs[i];
        let files = resolve::resolved(v, fr, before);
        assert(resolve::resolved(w, fr, after) == files);
        let fv = matching::file_links(v, fr.line, note.summary);
        let fw = matching::file_links(w, fr.line, note.summary);
        assert forall|j: int| 0 <= j < files.len() implies fw(#[trigger] files[j]) == fv(files[j]) by {
            assert(files.contains(files[j]));
            assert(w.code_symbols.has(files[j]) == v.code_symbols.has(files[j]));
        }
        gather::lemma_gather_same(files, fw, fv);
    }
    gather::lemma_gather_same(note.file_refs, rw, rv);
    assert(matching::exact_links(w, note, after) == matching::exact_links(v, note, before));
    let iv = matching::ident_links(v);
    let iw = matching::ident_links(w);
    assert forall|i: int| 0 <= i < note.code_idents.len() implies iw(#[trigger] note.code_idents[i]) == iv(
        note.code_idents[i],
    ) by {
        let n = note.code_idents[i];
        assert(!update::names_of(v, file).contains(n));
        assert(!update::names_of(w, file).contains(n));
        assert(matching::definitions(w, n) == matching::definitions(v, n));
    }
    gather::lemma_gather_same(note.code_idents, iw, iv);
    assert(matching::strong_links(w, note) == matching::strong_links(v, note));
    if matching::exact_links(w, note, after).len() == 0 {
        if let Some((guessed, score)) = was {
            assert(w.code_symbols.has(guessed) == v.code_symbols.has(guessed));
            assert(matching::fuzzy_links(w, now) =~= matching::fuzzy_links(v, was));
        }
    }
}

/// A file whose score does not reach the threshold has no part in the guess.
proof fn lemma_best_without(scored: Seq<(Seq<char>, Option<u32>)>, at: int)
    requires
        0 <= at < scored.len(),
        !laws::reaches(scored, at, matching::FUZZY_SCORE_THRESHOLD),
    ensures
        matching::best_of(scored.remove(at)) == matching::best_of(scored),
    decreases scored.len(),
{
    let head = scored.drop_last();
    let rest = scored.remove(at);
    if at == scored.len() - 1 {
        assert(rest =~= head);
    } else {
        assert(head[at] == scored[at]);
        lemma_best_without(head, at);
        assert(rest.drop_last() =~= head.remove(at));
        assert(rest.last() == scored.last());
    }
}

/// The guess is a file of the row, and its score reaches the threshold.
proof fn lemma_best_is_scored(scored: Seq<(Seq<char>, Option<u32>)>)
    ensures
        matching::best_of(scored) matches Some((file, score)) ==> score >= matching::FUZZY_SCORE_THRESHOLD
            && scored.contains((file, Some(score))),
{
    laws::law_guess_is_best(scored);
    if let Some((file, score)) = matching::best_of(scored) {
        let i = choose|i: int|
            0 <= i < scored.len() && #[trigger] scored[i] == (file, Some(score)) && (forall|j: int|
                #[trigger] laws::reaches(scored, j, score) ==> i <= j && scored[j].1 == Some(score));
        assert(scored[i] == (file, Some(score)));
    }
}

/// The guess for a title is like it.
proof fn lemma_guess_is_like(v: index::IndexView, title: Seq<char>)
    requires
        v.code_symbols.wf(),
    ensures
        matching::best_of(matching::scored_files(v, title)) matches Some((file, _)) ==> update::is_like(
            title,
            file,
        ) && v.code_symbols.has(file),
{
    let scored = matching::scored_files(v, title);
    lemma_best_is_scored(scored);
    if let Some((file, score)) = matching::best_of(scored) {
        let i = scored.index_of((file, Some(score)));
        assert(scored[i] == (file, Some(score)));
        assert(v.code_symbols.order[i] == file);
        assert(v.code_symbols.order.contains(file));
        assert(v.code_symbols.entries.contains_key(file));
    }
}

/// Taking in the symbols of a file that is not like a title leaves the guess.
proof fn lemma_put_guess(
    v: index::IndexView,
    file: Seq<char>,
    list: Seq<symbols::SymbolView>,
    title: Seq<char>,
)
    requires
        !update::is_like(title, file),
    ensures
        matching::best_of(matching::scored_files(update::with_symbols(v, file, list), title))
            == matching::best_of(matching::scored_files(v, title)),
{
    let w = update::with_symbols(v, file, list);
    let was = matching::scored_files(v, title);
    let now = matching::scored_files(w, title);
    if v.code_symbols.has(file) {
        assert(now =~= was);
    } else {
        assert(now.drop_last() =~= was);
        assert(now.last() == (file, matching::file_score(title, file)));
    }
}

/// Forgetting a file that is not like a title, or was not known, leaves the guess.
proof fn lemma_cut_guess(v: index::IndexView, file: Seq<char>, title: Seq<char>)
    requires
        v.code_symbols.wf(),
        v.code_symbols.has(file) ==> !update::is_like(title, file),
    ensures
        matching::best_of(matching::scored_files(update::without_file(v, file), title))
            == matching::best_of(matching::scored_files(v, title)),
{
    let bare = update::with_symbols(v, file, Seq::empty());
    let w = update::without_file(v, file);
    let held = bare.code_symbols.order;
    let was = matching::scored_files(v, title);
    let now = matching::scored_files(w, title);
    let at = held.index_of(file);
    assert(v.code_symbols.entries.contains_key(file) <==> v.code_symbols.order.contains(file));
    if v.code_symbols.has(file) {
        assert(was[at] == (file, matching::file_score(title, file)));
        lemma_best_without(was, at);
        assert(now =~= was.remove(at));
    } else {
        let last = held.len() - 1;
        assert(held[last] == file);
        assert(held.contains(file));
        assert(at == last) by {
            if at < last {
                assert(v.code_symbols.order[at] == file);
            }
        }
        assert(now =~= was);
    }
}

/// A reference that leads to `file` neither before nor after means the same, where the file comes or
/// goes in between.
proof fn lemma_same_meaning(
    v: index::IndexView,
    w: index::IndexView,
    file: Seq<char>,
    fr: vault::FileRefView,
    disk: Set<Seq<char>>,
)
    requires
        w.root == v.root,
        w.file_lookup == v.file_lookup,
        alike_but(v.removed, w.removed, file),
        !resolve::resolved(v, fr, disk).contains(file),
        !resolve::resolved(w, fr, disk).contains(file),
    ensures
        resolve::resolved(w, fr, disk) == resolve::resolved(v, fr, disk),
{
    if resolve::is_abbreviated(fr.path) {
        if exists|i: int| resolve::sole_mark(fr.path, i) {
            let i = choose|i: int| resolve::sole_mark(fr.path, i);
            let prefix = resolve::trim_end(fr.path.take(i));
            let suffix = resolve::trim_start(fr.path.skip(i + 3));
            lemma_same_sieved(
                resolve::listed_files(v.file_lookup),
                resolve::framed(v, prefix, suffix),
                resolve::framed(w, prefix, suffix),
                file,
            );
        }
    } else if fr.is_bare_filename && v.file_lookup.has(fr.path) {
        lemma_same_sieved(v.file_lookup.at(fr.path), resolve::present(v), resolve::present(w), file);
    } else if let Some(name) = paths::file_name_of(fr.path) {
        let files = v.file_lookup.at(name);
        if fr.is_bare_filename {
            if v.file_lookup.has(name) {
                lemma_same_sieved(files, resolve::present(v), resolve::present(w), file);
            }
        } else if v.file_lookup.has(name) && !disk.contains(resolve::from_root(v, fr.path)) {
            let ends = resolve::ends_as(fr.path);
            let in_v = |f: Seq<char>| resolve::present(v)(f) && ends(f);
            let in_w = |f: Seq<char>| resolve::present(w)(f) && ends(f);
            gather::lemma_filter_twice(files, resolve::present(v), ends, in_v);
            gather::lemma_filter_twice(files, resolve::present(w), ends, in_w);
            lemma_same_sieved(files, in_v, in_w, file);
        }
    }
}

/// Sieves that agree on all but `file`, and of which neither keeps it, keep the same.
proof fn lemma_same_sieved(
    files: Seq<Seq<char>>,
    p: spec_fn(Seq<char>) -> bool,
    q: spec_fn(Seq<char>) -> bool,
    file: Seq<char>,
)
    requires
        forall|f: Seq<char>| f != file ==> #[trigger] p(f) == q(f),
        !files.filter(p).contains(file),
        !files.filter(q).contains(file),
    ensures
        files.filter(p) == files.filter(q),
{
    gather::lemma_filter_contains(files, p, file);
    gather::lemma_filter_contains(files, q, file);
    assert forall|i: int| 0 <= i < files.len() implies p(#[trigger] files[i]) == q(files[i]) by {
        if files[i] == file {
            assert(files.contains(file));
        }
    }
    gather::lemma_filter_same(files, p, q);
}

/// Taking in the symbols of a file changes what is known of that file alone.
proof fn lemma_symbols_differ_in_file(v: index::IndexView, file: Seq<char>, list: Seq<symbols::SymbolView>)
    ensures
        differ_in_file(v, update::with_symbols(v, file, list), file),
{
    let w = update::with_symbols(v, file, list);
    assert forall|n: Seq<char>|
        !update::names_of(v, file).contains(n) && !update::names_of(w, file).contains(n) implies (
    #[trigger] matching::definitions(w, n)) == matching::definitions(v, n) by {
        assert(update::names_of(w, file) == update::names_in(list));
    }
}

/// A reference that the presence of `file` does not decide means the same on disks that differ in
/// `file` alone.
proof fn lemma_same_on_disk(
    v: index::IndexView,
    fr: vault::FileRefView,
    file: Seq<char>,
    a: Set<Seq<char>>,
    b: Set<Seq<char>>,
)
    requires
        alike_but(a, b, file),
        resolve::probed(v, fr) != Some(file),
    ensures
        resolve::resolved(v, fr, a) == resolve::resolved(v, fr, b),
{
    assert(resolve::from_root(v, fr.path) != file ==> a.contains(resolve::from_root(v, fr.path))
        == b.contains(resolve::from_root(v, fr.path)));
}

/// After a code file was read anew, every note has the links that it is due, where it had them
/// before. The file may have come or gone on disk in between.
pub proof fn law_reindex_code_keeps_current(
    v: index::IndexView,
    file: Seq<char>,
    list: Seq<symbols::SymbolView>,
    before: Set<Seq<char>>,
    after: Set<Seq<char>>,
)
    requires
        laws::sound(v),
        all_current(v, before),
        alike_but(before, after, file),
    ensures
        all_current(update::with_code(v, file, list, after), after),
{
    let w = update::with_symbols(v, file, list);
    let z = update::with_code(v, file, list, after);
    lemma_symbols_differ_in_file(v, file, list);
    laws::lemma_relink_frame(v, w, file, after);
    assert forall|n: Seq<char>| #[trigger] w.vault_notes.has(n) implies paths::normal(w.vault_notes.at(n).path)
        == n by {
        assert(v.vault_notes.has(n));
    }
    assert forall|k: Seq<char>| #[trigger] z.vault_notes.has(k) implies is_current(z, k, after) by {
        assert(v.vault_notes.has(k));
        lemma_relinked_is_current(v, w, file, after, k);
        if !update::affected(v, w, file, after).contains(k) {
            let note = v.vault_notes.at(k);
            let was = matching::best_of(matching::scored_files(v, note.title));
            let now = matching::best_of(matching::scored_files(w, note.title));
            assert(!update::speaks_of(v, file, after)(k));
            assert(!update::speaks_of(w, file, after)(k));
            assert(!update::titled_like(w, file, after)(k));
            if matching::exact_links(w, note, after).len() == 0 {
                lemma_put_guess(v, file, list, note.title);
                lemma_guess_is_like(v, note.title);
            }
            assert forall|i: int| 0 <= i < note.file_refs.len() implies resolve::resolved(
                w,
                #[trigger] note.file_refs[i],
                after,
            ) == resolve::resolved(v, note.file_refs[i], before) && !resolve::resolved(
                v,
                note.file_refs[i],
                before,
            ).contains(file) by {
                assert(!update::leads_to(v, note.file_refs[i], file, after));
                assert(!update::leads_to(w, note.file_refs[i], file, after));
                lemma_same_on_disk(v, note.file_refs[i], file, before, after);
                lemma_same_meaning(v, w, file, note.file_refs[i], after);
            }
            lemma_other_due(v, w, note, file, before, after, was, now);
            assert(due_at(w, k, after) == due_at(v, k, before));
        }
    }
}

/// After a code file was deleted, every note has the links that it is due, where it had them
/// before. The file may have gone from disk in between.
pub proof fn law_remove_code_keeps_current(
    v: index::IndexView,
    file: Seq<char>,
    before: Set<Seq<char>>,
    after: Set<Seq<char>>,
)
    requires
        laws::sound(v),
        all_current(v, before),
        alike_but(before, after, file),
    ensures
        all_current(update::without_code(v, file, after), after),
{
    let bare = update::with_symbols(v, file, Seq::empty());
    let w = update::without_file(v, file);
    let z = update::without_code(v, file, after);
    lemma_symbols_differ_in_file(v, file, Seq::empty());
    assert(update::names_of(bare, file) =~= Set::empty());
    assert(update::names_of(w, file) =~= Set::empty());
    assert(differ_in_file(v, w, file)) by {
        assert forall|f: Seq<char>| f != file implies #[trigger] w.code_symbols.has(f)
            == v.code_symbols.has(f) && w.code_symbols.at(f) == v.code_symbols.at(f) by {
            assert(bare.code_symbols.has(f) == v.code_symbols.has(f));
        }
        assert forall|n: Seq<char>|
            !update::names_of(v, file).contains(n) && !update::names_of(w, file).contains(n) implies (
        #[trigger] matching::definitions(w, n)) == matching::definitions(v, n) by {
            assert(matching::definitions(bare, n) == matching::definitions(v, n));
        }
    }
    laws::lemma_relink_frame(v, w, file, after);
    assert forall|n: Seq<char>| #[trigger] w.vault_notes.has(n) implies paths::normal(w.vault_notes.at(n).path)
        == n by {
        assert(v.vault_notes.has(n));
    }
    assert forall|k: Seq<char>| #[trigger] z.vault_notes.has(k) implies is_current(z, k, after) by {
        assert(v.vault_notes.has(k));
        lemma_relinked_is_current(v, w, file, after, k);
        if !update::affected(v, w, file, after).contains(k) {
            let note = v.vault_notes.at(k);
            let was = matching::best_of(matching::scored_files(v, note.title));
            let now = matching::best_of(matching::scored_files(w, note.title));
            assert(!update::speaks_of(v, file, after)(k));
            assert(!update::speaks_of(w, file, after)(k));
            assert(v.code_symbols.has(file) ==> !update::titled_like(w, file, after)(k));
            if matching::exact_links(w, note, after).len() == 0 {
                lemma_cut_guess(v, file, note.title);
                lemma_guess_is_like(v, note.title);
            }
            assert(!update::names_any(note, update::names_of(w, file)));
            assert forall|i: int| 0 <= i < note.file_refs.len() implies resolve::resolved(
                w,
                #[trigger] note.file_refs[i],
                after,
            ) == resolve::resolved(v, note.file_refs[i], before) && !resolve::resolved(
                v,
                note.file_refs[i],
                before,
            ).contains(file) by {
                assert(!update::leads_to(v, note.file_refs[i], file, after));
                assert(!update::leads_to(w, note.file_refs[i], file, after));
                lemma_same_on_disk(v, note.file_refs[i], file, before, after);
                lemma_same_meaning(v, w, file, note.file_refs[i], after);
            }
            lemma_other_due(v, w, note, file, before, after, was, now);
            assert(due_at(w, k, after) == due_at(v, k, before));
        }
    }
}

/// After a note was read anew, every note has the links that it is due, where it had them before.
pub proof fn law_reindex_note_keeps_current(
    v: index::IndexView,
    note: vault::NoteView,
    disk: Set<Seq<char>>,
)
    requires
        laws::sound(v),
        all_current(v, disk),
    ensures
        all_current(update::with_note(v, note, disk), disk),
{
    let key = paths::normal(note.path);
    let z = update::with_note(v, note, disk);
    law_reindexed_note_is_current(v, note, disk);
    assert forall|k: Seq<char>| #[trigger] z.vault_notes.has(k) implies is_current(z, k, disk) by {
        if k != key {
            assert(v.vault_notes.has(k));
            matching::lemma_same_due(v, z, v.vault_notes.at(k), disk);
            assert(update::refs_from(z, k) == update::refs_from(v, k));
        }
    }
}

/// After a note was deleted, every other note has the links that it is due, where it had them
/// before.
pub proof fn law_remove_note_keeps_current(v: index::IndexView, path: Seq<char>, disk: Set<Seq<char>>)
    requires
        laws::sound(v),
        all_current(v, disk),
    ensures
        all_current(update::without_note_at(v, path), disk),
{
    let z = update::without_note_at(v, path);
    assert forall|k: Seq<char>| #[trigger] z.vault_notes.has(k) implies is_current(z, k, disk) by {
        assert(k != path);
        assert(v.vault_notes.has(k));
        matching::lemma_same_due(v, z, v.vault_notes.at(k), disk);
        assert(update::refs_from(z, k) == update::refs_from(v, k));
    }
}

/// On disk, nothing but the source file that the event is about has come or gone.
pub open spec fn only_this(event: watch::EventView, before: Set<Seq<char>>, after: Set<Seq<char>>) -> bool {
    match event {
        watch::EventView::CodeFileChanged(path) => alike_but(before, after, paths::normal(path)),
        watch::EventView::CodeFileRemoved(path) => alike_but(before, after, paths::normal(path)),
        _ => before == after,
    }
}

/// Whatever changes on disk, every note has the links that it is due, where it had them before, so
/// that the links do not drift however long changes are followed.
pub proof fn law_changes_keep_index_current(
    v: index::IndexView,
    event: watch::EventView,
    content: Option<Seq<char>>,
    list: Seq<symbols::SymbolView>,
    before: Set<Seq<char>>,
    after: Set<Seq<char>>,
)
    requires
        laws::sound(v),
        all_current(v, before),
        watch::is_readable(event, content),
        only_this(event, before, after),
    ensures
        all_current(watch::applied(v, event, content, list, after), after),
{
    match (event, content) {
        (watch::EventView::VaultNoteChanged(path), Some(s)) => {
            law_reindex_note_keeps_current(v, notes::note_in(path, s), after);
        },
        (watch::EventView::VaultNoteRemoved(path), _) => {
            law_remove_note_keeps_current(v, paths::normal(path), after);
        },
        (watch::EventView::CodeFileChanged(path), Some(s)) => {
            law_reindex_code_keeps_current(v, paths::normal(path), list, before, after);
        },
        (watch::EventView::CodeFileRemoved(path), _) => {
            law_remove_code_keeps_current(v, paths::normal(path), before, after);
        },
        _ => {},
    }
}

/// A source file that was deleted is forgotten: no reference means it, unless it is still on disk.
pub proof fn law_removed_file_is_not_meant(
    v: index::IndexView,
    file: Seq<char>,
    disk: Set<Seq<char>>,
    fr: vault::FileRefView,
)
    requires
        !disk.contains(file),
    ensures
        !resolve::resolved(update::without_code(v, file, disk), fr, disk).contains(file),
{
    let w = update::without_file(v, file);
    let z = update::without_code(v, file, disk);
    laws::lemma_relink_frame(v, w, file, disk);
    assert(!resolve::present(z)(file));
    if resolve::is_abbreviated(fr.path) {
        if exists|i: int| resolve::sole_mark(fr.path, i) {
            let i = choose|i: int| resolve::sole_mark(fr.path, i);
            let agrees = resolve::framed(
                z,
                resolve::trim_end(fr.path.take(i)),
                resolve::trim_start(fr.path.skip(i + 3)),
            );
            gather::lemma_filter_contains(resolve::listed_files(z.file_lookup), agrees, file);
        }
    } else {
        gather::lemma_filter_contains(z.file_lookup.at(fr.path), resolve::present(z), file);
        if let Some(name) = paths::file_name_of(fr.path) {
            gather::lemma_filter_contains(z.file_lookup.at(name), resolve::present(z), file);
        }
        gather::lemma_filter_contains(
            resolve::namesakes(z, fr.path),
            resolve::ends_as(fr.path),
            file,
        );
    }
}

/// A source file that was deleted and comes back is found again: every reference means what it meant
/// before, whatever symbols the file now has.
pub proof fn law_file_that_comes_back_is_found(
    v: index::IndexView,
    file: Seq<char>,
    list: Seq<symbols::SymbolView>,
    gone: Set<Seq<char>>,
    disk: Set<Seq<char>>,
    fr: vault::FileRefView,
)
    requires
        !v.removed.contains(file),
    ensures
        resolve::resolved(
            update::with_code(update::without_code(v, file, gone), file, list, disk),
            fr,
            disk,
        ) == resolve::resolved(v, fr, disk),
{
    let w = update::without_code(v, file, gone);
    let z = update::with_code(w, file, list, disk);
    laws::lemma_relink_frame(v, update::without_file(v, file), file, gone);
    laws::lemma_relink_frame(w, update::with_symbols(w, file, list), file, disk);
    assert(z.removed =~= v.removed);
    assert(resolve::present(z) =~= resolve::present(v));
    assert forall|a: Seq<char>, b: Seq<char>| #[trigger] resolve::framed(z, a, b) == resolve::framed(v, a, b) by {
        assert(resolve::framed(z, a, b) =~= resolve::framed(v, a, b));
    }
}

} // verus!
