//! What holds of every index that was built and kept up to date: links are stored on both sides,
//! they lead to symbols that exist, and every name is known where it is defined.
use crate::gather;
use crate::index;
use crate::matching;
use crate::notes;
use crate::paths;
use crate::project;
use crate::reports;
use crate::resolve;
use crate::symbols;
use crate::table;
use crate::update;
use crate::vault;
use crate::watch;
use vstd::prelude::*;

verus! {

/// The link `d` is stored with `symbol`.
pub open spec fn has_doc(v: index::IndexView, symbol: (Seq<char>, Seq<char>), d: index::DocView) -> bool {
    v.sym_to_docs.contains_key(symbol) && v.sym_to_docs[symbol].contains(d)
}

/// The link `r` is stored with the note `n`.
pub open spec fn has_ref(v: index::IndexView, n: Seq<char>, r: index::RefView) -> bool {
    v.doc_to_syms.contains_key(n) && v.doc_to_syms[n].contains(r)
}

/// The link of `n` is stored with its symbol too.
pub open spec fn stored_with_symbol(v: index::IndexView, n: Seq<char>, r: index::RefView) -> bool {
    exists|d: index::DocView| #[trigger] has_doc(v, r.symbol, d) && d.note_path == n && d.confidence
        == r.confidence
}

/// No dangling links: each link that is stored with a symbol is stored with its note.
pub open spec fn docs_backed(v: index::IndexView) -> bool {
    forall|s: (Seq<char>, Seq<char>), d: index::DocView| #[trigger]
        has_doc(v, s, d) ==> has_ref(
            v,
            d.note_path,
            index::RefView { symbol: s, confidence: d.confidence },
        )
}

/// Each link that is stored with a note is stored with its symbol.
pub open spec fn refs_backed(v: index::IndexView) -> bool {
    forall|n: Seq<char>, r: index::RefView| #[trigger] has_ref(v, n, r) ==> stored_with_symbol(v, n, r)
}

/// A symbol is remembered only where it has links.
pub open spec fn no_empty_docs(v: index::IndexView) -> bool {
    forall|s: (Seq<char>, Seq<char>)| #[trigger]
        v.sym_to_docs.contains_key(s) ==> v.sym_to_docs[s].len() > 0
}

/// `symbol` is defined by its file.
pub open spec fn exists_symbol(v: index::IndexView, symbol: (Seq<char>, Seq<char>)) -> bool {
    update::names_of(v, symbol.0).contains(symbol.1)
}

/// Every link leads to a symbol that exists.
pub open spec fn refs_live(v: index::IndexView) -> bool {
    forall|n: Seq<char>, r: index::RefView| #[trigger] has_ref(v, n, r) ==> exists_symbol(v, r.symbol)
}

/// A name is known at every place where it is defined, and nowhere else.
pub open spec fn names_agree(v: index::IndexView) -> bool {
    &&& forall|n: Seq<char>, s: (Seq<char>, Seq<char>)| #[trigger]
        matching::definitions(v, n).contains(s) <==> s.1 == n && exists_symbol(v, s)
    &&& forall|n: Seq<char>| (#[trigger] matching::definitions(v, n)).no_duplicates()
}

/// Every note is found by its path.
pub open spec fn notes_keyed(v: index::IndexView) -> bool {
    forall|k: Seq<char>| #[trigger] v.vault_notes.has(k) ==> paths::normal(v.vault_notes.at(k).path) == k
}

/// Only notes of the vault have links.
pub open spec fn links_from_notes(v: index::IndexView) -> bool {
    forall|n: Seq<char>| #[trigger] v.doc_to_syms.contains_key(n) ==> v.vault_notes.has(n)
}

/// No two of the links are from the same note.
pub open spec fn one_per_note(docs: Seq<index::DocView>) -> bool {
    forall|i: int, j: int|
        0 <= i < j < docs.len() ==> (#[trigger] docs[i]).note_path != (#[trigger] docs[j]).note_path
}

/// No two of the links are to the same symbol.
pub open spec fn one_per_symbol(refs: Seq<index::RefView>) -> bool {
    forall|i: int, j: int|
        0 <= i < j < refs.len() ==> (#[trigger] refs[i]).symbol != (#[trigger] refs[j]).symbol
}

/// A note and a symbol share at most one link, on either side.
pub open spec fn links_single(v: index::IndexView) -> bool {
    &&& forall|s: (Seq<char>, Seq<char>)| #[trigger]
        v.sym_to_docs.contains_key(s) ==> one_per_note(v.sym_to_docs[s])
    &&& forall|n: Seq<char>| #[trigger]
        v.doc_to_syms.contains_key(n) ==> one_per_symbol(v.doc_to_syms[n])
}

/// Every file of the lookup table is found by its own name, and every name has files.
pub open spec fn files_keyed(l: table::Listing<Seq<char>, Seq<Seq<char>>>) -> bool {
    &&& l.wf()
    &&& forall|name: Seq<char>| #[trigger] l.has(name) ==> l.at(name).len() > 0
    &&& forall|name: Seq<char>, i: int|
        l.has(name) && 0 <= i < l.at(name).len() ==> paths::file_name_of(#[trigger] l.at(name)[i]) == Some(
            name,
        )
}

/// A file that was deleted is not indexed.
pub open spec fn removed_gone(v: index::IndexView) -> bool {
    forall|f: Seq<char>| #[trigger] v.removed.contains(f) ==> !v.code_symbols.has(f)
}

/// What every operation on an index keeps.
pub open spec fn sound(v: index::IndexView) -> bool {
    &&& v.code_symbols.wf()
    &&& v.vault_notes.wf()
    &&& files_keyed(v.file_lookup)
    &&& removed_gone(v)
    &&& names_agree(v)
    &&& notes_keyed(v)
    &&& links_from_notes(v)
    &&& docs_backed(v)
    &&& refs_backed(v)
    &&& no_empty_docs(v)
    &&& links_single(v)
    &&& refs_live(v)
}

/// An index without contents is sound.
pub proof fn law_new_is_sound(root: Seq<char>, vault_root: Seq<char>)
    ensures
        sound(index::empty_index(root, vault_root)),
{
    let v = index::empty_index(root, vault_root);
    assert forall|n: Seq<char>| (#[trigger] matching::definitions(v, n)).len() == 0 by {}
}

/// What is stored with symbols after notes were unlinked.
pub proof fn lemma_unlinked_docs(
    v: index::IndexView,
    notes: Set<Seq<char>>,
    s: (Seq<char>, Seq<char>),
    d: index::DocView,
)
    ensures
        has_doc(update::unlinked(v, notes), s, d) <==> has_doc(v, s, d) && !(notes.contains(d.note_path)
            && update::refers_to(v, d.note_path, s)),
{
    let u = update::unlinked(v, notes);
    if v.sym_to_docs.contains_key(s) {
        gather::lemma_filter_contains(v.sym_to_docs[s], update::stays(v, notes, s), d);
        let left = update::staying(v, notes, s);
        if left.contains(d) {
            assert(left.len() > 0);
            assert(u.sym_to_docs.contains_key(s));
        }
    }
}

/// A link to a symbol is a reference to it.
proof fn lemma_ref_refers(v: index::IndexView, n: Seq<char>, r: index::RefView)
    requires
        has_ref(v, n, r),
    ensures
        update::refers_to(v, n, r.symbol),
{
    let i = v.doc_to_syms[n].index_of(r);
    assert(v.doc_to_syms[n][i].symbol == r.symbol);
}

/// Unlinking notes leaves no dangling links.
pub proof fn law_unlink_keeps_links_mutual(v: index::IndexView, notes: Set<Seq<char>>)
    requires
        docs_backed(v),
    ensures
        docs_backed(update::unlinked(v, notes)),
        refs_backed(v) ==> refs_backed(update::unlinked(v, notes)),
        no_empty_docs(v) ==> no_empty_docs(update::unlinked(v, notes)),
        links_single(v) ==> links_single(update::unlinked(v, notes)),
        forall|s: (Seq<char>, Seq<char>), d: index::DocView|
            #[trigger] has_doc(update::unlinked(v, notes), s, d) ==> !notes.contains(d.note_path),
{
    let u = update::unlinked(v, notes);
    if links_single(v) {
        lemma_unlink_single(v, notes);
    }
    assert forall|s: (Seq<char>, Seq<char>), d: index::DocView| #[trigger] has_doc(u, s, d) implies has_ref(
        u,
        d.note_path,
        index::RefView { symbol: s, confidence: d.confidence },
    ) && !notes.contains(d.note_path) by {
        let r = index::RefView { symbol: s, confidence: d.confidence };
        lemma_unlinked_docs(v, notes, s, d);
        assert(has_ref(v, d.note_path, r));
        lemma_ref_refers(v, d.note_path, r);
    }
    if refs_backed(v) {
        assert forall|n: Seq<char>, r: index::RefView| #[trigger] has_ref(u, n, r) implies stored_with_symbol(
            u,
            n,
            r,
        ) by {
            assert(has_ref(v, n, r));
            let d = choose|d: index::DocView| #[trigger] has_doc(v, r.symbol, d) && d.note_path == n
                && d.confidence == r.confidence;
            lemma_unlinked_docs(v, notes, r.symbol, d);
            assert(has_doc(u, r.symbol, d));
        }
    }
    if no_empty_docs(v) {
        assert forall|s: (Seq<char>, Seq<char>)| #[trigger]
            u.sym_to_docs.contains_key(s) implies u.sym_to_docs[s].len() > 0 by {
            let left = update::staying(v, notes, s);
            if !update::any_refers(v, notes, s) {
                assert forall|i: int| 0 <= i < v.sym_to_docs[s].len() implies update::stays(v, notes, s)(
                    #[trigger] v.sym_to_docs[s][i],
                ) by {}
                gather::lemma_filter_all(v.sym_to_docs[s], update::stays(v, notes, s));
            }
        }
    }
}

/// Sieving links leaves at most one from each note.
proof fn lemma_filter_one_per_note(docs: Seq<index::DocView>, p: spec_fn(index::DocView) -> bool)
    requires
        one_per_note(docs),
    ensures
        one_per_note(docs.filter(p)),
    decreases docs.len(),
{
    reveal(Seq::filter);
    if docs.len() > 0 {
        let head = docs.drop_last();
        let kept = head.filter(p);
        assert forall|i: int, j: int| 0 <= i < j < head.len() implies (#[trigger] head[i]).note_path != (
        #[trigger] head[j]).note_path by {
            assert(docs[i].note_path != docs[j].note_path);
        }
        lemma_filter_one_per_note(head, p);
        let all = docs.filter(p);
        assert forall|i: int, j: int| 0 <= i < j < all.len() implies (#[trigger] all[i]).note_path != (
        #[trigger] all[j]).note_path by {
            if j < kept.len() {
                assert(kept[i].note_path != kept[j].note_path);
            } else {
                assert(kept.contains(kept[i]));
                gather::lemma_filter_contains(head, p, kept[i]);
                let k = head.index_of(kept[i]);
                assert(docs[k].note_path != docs[docs.len() - 1].note_path);
            }
        }
    }
}

/// Unlinking notes leaves at most one link for each note and symbol.
proof fn lemma_unlink_single(v: index::IndexView, notes: Set<Seq<char>>)
    requires
        links_single(v),
    ensures
        links_single(update::unlinked(v, notes)),
{
    let u = update::unlinked(v, notes);
    assert forall|s: (Seq<char>, Seq<char>)| #[trigger] u.sym_to_docs.contains_key(s) implies one_per_note(
        u.sym_to_docs[s],
    ) by {
        assert(v.sym_to_docs.contains_key(s));
        lemma_filter_one_per_note(v.sym_to_docs[s], update::stays(v, notes, s));
    }
    assert forall|n: Seq<char>| #[trigger] u.doc_to_syms.contains_key(n) implies one_per_symbol(
        u.doc_to_syms[n],
    ) by {
        assert(v.doc_to_syms.contains_key(n));
    }
}

/// The link that `l` stores with `symbol`, where it leads there.
pub open spec fn docs_for(note: vault::NoteView, symbol: (Seq<char>, Seq<char>)) -> spec_fn(matching::LinkView) -> Seq<
    index::DocView,
> {
    |l: matching::LinkView|
        if l.symbol == symbol {
            seq![matching::doc_of(note, l)]
        } else {
            seq![]
        }
}

/// What is stored with one symbol after links were made.
pub proof fn lemma_docs_added(
    docs: Map<(Seq<char>, Seq<char>), Seq<index::DocView>>,
    note: vault::NoteView,
    links: Seq<matching::LinkView>,
    s: (Seq<char>, Seq<char>),
)
    ensures
        matching::docs_of(matching::with_docs(docs, note, links), s) == matching::docs_of(docs, s)
            + gather::gather(links, docs_for(note, s)),
        matching::with_docs(docs, note, links).contains_key(s) <==> docs.contains_key(s)
            || matching::links_to(links, s),
    decreases links.len(),
{
    let added = gather::gather(links, docs_for(note, s));
    if links.len() == 0 {
        assert(matching::docs_of(docs, s) + added =~= matching::docs_of(docs, s));
    } else {
        let head = links.drop_last();
        let link = links.last();
        lemma_docs_added(docs, note, head, s);
        assert(matching::links_to(links, s) <==> matching::links_to(head, s) || link.symbol == s) by {
            if matching::links_to(head, s) {
                let i = choose|i: int| 0 <= i < head.len() && (#[trigger] head[i]).symbol == s;
                assert(links[i].symbol == s);
            }
            if link.symbol == s {
                assert(links[links.len() - 1].symbol == s);
            }
            if matching::links_to(links, s) {
                let i = choose|i: int| 0 <= i < links.len() && (#[trigger] links[i]).symbol == s;
                if i < head.len() {
                    assert(head[i].symbol == s);
                }
            }
        }
        assert(matching::docs_of(matching::with_docs(docs, note, links), s) =~= matching::docs_of(docs, s)
            + added);
    }
}

/// What is stored with symbols after links were made.
pub proof fn lemma_linked_docs(
    v: index::IndexView,
    note: vault::NoteView,
    links: Seq<matching::LinkView>,
    s: (Seq<char>, Seq<char>),
    d: index::DocView,
)
    ensures
        has_doc(matching::with_links(v, note, links), s, d) <==> has_doc(v, s, d) || exists|i: int|
            0 <= i < links.len() && (#[trigger] links[i]).symbol == s && matching::doc_of(note, links[i]) == d,
{
    let w = matching::with_links(v, note, links);
    let was = matching::docs_of(v.sym_to_docs, s);
    let added = gather::gather(links, docs_for(note, s));
    lemma_docs_added(v.sym_to_docs, note, links, s);
    gather::lemma_gather_source(links, docs_for(note, s), d);
    let all = matching::docs_of(w.sym_to_docs, s);
    if was.contains(d) {
        assert(all[was.index_of(d)] == d);
    }
    if added.contains(d) {
        assert(all[was.len() + added.index_of(d)] == d);
        let i = choose|i: int| 0 <= i < links.len() && docs_for(note, s)(#[trigger] links[i]).contains(d);
        assert(links[i].symbol == s && matching::doc_of(note, links[i]) == d);
        assert(matching::links_to(links, s));
    }
    if exists|i: int|
        0 <= i < links.len() && (#[trigger] links[i]).symbol == s && matching::doc_of(note, links[i]) == d {
        let i = choose|i: int|
            0 <= i < links.len() && (#[trigger] links[i]).symbol == s && matching::doc_of(note, links[i]) == d;
        assert(docs_for(note, s)(links[i])[0] == d);
        assert(docs_for(note, s)(links[i]).contains(d));
    }
    if all.contains(d) {
        let k = all.index_of(d);
        if k < was.len() {
            assert(was[k] == d);
        } else {
            assert(added[k - was.len()] == d);
        }
    }
}

/// Links to different symbols store at most one link with each.
proof fn lemma_one_doc_added(note: vault::NoteView, links: Seq<matching::LinkView>, s: (Seq<char>, Seq<char>))
    requires
        forall|i: int, j: int|
            0 <= i < j < links.len() ==> (#[trigger] links[i]).symbol != (#[trigger] links[j]).symbol,
    ensures
        gather::gather(links, docs_for(note, s)).len() <= 1,
        !matching::links_to(links, s) ==> gather::gather(links, docs_for(note, s)).len() == 0,
    decreases links.len(),
{
    if links.len() > 0 {
        let head = links.drop_last();
        assert forall|i: int, j: int| 0 <= i < j < head.len() implies (#[trigger] head[i]).symbol != (
        #[trigger] head[j]).symbol by {
            assert(links[i].symbol != links[j].symbol);
        }
        lemma_one_doc_added(note, head, s);
        if links.last().symbol == s {
            assert(links[links.len() - 1].symbol == s);
            if matching::links_to(head, s) {
                let i = choose|i: int| 0 <= i < head.len() && (#[trigger] head[i]).symbol == s;
                assert(links[i].symbol != links[links.len() - 1].symbol);
            }
        } else if matching::links_to(head, s) {
            let i = choose|i: int| 0 <= i < head.len() && (#[trigger] head[i]).symbol == s;
            assert(links[i].symbol == s);
        }
    }
}

/// Linking a note that has no links stores one link for each symbol.
proof fn lemma_link_single(v: index::IndexView, note: vault::NoteView, due: Seq<matching::LinkView>)
    requires
        links_single(v),
        docs_backed(v),
        !v.doc_to_syms.contains_key(paths::normal(note.path)),
    ensures
        links_single(matching::with_links(v, note, matching::first_of_each(due))),
{
    let links = matching::first_of_each(due);
    let w = matching::with_links(v, note, links);
    let n = paths::normal(note.path);
    law_one_link_per_symbol(due);
    assert forall|s: (Seq<char>, Seq<char>)| #[trigger] w.sym_to_docs.contains_key(s) implies one_per_note(
        w.sym_to_docs[s],
    ) by {
        let was = matching::docs_of(v.sym_to_docs, s);
        let added = gather::gather(links, docs_for(note, s));
        lemma_docs_added(v.sym_to_docs, note, links, s);
        lemma_one_doc_added(note, links, s);
        let all = was + added;
        assert(w.sym_to_docs[s] == all);
        assert forall|i: int, j: int| 0 <= i < j < all.len() implies (#[trigger] all[i]).note_path != (
        #[trigger] all[j]).note_path by {
            assert(v.sym_to_docs.contains_key(s));
            assert(has_doc(v, s, was[i]));
            assert(has_ref(
                v,
                was[i].note_path,
                index::RefView { symbol: s, confidence: was[i].confidence },
            ));
            if j < was.len() {
                assert(was[i].note_path != was[j].note_path);
            } else {
                assert(all[j] == added[0]);
                assert(added.contains(added[0]));
                gather::lemma_gather_source(links, docs_for(note, s), added[0]);
            }
        }
    }
    assert forall|m: Seq<char>| #[trigger] w.doc_to_syms.contains_key(m) implies one_per_symbol(
        w.doc_to_syms[m],
    ) by {
        if m == n && links.len() > 0 {
            let refs = matching::refs_of(links);
            assert forall|i: int, j: int| 0 <= i < j < refs.len() implies (#[trigger] refs[i]).symbol != (
            #[trigger] refs[j]).symbol by {
                assert(links[i].symbol != links[j].symbol);
            }
        } else {
            assert(v.doc_to_syms.contains_key(m));
        }
    }
}

/// Linking a note that has no links keeps the links on both sides in agreement.
pub proof fn law_link_keeps_links_mutual(
    v: index::IndexView,
    note: vault::NoteView,
    links: Seq<matching::LinkView>,
)
    requires
        docs_backed(v),
        !v.doc_to_syms.contains_key(paths::normal(note.path)),
    ensures
        docs_backed(matching::with_links(v, note, links)),
        refs_backed(v) ==> refs_backed(matching::with_links(v, note, links)),
        no_empty_docs(v) ==> no_empty_docs(matching::with_links(v, note, links)),
{
    let w = matching::with_links(v, note, links);
    let n = paths::normal(note.path);
    let refs = matching::refs_of(links);
    assert forall|s: (Seq<char>, Seq<char>), d: index::DocView| #[trigger] has_doc(w, s, d) implies has_ref(
        w,
        d.note_path,
        index::RefView { symbol: s, confidence: d.confidence },
    ) by {
        let r = index::RefView { symbol: s, confidence: d.confidence };
        lemma_linked_docs(v, note, links, s, d);
        if has_doc(v, s, d) {
            assert(has_ref(v, d.note_path, r));
        } else {
            let i = choose|i: int|
                0 <= i < links.len() && (#[trigger] links[i]).symbol == s && matching::doc_of(note, links[i])
                    == d;
            assert(refs[i] == r);
        }
    }
    if refs_backed(v) {
        assert forall|m: Seq<char>, r: index::RefView| #[trigger] has_ref(w, m, r) implies stored_with_symbol(
            w,
            m,
            r,
        ) by {
            if m == n && links.len() > 0 {
                let i = refs.index_of(r);
                let d = matching::doc_of(note, links[i]);
                assert(refs[i] == r);
                lemma_linked_docs(v, note, links, r.symbol, d);
                assert(has_doc(w, r.symbol, d));
            } else {
                assert(has_ref(v, m, r));
                let d = choose|d: index::DocView| #[trigger] has_doc(v, r.symbol, d) && d.note_path == m
                    && d.confidence == r.confidence;
                lemma_linked_docs(v, note, links, r.symbol, d);
                assert(has_doc(w, r.symbol, d));
            }
        }
    }
    if no_empty_docs(v) {
        assert forall|s: (Seq<char>, Seq<char>)| #[trigger]
            w.sym_to_docs.contains_key(s) implies w.sym_to_docs[s].len() > 0 by {
            lemma_docs_added(v.sym_to_docs, note, links, s);
            if !v.sym_to_docs.contains_key(s) {
                let i = choose|i: int| 0 <= i < links.len() && (#[trigger] links[i]).symbol == s;
                let d = matching::doc_of(note, links[i]);
                lemma_linked_docs(v, note, links, s, d);
                assert(has_doc(w, s, d));
            }
        }
    }
}

/// Linking a note that has no links keeps the two sides a mirror of each other: each link is stored
/// with its note and with its symbol, once on either side.
pub proof fn law_link_note_keeps_mirror(v: index::IndexView, note: vault::NoteView, disk: Set<Seq<char>>)
    requires
        docs_backed(v),
        refs_backed(v),
        links_single(v),
        !v.doc_to_syms.contains_key(paths::normal(note.path)),
    ensures
        docs_backed(matching::linked(v, note, disk)),
        refs_backed(matching::linked(v, note, disk)),
        links_single(matching::linked(v, note, disk)),
{
    let guess = matching::best_of(matching::scored_files(v, note.title));
    let due = matching::due_links(v, note, disk, guess);
    law_link_keeps_links_mutual(v, note, matching::first_of_each(due));
    lemma_link_single(v, note, due);
}

/// What is kept of links is among them.
pub proof fn lemma_first_of_each(links: Seq<matching::LinkView>, l: matching::LinkView)
    ensures
        matching::first_of_each(links).contains(l) ==> links.contains(l),
    decreases links.len(),
{
    if links.len() > 0 {
        let head = matching::first_of_each(links.drop_last());
        lemma_first_of_each(links.drop_last(), l);
        if matching::first_of_each(links).contains(l) {
            let i = matching::first_of_each(links).index_of(l);
            if i < head.len() {
                assert(head[i] == l);
                assert(links[links.drop_last().index_of(l)] == l);
            } else {
                assert(links[links.len() - 1] == l);
            }
        }
    }
}

/// A note has at most one link to each symbol.
pub proof fn law_one_link_per_symbol(links: Seq<matching::LinkView>)
    ensures
        forall|i: int, j: int|
            0 <= i < j < matching::first_of_each(links).len() ==> (
            #[trigger] matching::first_of_each(links)[i]).symbol != (
            #[trigger] matching::first_of_each(links)[j]).symbol,
        forall|s: (Seq<char>, Seq<char>)| #[trigger]
            matching::links_to(matching::first_of_each(links), s) <==> matching::links_to(links, s),
    decreases links.len(),
{
    if links.len() > 0 {
        let head = matching::first_of_each(links.drop_last());
        let all = matching::first_of_each(links);
        law_one_link_per_symbol(links.drop_last());
        assert forall|i: int, j: int| 0 <= i < j < all.len() implies (#[trigger] all[i]).symbol != (
        #[trigger] all[j]).symbol by {
            if j < head.len() {
                assert(head[i].symbol != head[j].symbol);
            } else {
                assert(head[i].symbol != links.last().symbol);
            }
        }
        assert forall|s: (Seq<char>, Seq<char>)| #[trigger] matching::links_to(all, s)
            <==> matching::links_to(links, s) by {
            if matching::links_to(all, s) {
                let i = choose|i: int| 0 <= i < all.len() && (#[trigger] all[i]).symbol == s;
                lemma_first_of_each(links, all[i]);
                assert(all.contains(all[i]));
                assert(links[links.index_of(all[i])].symbol == s);
            }
            if matching::links_to(links, s) {
                let i = choose|i: int| 0 <= i < links.len() && (#[trigger] links[i]).symbol == s;
                if i < links.len() - 1 {
                    assert(links.drop_last()[i].symbol == s);
                    assert(matching::links_to(head, s));
                    let k = choose|k: int| 0 <= k < head.len() && (#[trigger] head[k]).symbol == s;
                    assert(all[k].symbol == s);
                } else if matching::links_to(head, s) {
                    let k = choose|k: int| 0 <= k < head.len() && (#[trigger] head[k]).symbol == s;
                    assert(all[k].symbol == s);
                } else {
                    assert(all[head.len() as int].symbol == s);
                }
            }
        }
    } else {
        assert(matching::first_of_each(links) =~= links);
    }
}

/// Every link that a note is due leads to a symbol that exists.
pub proof fn law_due_links_live(
    v: index::IndexView,
    note: vault::NoteView,
    disk: Set<Seq<char>>,
    guess: Option<(Seq<char>, u32)>,
    l: matching::LinkView,
)
    requires
        names_agree(v),
        matching::due_links(v, note, disk, guess).contains(l),
    ensures
        exists_symbol(v, l.symbol),
{
    let exact = matching::exact_links(v, note, disk);
    let strong = matching::strong_links(v, note);
    let all = matching::due_links(v, note, disk, guess);
    let k = all.index_of(l);
    if k < exact.len() {
        assert(exact[k] == l);
        gather::lemma_gather_source(note.file_refs, matching::ref_links(v, note.summary, disk), l);
        let i = choose|i: int|
            0 <= i < note.file_refs.len() && matching::ref_links(v, note.summary, disk)(
                #[trigger] note.file_refs[i],
            ).contains(l);
        let fr = note.file_refs[i];
        let files = resolve::resolved(v, fr, disk);
        let f = matching::file_links(v, fr.line, note.summary);
        gather::lemma_gather_source(files, f, l);
        let j = choose|j: int| 0 <= j < files.len() && f(#[trigger] files[j]).contains(l);
        let list = v.code_symbols.at(files[j]);
        let g = matching::symbol_links(files[j], fr.line, note.summary);
        gather::lemma_gather_source(list, g, l);
        let m = choose|m: int| 0 <= m < list.len() && g(#[trigger] list[m]).contains(l);
        assert(list[m].name == l.symbol.1);
    } else if k < exact.len() + strong.len() {
        assert(strong[k - exact.len()] == l);
        gather::lemma_gather_source(note.code_idents, matching::ident_links(v), l);
        let i = choose|i: int|
            0 <= i < note.code_idents.len() && matching::ident_links(v)(#[trigger] note.code_idents[i]).contains(
                l,
            );
        let name = note.code_idents[i];
        let ids = matching::definitions(v, name);
        let made = matching::strong_to(ids, name);
        let j = made.index_of(l);
        assert(made[j].symbol == ids[j]);
        assert(ids.contains(l.symbol));
    } else {
        let made = matching::fuzzy_links(v, guess);
        let j = k - exact.len() - strong.len();
        assert(made[j] == l);
        let file = (guess->0).0;
        assert(v.code_symbols.at(file)[j].name == l.symbol.1);
    }
}

/// Linking changes the links alone, and those of other notes not at all.
proof fn lemma_linked_parts(v: index::IndexView, note: vault::NoteView, disk: Set<Seq<char>>)
    ensures
        matching::linked(v, note, disk) == (index::IndexView {
            sym_to_docs: matching::linked(v, note, disk).sym_to_docs,
            doc_to_syms: matching::linked(v, note, disk).doc_to_syms,
            ..v
        }),
        forall|n: Seq<char>|
            n != paths::normal(note.path) ==> #[trigger] matching::linked(v, note, disk).doc_to_syms.contains_key(
                n,
            ) == v.doc_to_syms.contains_key(n),
{
}

/// Linking a note of the vault that has no links keeps the index sound.
proof fn lemma_link_is_sound(v: index::IndexView, note: vault::NoteView, disk: Set<Seq<char>>)
    requires
        sound(v),
        v.vault_notes.has(paths::normal(note.path)),
        !v.doc_to_syms.contains_key(paths::normal(note.path)),
    ensures
        sound(matching::linked(v, note, disk)),
{
    let guess = matching::best_of(matching::scored_files(v, note.title));
    let due = matching::due_links(v, note, disk, guess);
    let links = matching::first_of_each(due);
    let w = matching::linked(v, note, disk);
    let n = paths::normal(note.path);
    law_link_keeps_links_mutual(v, note, links);
    lemma_link_single(v, note, due);
    assert forall|m: Seq<char>, s: (Seq<char>, Seq<char>)| #[trigger] matching::definitions(w, m).contains(s)
        <==> s.1 == m && exists_symbol(w, s) by {
        assert(matching::definitions(w, m) == matching::definitions(v, m));
        assert(exists_symbol(w, s) == exists_symbol(v, s));
    }
    assert forall|m: Seq<char>| (#[trigger] matching::definitions(w, m)).no_duplicates() by {
        assert(matching::definitions(w, m) == matching::definitions(v, m));
    }
    assert forall|m: Seq<char>, r: index::RefView| #[trigger] has_ref(w, m, r) implies exists_symbol(
        w,
        r.symbol,
    ) by {
        if m == n && links.len() > 0 {
            let i = matching::refs_of(links).index_of(r);
            assert(matching::refs_of(links)[i] == r);
            assert(links.contains(links[i]));
            lemma_first_of_each(due, links[i]);
            law_due_links_live(v, note, disk, guess, links[i]);
        } else {
            assert(has_ref(v, m, r));
        }
        assert(exists_symbol(v, r.symbol));
    }
}

/// Linking notes of the vault that have no links, one after the other, keeps the index sound.
proof fn lemma_link_each_is_sound(v: index::IndexView, keys: Seq<Seq<char>>, disk: Set<Seq<char>>)
    requires
        sound(v),
        keys.no_duplicates(),
        forall|i: int|
            0 <= i < keys.len() ==> v.vault_notes.has(#[trigger] keys[i]) && !v.doc_to_syms.contains_key(
                keys[i],
            ),
    ensures
        sound(matching::linked_each(v, keys, disk)),
        forall|n: Seq<char>|
            !keys.contains(n) ==> #[trigger] matching::linked_each(v, keys, disk).doc_to_syms.contains_key(n)
                == v.doc_to_syms.contains_key(n),
    decreases keys.len(),
{
    if keys.len() > 0 {
        let head = keys.drop_last();
        let key = keys.last();
        let u = matching::linked_each(v, head, disk);
        let note = v.vault_notes.at(key);
        assert forall|i: int| 0 <= i < head.len() implies v.vault_notes.has(#[trigger] head[i])
            && !v.doc_to_syms.contains_key(head[i]) by {
            assert(head[i] == keys[i]);
        }
        lemma_link_each_is_sound(v, head, disk);
        matching::lemma_linked_frame(v, head, disk);
        assert(keys[keys.len() - 1] == key);
        assert(v.vault_notes.has(key));
        assert(paths::normal(note.path) == key);
        assert(!head.contains(key)) by {
            if head.contains(key) {
                assert(keys[head.index_of(key)] == keys[keys.len() - 1]);
            }
        }
        assert(u.doc_to_syms.contains_key(key) == v.doc_to_syms.contains_key(key));
        lemma_link_is_sound(u, note, disk);
        lemma_linked_parts(u, note, disk);
        let w = matching::linked_each(v, keys, disk);
        assert forall|n: Seq<char>| !keys.contains(n) implies #[trigger] w.doc_to_syms.contains_key(n)
            == v.doc_to_syms.contains_key(n) by {
            assert(n != key);
            if head.contains(n) {
                assert(keys[head.index_of(n)] == n);
            }
            assert(u.doc_to_syms.contains_key(n) == v.doc_to_syms.contains_key(n));
        }
    }
}

/// Storing a value keeps a table walked once.
pub proof fn lemma_put_wf<K, V>(l: table::Listing<K, V>, k: K, x: V)
    requires
        l.wf(),
    ensures
        l.put(k, x).wf(),
{
    let m = l.put(k, x);
    assert forall|j: K| #[trigger] m.entries.contains_key(j) <==> m.order.contains(j) by {
        assert(l.entries.contains_key(j) <==> l.order.contains(j));
        if l.order.contains(j) {
            assert(m.order[l.order.index_of(j)] == j);
        }
        if !l.has(k) {
            assert(m.order[l.order.len() as int] == k);
        }
        if m.order.contains(j) {
            let i = m.order.index_of(j);
            if i < l.order.len() {
                assert(l.order[i] == j);
            }
        }
    }
    if !l.has(k) {
        assert(!l.order.contains(k)) by {
            assert(l.entries.contains_key(k) <==> l.order.contains(k));
        }
        assert forall|i: int, j: int| 0 <= i < j < m.order.len() implies m.order[i] != m.order[j] by {
            if j == l.order.len() {
                assert(l.order.contains(l.order[i]));
            }
        }
    }
}

/// Taking a value out keeps a table walked once.
proof fn lemma_drop_wf<K, V>(l: table::Listing<K, V>, k: K)
    requires
        l.wf(),
    ensures
        l.drop(k).wf(),
{
    let m = l.drop(k);
    if l.has(k) {
        let at = l.order.index_of(k);
        let last = l.order.len() - 1;
        assert(l.entries.contains_key(k) <==> l.order.contains(k));
        assert(l.order[at] == k);
        assert forall|j: K| #[trigger] m.entries.contains_key(j) <==> m.order.contains(j) by {
            assert(l.entries.contains_key(j) <==> l.order.contains(j));
            if m.entries.contains_key(j) {
                let i = l.order.index_of(j);
                assert(l.order[i] == j);
                if i == last {
                    assert(m.order[at] == j);
                } else {
                    assert(m.order[i] == j);
                }
            }
            if m.order.contains(j) {
                let i = m.order.index_of(j);
                if i == at {
                    assert(l.order[last] == j);
                } else {
                    assert(l.order[i] == j);
                }
            }
        }
        assert forall|i: int, j: int| 0 <= i < j < m.order.len() implies m.order[i] != m.order[j] by {
            let a = if i == at { last } else { i };
            let b = if j == at { last } else { j };
            assert(m.order[i] == l.order[a]);
            assert(m.order[j] == l.order[b]);
            assert(a != b);
        }
    }
}

/// Taking a value out in order keeps a table walked once.
pub proof fn lemma_cut_wf<K, V>(l: table::Listing<K, V>, k: K)
    requires
        l.wf(),
    ensures
        l.cut(k).wf(),
{
    let m = l.cut(k);
    if l.has(k) {
        let at = l.order.index_of(k);
        assert(l.entries.contains_key(k) <==> l.order.contains(k));
        assert(l.order[at] == k);
        assert forall|j: K| #[trigger] m.entries.contains_key(j) <==> m.order.contains(j) by {
            assert(l.entries.contains_key(j) <==> l.order.contains(j));
            if m.entries.contains_key(j) {
                let i = l.order.index_of(j);
                assert(l.order[i] == j);
                assert(m.order[if i < at {
                    i
                } else {
                    i - 1
                }] == j);
            }
            if m.order.contains(j) {
                let i = m.order.index_of(j);
                assert(l.order[if i < at {
                    i
                } else {
                    i + 1
                }] == j);
            }
        }
    }
}

/// Unlinking notes keeps the index sound.
proof fn lemma_unlink_is_sound(v: index::IndexView, notes: Set<Seq<char>>)
    requires
        sound(v),
    ensures
        sound(update::unlinked(v, notes)),
{
    let u = update::unlinked(v, notes);
    law_unlink_keeps_links_mutual(v, notes);
    lemma_same_code(v, u);
    assert forall|m: Seq<char>, r: index::RefView| #[trigger] has_ref(u, m, r) implies exists_symbol(
        u,
        r.symbol,
    ) by {
        assert(has_ref(v, m, r));
        assert(exists_symbol(v, r.symbol));
    }
}

/// What is known of names does not depend on notes and links.
proof fn lemma_same_code(v: index::IndexView, w: index::IndexView)
    requires
        w.code_symbols == v.code_symbols,
        w.symbol_names == v.symbol_names,
    ensures
        names_agree(v) ==> names_agree(w),
        forall|s: (Seq<char>, Seq<char>)| #[trigger] exists_symbol(w, s) == exists_symbol(v, s),
{
    assert forall|m: Seq<char>| #[trigger] matching::definitions(w, m) == matching::definitions(v, m) by {}
    if names_agree(v) {
        assert forall|m: Seq<char>, s: (Seq<char>, Seq<char>)| #[trigger] matching::definitions(w, m).contains(s)
            <==> s.1 == m && exists_symbol(w, s) by {
            assert(matching::definitions(v, m).contains(s) <==> s.1 == m && exists_symbol(v, s));
        }
        assert forall|m: Seq<char>| (#[trigger] matching::definitions(w, m)).no_duplicates() by {
            assert(matching::definitions(v, m).no_duplicates());
        }
    }
}

/// A note that is read anew leaves the index sound: its former links are gone on both sides, and
/// its new ones are stored on both.
pub proof fn law_reindex_note_is_sound(v: index::IndexView, note: vault::NoteView, disk: Set<Seq<char>>)
    requires
        sound(v),
    ensures
        sound(update::with_note(v, note, disk)),
{
    let key = paths::normal(note.path);
    let bare = update::unlinked(v, set![key]);
    let w = index::IndexView { vault_notes: bare.vault_notes.put(key, note), ..bare };
    lemma_unlink_is_sound(v, set![key]);
    lemma_put_wf(bare.vault_notes, key, note);
    lemma_same_code(bare, w);
    lemma_same_links(bare, w);
    assert forall|k: Seq<char>| #[trigger] w.vault_notes.has(k) implies paths::normal(w.vault_notes.at(k).path)
        == k by {
        if k != key {
            assert(bare.vault_notes.has(k));
        }
    }
    assert forall|n: Seq<char>| #[trigger] w.doc_to_syms.contains_key(n) implies w.vault_notes.has(n) by {
        assert(bare.doc_to_syms.contains_key(n));
    }
    assert(set![key].contains(key));
    assert(!w.doc_to_syms.contains_key(key));
    lemma_link_is_sound(w, note, disk);
}

/// What is known of links does not depend on notes.
proof fn lemma_same_links(v: index::IndexView, w: index::IndexView)
    requires
        w.code_symbols == v.code_symbols,
        w.sym_to_docs == v.sym_to_docs,
        w.doc_to_syms == v.doc_to_syms,
    ensures
        docs_backed(v) ==> docs_backed(w),
        refs_backed(v) ==> refs_backed(w),
        no_empty_docs(v) ==> no_empty_docs(w),
        links_single(v) ==> links_single(w),
        refs_live(v) ==> refs_live(w),
{
    assert forall|s: (Seq<char>, Seq<char>), d: index::DocView| #[trigger] has_doc(w, s, d) == has_doc(v, s, d) by {}
    assert forall|n: Seq<char>, r: index::RefView| #[trigger] has_ref(w, n, r) == has_ref(v, n, r) by {}
    if docs_backed(v) {
        assert forall|s: (Seq<char>, Seq<char>), d: index::DocView| #[trigger] has_doc(w, s, d) implies has_ref(
            w,
            d.note_path,
            index::RefView { symbol: s, confidence: d.confidence },
        ) by {
            assert(has_doc(v, s, d));
        }
    }
    if refs_backed(v) {
        assert forall|n: Seq<char>, r: index::RefView| #[trigger] has_ref(w, n, r) implies stored_with_symbol(
            w,
            n,
            r,
        ) by {
            assert(has_ref(v, n, r));
            let d = choose|d: index::DocView| #[trigger] has_doc(v, r.symbol, d) && d.note_path == n
                && d.confidence == r.confidence;
            assert(has_doc(w, r.symbol, d));
        }
    }
    if refs_live(v) {
        assert forall|n: Seq<char>, r: index::RefView| #[trigger] has_ref(w, n, r) implies exists_symbol(
            w,
            r.symbol,
        ) by {
            assert(has_ref(v, n, r));
            assert(exists_symbol(v, r.symbol));
        }
    }
}

/// A note that is deleted leaves the index sound, and no link of it.
pub proof fn law_remove_note_is_sound(v: index::IndexView, path: Seq<char>)
    requires
        sound(v),
    ensures
        sound(update::without_note_at(v, path)),
        !update::without_note_at(v, path).vault_notes.has(path),
        !update::without_note_at(v, path).doc_to_syms.contains_key(path),
        forall|s: (Seq<char>, Seq<char>), d: index::DocView| #[trigger]
            has_doc(update::without_note_at(v, path), s, d) ==> d.note_path != path,
{
    let bare = update::unlinked(v, set![path]);
    let w = update::without_note_at(v, path);
    lemma_unlink_is_sound(v, set![path]);
    law_unlink_keeps_links_mutual(v, set![path]);
    lemma_drop_wf(bare.vault_notes, path);
    lemma_same_code(bare, w);
    lemma_same_links(bare, w);
    assert(set![path].contains(path));
    assert forall|k: Seq<char>| #[trigger] w.vault_notes.has(k) implies paths::normal(w.vault_notes.at(k).path)
        == k by {
        assert(bare.vault_notes.has(k));
    }
    assert forall|n: Seq<char>| #[trigger] w.doc_to_syms.contains_key(n) implies w.vault_notes.has(n) by {
        assert(bare.doc_to_syms.contains_key(n));
    }
    assert forall|s: (Seq<char>, Seq<char>), d: index::DocView| #[trigger] has_doc(w, s, d) implies d.note_path
        != path by {
        assert(has_doc(bare, s, d));
    }
}

/// Each link that is stored with a note, but for those into `file`, is stored with its symbol and
/// leads to a symbol that exists.
spec fn refs_hold_but(v: index::IndexView, file: Seq<char>) -> bool {
    forall|n: Seq<char>, r: index::RefView| #[trigger]
        has_ref(v, n, r) && r.symbol.0 != file ==> stored_with_symbol(v, n, r) && exists_symbol(v, r.symbol)
}

/// What holds of an index while the links into `file` are out of date.
spec fn sound_but(v: index::IndexView, file: Seq<char>) -> bool {
    &&& v.code_symbols.wf()
    &&& v.vault_notes.wf()
    &&& files_keyed(v.file_lookup)
    &&& removed_gone(v)
    &&& names_agree(v)
    &&& notes_keyed(v)
    &&& links_from_notes(v)
    &&& docs_backed(v)
    &&& no_empty_docs(v)
    &&& links_single(v)
    &&& refs_hold_but(v, file)
}

/// Sieving repeats nothing.
pub proof fn lemma_filter_no_duplicates<A>(s: Seq<A>, p: spec_fn(A) -> bool)
    requires
        s.no_duplicates(),
    ensures
        s.filter(p).no_duplicates(),
    decreases s.len(),
{
    reveal(Seq::filter);
    if s.len() > 0 {
        let head = s.drop_last();
        lemma_filter_no_duplicates(head, p);
        gather::lemma_filter_contains(head, p, s.last());
        if head.contains(s.last()) {
            assert(s[head.index_of(s.last())] == s[s.len() - 1]);
        }
        let kept = head.filter(p);
        assert forall|i: int, j: int| 0 <= i < j < s.filter(p).len() implies s.filter(p)[i] != s.filter(p)[j] by {
            if j == kept.len() {
                assert(kept.contains(kept[i]));
            }
        }
    }
}

/// The definitions of a name after `file` was found to define `list`.
proof fn lemma_names_after(
    v: index::IndexView,
    file: Seq<char>,
    list: Seq<symbols::SymbolView>,
    n: Seq<char>,
    s: (Seq<char>, Seq<char>),
)
    requires
        names_agree(v),
    ensures
        matching::definitions(update::with_symbols(v, file, list), n).contains(s) <==> s.1 == n && exists_symbol(
            update::with_symbols(v, file, list),
            s,
        ),
        matching::definitions(update::with_symbols(v, file, list), n).no_duplicates(),
{
    let w = update::with_symbols(v, file, list);
    let fresh = update::names_in(list);
    let gone = update::names_of(v, file).difference(fresh);
    let was = matching::definitions(v, n);
    let kept = update::ids_of(update::retired(v.symbol_names, file, gone), n);
    let now = matching::definitions(w, n);
    let id = (file, n);
    let keep = update::not_this(id);
    assert(was.contains(s) <==> s.1 == n && exists_symbol(v, s));
    assert(was.contains(id) <==> exists_symbol(v, id));
    assert(was.no_duplicates());
    assert(was == update::ids_of(v.symbol_names, n));
    gather::lemma_filter_contains(was, keep, s);
    gather::lemma_filter_contains(was, keep, id);
    lemma_filter_no_duplicates(was, keep);
    if gone.contains(n) {
        assert(kept =~= was.filter(keep)) by {
            if !v.symbol_names.contains_key(n) {
                reveal(Seq::filter);
            }
        }
    } else {
        assert(kept == was);
    }
    assert(kept.contains(s) <==> was.contains(s) && !(gone.contains(n) && s == id));
    assert(kept.contains(id) <==> was.contains(id) && !gone.contains(n));
    if fresh.contains(n) && !kept.contains(id) {
        assert(now == kept.push(id));
        assert(now[kept.len() as int] == id);
        if kept.contains(s) {
            assert(now[kept.index_of(s)] == s);
        }
        if now.contains(s) {
            let i = now.index_of(s);
            if i < kept.len() {
                assert(kept[i] == s);
            }
        }
        assert forall|i: int, j: int| 0 <= i < j < now.len() implies now[i] != now[j] by {
            if j == kept.len() {
                assert(kept.contains(kept[i]));
            }
        }
    } else {
        assert(now =~= kept);
    }
    assert(exists_symbol(w, s) == (if s.0 == file {
        fresh.contains(s.1)
    } else {
        exists_symbol(v, s)
    }));
}

/// Taking in the symbols of a file keeps every name known where it is defined, and all but the
/// links into the file in order.
proof fn lemma_symbols_sound_but(v: index::IndexView, file: Seq<char>, list: Seq<symbols::SymbolView>)
    requires
        sound(v),
    ensures
        sound_but(update::with_symbols(v, file, list), file),
{
    let w = update::with_symbols(v, file, list);
    lemma_put_wf(v.code_symbols, file, list);
    assert(links_single(w)) by {
        assert forall|s: (Seq<char>, Seq<char>)| #[trigger] w.sym_to_docs.contains_key(s) implies one_per_note(
            w.sym_to_docs[s],
        ) by {
            assert(v.sym_to_docs.contains_key(s));
        }
        assert forall|n: Seq<char>| #[trigger] w.doc_to_syms.contains_key(n) implies one_per_symbol(
            w.doc_to_syms[n],
        ) by {
            assert(v.doc_to_syms.contains_key(n));
        }
    }
    assert forall|n: Seq<char>, s: (Seq<char>, Seq<char>)| #[trigger] matching::definitions(w, n).contains(s)
        <==> s.1 == n && exists_symbol(w, s) by {
        lemma_names_after(v, file, list, n, s);
    }
    assert forall|n: Seq<char>| (#[trigger] matching::definitions(w, n)).no_duplicates() by {
        lemma_names_after(v, file, list, n, (file, n));
    }
    assert forall|s: (Seq<char>, Seq<char>), d: index::DocView| #[trigger] has_doc(w, s, d) implies has_ref(
        w,
        d.note_path,
        index::RefView { symbol: s, confidence: d.confidence },
    ) by {
        assert(has_doc(v, s, d));
        assert(has_ref(v, d.note_path, index::RefView { symbol: s, confidence: d.confidence }));
    }
    assert forall|n: Seq<char>, r: index::RefView| #[trigger]
        has_ref(w, n, r) && r.symbol.0 != file implies stored_with_symbol(w, n, r) && exists_symbol(
        w,
        r.symbol,
    ) by {
        assert(has_ref(v, n, r));
        assert(stored_with_symbol(v, n, r) && exists_symbol(v, r.symbol));
        let d = choose|d: index::DocView| #[trigger] has_doc(v, r.symbol, d) && d.note_path == n
            && d.confidence == r.confidence;
        assert(has_doc(w, r.symbol, d));
    }
    assert forall|s: (Seq<char>, Seq<char>)| #[trigger] w.sym_to_docs.contains_key(s) implies w.sym_to_docs[s].len()
        > 0 by {
        assert(v.sym_to_docs.contains_key(s));
    }
    assert forall|k: Seq<char>| #[trigger] w.vault_notes.has(k) implies paths::normal(w.vault_notes.at(k).path)
        == k by {
        assert(v.vault_notes.has(k));
    }
    assert forall|n: Seq<char>| #[trigger] w.doc_to_syms.contains_key(n) implies w.vault_notes.has(n) by {
        assert(v.doc_to_syms.contains_key(n));
    }
}

/// Unlinking every note that is linked into `file` leaves the index sound.
proof fn lemma_unlink_file_is_sound(v: index::IndexView, file: Seq<char>, notes: Set<Seq<char>>)
    requires
        sound_but(v, file),
        forall|n: Seq<char>| #[trigger] update::linked_into(v, file)(n) ==> notes.contains(n),
    ensures
        sound(update::unlinked(v, notes)),
{
    let u = update::unlinked(v, notes);
    law_unlink_keeps_links_mutual(v, notes);
    lemma_same_code(v, u);
    assert forall|n: Seq<char>, r: index::RefView| #[trigger] has_ref(u, n, r) implies stored_with_symbol(
        u,
        n,
        r,
    ) && exists_symbol(u, r.symbol) by {
        assert(has_ref(v, n, r));
        assert(!notes.contains(n));
        if r.symbol.0 == file {
            let i = v.doc_to_syms[n].index_of(r);
            assert(v.doc_to_syms[n][i].symbol.0 == file);
            assert(update::linked_into(v, file)(n));
        }
        let d = choose|d: index::DocView| #[trigger] has_doc(v, r.symbol, d) && d.note_path == n
            && d.confidence == r.confidence;
        lemma_unlinked_docs(v, notes, r.symbol, d);
        assert(has_doc(u, r.symbol, d));
        assert(exists_symbol(v, r.symbol));
    }
    assert forall|k: Seq<char>| #[trigger] u.vault_notes.has(k) implies paths::normal(u.vault_notes.at(k).path)
        == k by {
        assert(v.vault_notes.has(k));
    }
    assert forall|n: Seq<char>| #[trigger] u.doc_to_syms.contains_key(n) implies u.vault_notes.has(n) by {
        assert(v.doc_to_syms.contains_key(n));
    }
}

/// Making the links that a change of `file` can touch anew leaves the index sound.
proof fn lemma_relink_is_sound(
    v: index::IndexView,
    w: index::IndexView,
    file: Seq<char>,
    disk: Set<Seq<char>>,
)
    requires
        sound_but(w, file),
    ensures
        sound(update::relinked(v, w, file, disk)),
{
    let touched = update::affected(v, w, file, disk);
    let u = update::unlinked(w, touched);
    let order = w.vault_notes.order;
    let keys = order.filter(update::member(touched));
    lemma_unlink_file_is_sound(w, file, touched);
    lemma_filter_no_duplicates(order, update::member(touched));
    assert forall|i: int| 0 <= i < keys.len() implies u.vault_notes.has(#[trigger] keys[i])
        && !u.doc_to_syms.contains_key(keys[i]) by {
        assert(keys.contains(keys[i]));
        gather::lemma_filter_contains(order, update::member(touched), keys[i]);
        assert(w.vault_notes.entries.contains_key(keys[i]) <==> order.contains(keys[i]));
    }
    lemma_link_each_is_sound(u, keys, disk);
}

/// A code file that is read anew leaves the index sound, whatever symbols it has gained or lost.
pub proof fn law_reindex_code_is_sound(
    v: index::IndexView,
    file: Seq<char>,
    list: Seq<symbols::SymbolView>,
    disk: Set<Seq<char>>,
)
    requires
        sound(v),
    ensures
        sound(update::with_code(v, file, list, disk)),
{
    lemma_symbols_sound_but(v, file, list);
    lemma_relink_is_sound(v, update::with_symbols(v, file, list), file, disk);
}

/// Entering the files of a walk keeps the index sound: each file is found by its own name.
pub proof fn law_lookup_is_sound(v: index::IndexView, walked: Seq<Seq<char>>)
    requires
        sound(v),
    ensures
        sound(project::with_walk(v, walked)),
    decreases walked.len(),
{
    let w = project::with_walk(v, walked);
    if walked.len() > 0 {
        let path = walked.last();
        let u = project::with_walk(v, walked.drop_last());
        let l = u.file_lookup;
        law_lookup_is_sound(v, walked.drop_last());
        assert forall|f: Seq<char>| #[trigger] w.removed.contains(f) implies !w.code_symbols.has(f) by {
            assert(u.removed.contains(f));
        }
        if let Some(key) = paths::file_name_of(path) {
            let was = project::named_so_far(l, key);
            let files = was.push(paths::normal(path));
            lemma_put_wf(l, key, files);
            paths::law_normal_keeps_components(path);
            let m = l.put(key, files);
            assert forall|name: Seq<char>, i: int|
                m.has(name) && 0 <= i < m.at(name).len() implies paths::file_name_of(
                #[trigger] m.at(name)[i],
            ) == Some(name) by {
                if name != key {
                    assert(paths::file_name_of(l.at(name)[i]) == Some(name));
                } else if i < was.len() {
                    assert(paths::file_name_of(l.at(key)[i]) == Some(key));
                }
            }
            assert forall|name: Seq<char>| #[trigger] m.has(name) implies m.at(name).len() > 0 by {
                if name != key {
                    assert(l.has(name));
                }
            }
        }
    }
    lemma_same_code(v, w);
    lemma_same_links(v, w);
}

/// A code file that is deleted leaves the index sound, and is forgotten: it is found by none of its
/// names, and no link leads into it.
pub proof fn law_remove_code_is_sound(v: index::IndexView, file: Seq<char>, disk: Set<Seq<char>>)
    requires
        sound(v),
    ensures
        sound(update::without_code(v, file, disk)),
        !update::without_code(v, file, disk).code_symbols.has(file),
        update::without_code(v, file, disk).removed.contains(file),
        forall|n: Seq<char>, r: index::RefView| #[trigger]
            has_ref(update::without_code(v, file, disk), n, r) ==> r.symbol.0 != file,
{
    let none = Seq::<symbols::SymbolView>::empty();
    let bare = update::with_symbols(v, file, none);
    let w = update::without_file(v, file);
    let z = update::without_code(v, file, disk);
    lemma_symbols_sound_but(v, file, none);
    lemma_cut_wf(bare.code_symbols, file);
    assert(links_single(w)) by {
        assert forall|s: (Seq<char>, Seq<char>)| #[trigger] w.sym_to_docs.contains_key(s) implies one_per_note(
            w.sym_to_docs[s],
        ) by {
            assert(bare.sym_to_docs.contains_key(s));
        }
        assert forall|n: Seq<char>| #[trigger] w.doc_to_syms.contains_key(n) implies one_per_symbol(
            w.doc_to_syms[n],
        ) by {
            assert(bare.doc_to_syms.contains_key(n));
        }
    }
    assert forall|s: (Seq<char>, Seq<char>)| #[trigger] exists_symbol(w, s) == exists_symbol(bare, s) by {
        if s.0 == file {
            assert(update::names_of(bare, file) =~= Set::empty());
        }
    }
    assert forall|n: Seq<char>| #[trigger] matching::definitions(w, n) == matching::definitions(bare, n) by {}
    assert forall|n: Seq<char>, s: (Seq<char>, Seq<char>)| #[trigger] matching::definitions(w, n).contains(s)
        <==> s.1 == n && exists_symbol(w, s) by {
        assert(matching::definitions(bare, n).contains(s) <==> s.1 == n && exists_symbol(bare, s));
    }
    assert forall|n: Seq<char>| (#[trigger] matching::definitions(w, n)).no_duplicates() by {
        assert(matching::definitions(bare, n).no_duplicates());
    }
    assert forall|s: (Seq<char>, Seq<char>), d: index::DocView| #[trigger] has_doc(w, s, d) implies has_ref(
        w,
        d.note_path,
        index::RefView { symbol: s, confidence: d.confidence },
    ) by {
        assert(has_doc(bare, s, d));
        assert(has_ref(bare, d.note_path, index::RefView { symbol: s, confidence: d.confidence }));
    }
    assert forall|n: Seq<char>, r: index::RefView| #[trigger]
        has_ref(w, n, r) && r.symbol.0 != file implies stored_with_symbol(w, n, r) && exists_symbol(
        w,
        r.symbol,
    ) by {
        assert(has_ref(bare, n, r));
        let d = choose|d: index::DocView| #[trigger] has_doc(bare, r.symbol, d) && d.note_path == n
            && d.confidence == r.confidence;
        assert(has_doc(w, r.symbol, d));
        assert(exists_symbol(bare, r.symbol));
    }
    assert(sound_but(w, file));
    lemma_relink_is_sound(v, w, file, disk);
    let touched = update::affected(v, w, file, disk);
    let keys = w.vault_notes.order.filter(update::member(touched));
    matching::lemma_linked_frame(update::unlinked(w, touched), keys, disk);
    assert forall|n: Seq<char>, r: index::RefView| #[trigger] has_ref(z, n, r) implies r.symbol.0 != file by {
        assert(exists_symbol(z, r.symbol));
    }
}

/// Taking in the symbols of files keeps an index without links sound.
pub proof fn lemma_sources_sound(v: index::IndexView, read: Seq<project::ReadView>)
    requires
        sound(v),
        v.doc_to_syms.dom() == Set::<Seq<char>>::empty(),
    ensures
        sound(project::with_sources(v, read)),
        project::with_sources(v, read).doc_to_syms == v.doc_to_syms,
        project::with_sources(v, read).vault_notes == v.vault_notes,
    decreases read.len(),
{
    if read.len() > 0 {
        let before = project::with_sources(v, read.drop_last());
        lemma_sources_sound(v, read.drop_last());
        if let Some(list) = read.last().symbols {
            let file = paths::normal(read.last().path);
            let w = update::with_symbols(before, file, list);
            lemma_symbols_sound_but(before, file, list);
            assert forall|n: Seq<char>, r: index::RefView| !(#[trigger] has_ref(w, n, r)) by {
                assert(!v.doc_to_syms.dom().contains(n));
            }
        }
    }
}

/// Entering the notes of the vault keeps the index sound.
pub proof fn law_add_notes_is_sound(v: index::IndexView, notes: Seq<vault::NoteView>)
    requires
        sound(v),
    ensures
        sound(index::IndexView { vault_notes: project::with_notes(v.vault_notes, notes), ..v }),
    decreases notes.len(),
{
    if notes.len() > 0 {
        let head = notes.drop_last();
        let u = index::IndexView { vault_notes: project::with_notes(v.vault_notes, head), ..v };
        let key = paths::normal(notes.last().path);
        let w = index::IndexView { vault_notes: u.vault_notes.put(key, notes.last()), ..v };
        law_add_notes_is_sound(v, head);
        lemma_put_wf(u.vault_notes, key, notes.last());
        lemma_same_code(u, w);
        lemma_same_links(u, w);
        assert forall|k: Seq<char>| #[trigger] w.vault_notes.has(k) implies paths::normal(
            w.vault_notes.at(k).path,
        ) == k by {
            if k != key {
                assert(u.vault_notes.has(k));
            }
        }
        assert forall|n: Seq<char>| #[trigger] w.doc_to_syms.contains_key(n) implies w.vault_notes.has(n) by {
            assert(u.doc_to_syms.contains_key(n));
            assert(u.vault_notes.has(n));
        }
    }
}

/// A full build leaves the index sound.
pub proof fn law_build_is_sound(
    v: index::IndexView,
    read: Seq<project::ReadView>,
    disk: Set<Seq<char>>,
)
    requires
        sound(v),
        v.doc_to_syms.dom() == Set::<Seq<char>>::empty(),
    ensures
        sound(project::built(v, read, disk)),
{
    let w = project::with_sources(v, read);
    let keys = v.vault_notes.order;
    lemma_sources_sound(v, read);
    assert forall|i: int| 0 <= i < keys.len() implies w.vault_notes.has(#[trigger] keys[i])
        && !w.doc_to_syms.contains_key(keys[i]) by {
        assert(keys.contains(keys[i]));
        assert(v.vault_notes.entries.contains_key(keys[i]) <==> keys.contains(keys[i]));
        assert(!v.doc_to_syms.dom().contains(keys[i]));
    }
    lemma_link_each_is_sound(w, keys, disk);
}

/// No link that is stored with a symbol is from the note `n`.
pub open spec fn no_docs_from(v: index::IndexView, n: Seq<char>) -> bool {
    forall|s: (Seq<char>, Seq<char>), d: index::DocView| #[trigger] has_doc(v, s, d) ==> d.note_path != n
}

/// What unlinking a note that was just linked leaves with one symbol.
proof fn lemma_unlink_link_at(
    v: index::IndexView,
    note: vault::NoteView,
    links: Seq<matching::LinkView>,
    s: (Seq<char>, Seq<char>),
)
    requires
        no_docs_from(v, paths::normal(note.path)),
        !v.doc_to_syms.contains_key(paths::normal(note.path)),
    ensures
        matching::docs_of(
            update::unlinked(
                matching::with_links(v, note, links),
                set![paths::normal(note.path)],
            ).sym_to_docs,
            s,
        ) == matching::docs_of(v.sym_to_docs, s),
        !matching::links_to(links, s) || matching::docs_of(v.sym_to_docs, s).len() > 0
            || !v.sym_to_docs.contains_key(s) ==> update::unlinked(
            matching::with_links(v, note, links),
            set![paths::normal(note.path)],
        ).sym_to_docs.contains_key(s) == v.sym_to_docs.contains_key(s),
{
    let n = paths::normal(note.path);
    let one = set![n];
    let w = matching::with_links(v, note, links);
    let u = update::unlinked(w, one);
    let was = matching::docs_of(v.sym_to_docs, s);
    let added = gather::gather(links, docs_for(note, s));
    let keep = update::stays(w, one, s);
    lemma_docs_added(v.sym_to_docs, note, links, s);
    assert(update::refers_to(w, n, s) <==> matching::links_to(links, s)) by {
        let refs = matching::refs_of(links);
        if matching::links_to(links, s) {
            let i = choose|i: int| 0 <= i < links.len() && (#[trigger] links[i]).symbol == s;
            assert(refs[i].symbol == s);
        }
        if update::refers_to(w, n, s) {
            let i = choose|i: int|
                0 <= i < w.doc_to_syms[n].len() && (#[trigger] w.doc_to_syms[n][i]).symbol == s;
            assert(links[i].symbol == s);
        }
    }
    assert(update::any_refers(w, one, s) <==> update::refers_to(w, n, s)) by {
        if update::refers_to(w, n, s) {
            assert(one.contains(n));
        }
    }
    if w.sym_to_docs.contains_key(s) {
        assert(w.sym_to_docs[s] == was + added);
        assert forall|i: int| 0 <= i < was.len() implies keep(#[trigger] was[i]) by {
            assert(has_doc(v, s, was[i]));
        }
        gather::lemma_filter_all(was, keep);
        assert forall|i: int| 0 <= i < added.len() implies !keep(#[trigger] added[i]) by {
            gather::lemma_gather_source(links, docs_for(note, s), added[i]);
            assert(added.contains(added[i]));
            let k = choose|k: int|
                0 <= k < links.len() && docs_for(note, s)(#[trigger] links[k]).contains(added[i]);
            assert(links[k].symbol == s);
            assert(matching::links_to(links, s));
        }
        gather::lemma_filter_none(added, keep);
        Seq::filter_distributes_over_add(was, added, keep);
        assert(update::staying(w, one, s) =~= was);
        assert(matching::docs_of(u.sym_to_docs, s) =~= was);
    }
}

/// Unlinking a note undoes its linking.
pub proof fn law_unlink_undoes_link(
    v: index::IndexView,
    note: vault::NoteView,
    links: Seq<matching::LinkView>,
)
    requires
        no_docs_from(v, paths::normal(note.path)),
        !v.doc_to_syms.contains_key(paths::normal(note.path)),
        forall|s: (Seq<char>, Seq<char>)| #[trigger]
            v.sym_to_docs.contains_key(s) && matching::links_to(links, s) ==> v.sym_to_docs[s].len() > 0,
    ensures
        update::unlinked(matching::with_links(v, note, links), set![paths::normal(note.path)]) == v,
{
    let n = paths::normal(note.path);
    let one = set![n];
    let w = matching::with_links(v, note, links);
    let u = update::unlinked(w, one);
    assert forall|s: (Seq<char>, Seq<char>)|
        #![trigger u.sym_to_docs.contains_key(s)]
        #![trigger v.sym_to_docs.contains_key(s)]
        u.sym_to_docs.contains_key(s) == v.sym_to_docs.contains_key(s) && (v.sym_to_docs.contains_key(s)
            ==> u.sym_to_docs[s] == v.sym_to_docs[s]) by {
        lemma_unlink_link_at(v, note, links, s);
    }
    lemma_same_docs(u.sym_to_docs, v.sym_to_docs);
    assert(u.doc_to_syms =~= v.doc_to_syms);
}

/// Links that agree on every symbol are the same.
proof fn lemma_same_docs(
    a: Map<(Seq<char>, Seq<char>), Seq<index::DocView>>,
    b: Map<(Seq<char>, Seq<char>), Seq<index::DocView>>,
)
    requires
        forall|s: (Seq<char>, Seq<char>)|
            #![trigger a.contains_key(s)]
            #![trigger b.contains_key(s)]
            a.contains_key(s) == b.contains_key(s) && (b.contains_key(s) ==> a[s] == b[s]),
    ensures
        a == b,
{
    assert(a.dom() =~= b.dom()) by {
        assert forall|s: (Seq<char>, Seq<char>)| a.dom().contains(s) == b.dom().contains(s) by {
            assert(a.contains_key(s) == b.contains_key(s));
        }
    }
    assert(a =~= b) by {
        assert forall|s: (Seq<char>, Seq<char>)| a.dom().contains(s) implies a[s] == b[s] by {
            assert(b.contains_key(s));
        }
    }
}

/// A note that is read anew is stored as it was read, and reading it anew again while it has not
/// changed changes nothing. It is enough that what is stored as a link of the note is one.
pub proof fn law_reindex_note_again(v: index::IndexView, note: vault::NoteView, disk: Set<Seq<char>>)
    requires
        forall|s: (Seq<char>, Seq<char>), d: index::DocView| #[trigger]
            has_doc(v, s, d) && d.note_path == paths::normal(note.path) ==> update::refers_to(
                v,
                d.note_path,
                s,
            ),
    ensures
        update::with_note(v, note, disk).vault_notes.has(paths::normal(note.path)),
        update::with_note(v, note, disk).vault_notes.at(paths::normal(note.path)) == note,
        update::with_note(update::with_note(v, note, disk), note, disk) == update::with_note(v, note, disk),
{
    let key = paths::normal(note.path);
    let bare = update::unlinked(v, set![key]);
    let w = index::IndexView { vault_notes: bare.vault_notes.put(key, note), ..bare };
    let guess = matching::best_of(matching::scored_files(w, note.title));
    let links = matching::first_of_each(matching::due_links(w, note, disk, guess));
    let x = update::with_note(v, note, disk);
    let u = update::unlinked(x, set![key]);
    let t = index::IndexView { vault_notes: u.vault_notes.put(key, note), ..u };
    let y = update::with_note(x, note, disk);
    assert(set![key].contains(key));
    assert(no_docs_from(w, key)) by {
        assert forall|s: (Seq<char>, Seq<char>), d: index::DocView| #[trigger] has_doc(w, s, d) implies d.note_path
            != key by {
            assert(has_doc(bare, s, d));
            lemma_unlinked_docs(v, set![key], s, d);
        }
    }
    assert(x == matching::with_links(w, note, links));
    matching::lemma_same_due(w, t, note, disk);
    assert(y == matching::with_links(t, note, links));
    assert forall|s: (Seq<char>, Seq<char>)|
        #![trigger y.sym_to_docs.contains_key(s)]
        #![trigger x.sym_to_docs.contains_key(s)]
        y.sym_to_docs.contains_key(s) == x.sym_to_docs.contains_key(s) && (x.sym_to_docs.contains_key(s)
            ==> y.sym_to_docs[s] == x.sym_to_docs[s]) by {
        lemma_unlink_link_at(w, note, links, s);
        lemma_docs_added(w.sym_to_docs, note, links, s);
        lemma_docs_added(t.sym_to_docs, note, links, s);
    }
    lemma_same_docs(y.sym_to_docs, x.sym_to_docs);
    assert(y.doc_to_syms =~= x.doc_to_syms);
    assert(y.vault_notes =~= x.vault_notes);
    assert(y =~= x);
}

/// Linking two notes in either order gives the same links: what a note links to does not depend on
/// the links of another.
pub proof fn law_linking_order_is_free(
    v: index::IndexView,
    a: vault::NoteView,
    b: vault::NoteView,
    disk: Set<Seq<char>>,
    s: (Seq<char>, Seq<char>),
)
    requires
        paths::normal(a.path) != paths::normal(b.path),
    ensures
        ({
            let ab = matching::linked(matching::linked(v, a, disk), b, disk);
            let ba = matching::linked(matching::linked(v, b, disk), a, disk);
            &&& ab.doc_to_syms == ba.doc_to_syms
            &&& ab.sym_to_docs.contains_key(s) == ba.sym_to_docs.contains_key(s)
            &&& matching::docs_of(ab.sym_to_docs, s).to_multiset() == matching::docs_of(
                ba.sym_to_docs,
                s,
            ).to_multiset()
            &&& ab == (index::IndexView { sym_to_docs: ab.sym_to_docs, ..ba })
        }),
{
    let va = matching::linked(v, a, disk);
    let vb = matching::linked(v, b, disk);
    let ab = matching::linked(va, b, disk);
    let ba = matching::linked(vb, a, disk);
    let la = matching::first_of_each(
        matching::due_links(v, a, disk, matching::best_of(matching::scored_files(v, a.title))),
    );
    let lb = matching::first_of_each(
        matching::due_links(v, b, disk, matching::best_of(matching::scored_files(v, b.title))),
    );
    matching::lemma_same_due(v, va, b, disk);
    matching::lemma_same_due(v, vb, a, disk);
    assert(ab == matching::with_links(matching::with_links(v, a, la), b, lb));
    assert(ba == matching::with_links(matching::with_links(v, b, lb), a, la));
    assert(ab.doc_to_syms =~= ba.doc_to_syms);
    lemma_docs_added(v.sym_to_docs, a, la, s);
    lemma_docs_added(va.sym_to_docs, b, lb, s);
    lemma_docs_added(v.sym_to_docs, b, lb, s);
    lemma_docs_added(vb.sym_to_docs, a, la, s);
    let was = matching::docs_of(v.sym_to_docs, s);
    let da = gather::gather(la, docs_for(a, s));
    let db = gather::gather(lb, docs_for(b, s));
    vstd::seq_lib::lemma_multiset_commutative(was + da, db);
    vstd::seq_lib::lemma_multiset_commutative(was, da);
    vstd::seq_lib::lemma_multiset_commutative(was + db, da);
    vstd::seq_lib::lemma_multiset_commutative(was, db);
    assert((was + da + db).to_multiset() =~= (was + db + da).to_multiset());
}

/// How weak a link is: what a file reference makes is the strongest, a guess the weakest.
pub open spec fn weakness(c: index::MatchConfidence) -> int {
    match c {
        index::MatchConfidence::Exact => 0,
        index::MatchConfidence::Strong => 1,
        index::MatchConfidence::Fuzzy => 2,
    }
}

/// The links stand strongest first.
pub open spec fn strongest_first(links: Seq<matching::LinkView>) -> bool {
    forall|i: int, j: int|
        0 <= i < j < links.len() ==> weakness((#[trigger] links[i]).confidence) <= weakness(
            (#[trigger] links[j]).confidence,
        )
}

/// Links that stand strongest first still do when the first to each symbol are kept, and each of
/// these is as strong as any to its symbol.
proof fn lemma_first_is_strongest(links: Seq<matching::LinkView>)
    requires
        strongest_first(links),
    ensures
        strongest_first(matching::first_of_each(links)),
        forall|i: int, j: int|
            0 <= i < matching::first_of_each(links).len() && 0 <= j < links.len() && (
            #[trigger] matching::first_of_each(links)[i]).symbol == (#[trigger] links[j]).symbol ==> weakness(
                matching::first_of_each(links)[i].confidence,
            ) <= weakness(links[j].confidence),
    decreases links.len(),
{
    if links.len() > 0 {
        let head = links.drop_last();
        let last = links.last();
        let kept = matching::first_of_each(head);
        let all = matching::first_of_each(links);
        assert forall|i: int, j: int| 0 <= i < j < head.len() implies weakness((#[trigger] head[i]).confidence)
            <= weakness((#[trigger] head[j]).confidence) by {
            assert(weakness(links[i].confidence) <= weakness(links[j].confidence));
        }
        lemma_first_is_strongest(head);
        assert forall|i: int| 0 <= i < kept.len() implies weakness((#[trigger] kept[i]).confidence) <= weakness(
            last.confidence,
        ) by {
            assert(kept.contains(kept[i]));
            lemma_first_of_each(head, kept[i]);
            let k = head.index_of(kept[i]);
            assert(weakness(links[k].confidence) <= weakness(links[links.len() - 1].confidence));
        }
        assert forall|i: int, j: int| 0 <= i < j < all.len() implies weakness((#[trigger] all[i]).confidence)
            <= weakness((#[trigger] all[j]).confidence) by {
            if j < kept.len() {
                assert(weakness(kept[i].confidence) <= weakness(kept[j].confidence));
            } else {
                assert(weakness(kept[i].confidence) <= weakness(last.confidence));
            }
        }
        law_one_link_per_symbol(head);
        assert forall|i: int, j: int|
            0 <= i < all.len() && 0 <= j < links.len() && (#[trigger] all[i]).symbol == (
            #[trigger] links[j]).symbol implies weakness(all[i].confidence) <= weakness(
            links[j].confidence,
        ) by {
            if i < kept.len() {
                if j < head.len() {
                    assert(kept[i].symbol == head[j].symbol);
                }
            } else if j < head.len() {
                assert(head[j].symbol == last.symbol);
                assert(matching::links_to(head, last.symbol));
                assert(matching::links_to(kept, last.symbol));
            }
        }
    }
}

/// The references of a note stand strongest first, one for each symbol, and each is of the strongest
/// kind that the note has for its symbol.
pub proof fn law_references_strongest_first(
    v: index::IndexView,
    note: vault::NoteView,
    disk: Set<Seq<char>>,
    guess: Option<(Seq<char>, u32)>,
)
    ensures
        ({
            let due = matching::due_links(v, note, disk, guess);
            let links = matching::first_of_each(due);
            &&& one_per_symbol(matching::refs_of(links))
            &&& strongest_first(links)
            &&& forall|i: int, j: int|
                0 <= i < links.len() && 0 <= j < due.len() && (#[trigger] links[i]).symbol == (
                #[trigger] due[j]).symbol ==> weakness(links[i].confidence) <= weakness(due[j].confidence)
            &&& forall|s: (Seq<char>, Seq<char>)| #[trigger]
                matching::links_to(links, s) <==> matching::links_to(due, s)
        }),
{
    let exact = matching::exact_links(v, note, disk);
    let strong = matching::strong_links(v, note);
    let last = matching::fuzzy_links(v, guess);
    let due = matching::due_links(v, note, disk, guess);
    assert forall|k: int| 0 <= k < due.len() implies weakness((#[trigger] due[k]).confidence) == (if k
        < exact.len() {
        0
    } else if k < exact.len() + strong.len() {
        1int
    } else {
        2
    }) by {
        if k < exact.len() {
            assert(exact[k] == due[k]);
            assert(exact.contains(due[k]));
            lemma_exact_links(v, note, disk, due[k]);
        } else if k < exact.len() + strong.len() {
            assert(strong[k - exact.len()] == due[k]);
            assert(strong.contains(due[k]));
            lemma_strong_links(v, note, due[k]);
        } else {
            assert(last[k - exact.len() - strong.len()] == due[k]);
        }
    }
    lemma_first_is_strongest(due);
    law_one_link_per_symbol(due);
    let links = matching::first_of_each(due);
    let refs = matching::refs_of(links);
    assert forall|i: int, j: int| 0 <= i < j < refs.len() implies (#[trigger] refs[i]).symbol != (
    #[trigger] refs[j]).symbol by {
        assert(links[i].symbol != links[j].symbol);
    }
}

/// The link at `i`, and no other, is from the note `n`, and it has this confidence.
pub open spec fn only_link(docs: Seq<index::DocView>, i: int, n: Seq<char>, c: index::MatchConfidence) -> bool {
    &&& 0 <= i < docs.len()
    &&& docs[i].note_path == n
    &&& docs[i].confidence == c
    &&& forall|j: int| 0 <= j < docs.len() && (#[trigger] docs[j]).note_path == n ==> j == i
}

/// Where no two links are from the same note, one from the note is the only one.
proof fn lemma_only_link(docs: Seq<index::DocView>, i: int)
    requires
        one_per_note(docs),
        0 <= i < docs.len(),
    ensures
        only_link(docs, i, docs[i].note_path, docs[i].confidence),
{
    assert forall|j: int| 0 <= j < docs.len() && (#[trigger] docs[j]).note_path == docs[i].note_path implies j
        == i by {
        if i < j {
            assert(docs[i].note_path != docs[j].note_path);
        }
        if j < i {
            assert(docs[j].note_path != docs[i].note_path);
        }
    }
}

/// Each reference of a note is stored exactly once with its symbol, with the same confidence.
pub proof fn law_link_is_stored_once(v: index::IndexView, n: Seq<char>, r: index::RefView)
    requires
        refs_backed(v),
        links_single(v),
        has_ref(v, n, r),
    ensures
        v.sym_to_docs.contains_key(r.symbol),
        exists|i: int| #[trigger] only_link(v.sym_to_docs[r.symbol], i, n, r.confidence),
{
    let d = choose|d: index::DocView| #[trigger] has_doc(v, r.symbol, d) && d.note_path == n && d.confidence
        == r.confidence;
    let docs = v.sym_to_docs[r.symbol];
    let i = docs.index_of(d);
    assert(docs[i] == d);
    lemma_only_link(docs, i);
    assert(only_link(docs, i, n, r.confidence));
}

/// What linking a note stores with symbols carries the title and the type of the note.
pub proof fn law_link_carries_note(
    v: index::IndexView,
    note: vault::NoteView,
    links: Seq<matching::LinkView>,
    s: (Seq<char>, Seq<char>),
    d: index::DocView,
)
    requires
        no_docs_from(v, paths::normal(note.path)),
        has_doc(matching::with_links(v, note, links), s, d),
        d.note_path == paths::normal(note.path),
    ensures
        d.note_title == note.title,
        d.note_type == note.note_type,
        exists|i: int| 0 <= i < links.len() && (#[trigger] links[i]).symbol == s && links[i].confidence
            == d.confidence && links[i].context == d.context,
{
    lemma_linked_docs(v, note, links, s, d);
    assert(!has_doc(v, s, d));
    let i = choose|i: int|
        0 <= i < links.len() && (#[trigger] links[i]).symbol == s && matching::doc_of(note, links[i]) == d;
    assert(links[i].symbol == s);
}

/// A guess from the title counts only where no file reference made a link.
pub proof fn law_exact_suppresses_guess(
    v: index::IndexView,
    note: vault::NoteView,
    disk: Set<Seq<char>>,
    guess: Option<(Seq<char>, u32)>,
    l: matching::LinkView,
)
    requires
        matching::due_links(v, note, disk, guess).contains(l),
        l.confidence == index::MatchConfidence::Fuzzy,
    ensures
        matching::exact_links(v, note, disk).len() == 0,
        matching::fuzzy_links(v, guess).contains(l),
{
    let exact = matching::exact_links(v, note, disk);
    let strong = matching::strong_links(v, note);
    let k = matching::due_links(v, note, disk, guess).index_of(l);
    if k < exact.len() {
        assert(exact[k] == l);
        lemma_exact_links(v, note, disk, l);
    } else if k < exact.len() + strong.len() {
        assert(strong[k - exact.len()] == l);
        lemma_strong_links(v, note, l);
    } else {
        assert(matching::fuzzy_links(v, guess)[k - exact.len() - strong.len()] == l);
    }
}

/// Links from file references are exact.
proof fn lemma_exact_links(
    v: index::IndexView,
    note: vault::NoteView,
    disk: Set<Seq<char>>,
    l: matching::LinkView,
)
    requires
        matching::exact_links(v, note, disk).contains(l),
    ensures
        l.confidence == index::MatchConfidence::Exact,
{
    gather::lemma_gather_source(note.file_refs, matching::ref_links(v, note.summary, disk), l);
    let i = choose|i: int|
        0 <= i < note.file_refs.len() && matching::ref_links(v, note.summary, disk)(
            #[trigger] note.file_refs[i],
        ).contains(l);
    let fr = note.file_refs[i];
    let files = resolve::resolved(v, fr, disk);
    let f = matching::file_links(v, fr.line, note.summary);
    gather::lemma_gather_source(files, f, l);
    let j = choose|j: int| 0 <= j < files.len() && f(#[trigger] files[j]).contains(l);
    let list = v.code_symbols.at(files[j]);
    let g = matching::symbol_links(files[j], fr.line, note.summary);
    gather::lemma_gather_source(list, g, l);
}

/// Links from identifiers are strong, and come from a telling one.
proof fn lemma_strong_links(v: index::IndexView, note: vault::NoteView, l: matching::LinkView)
    requires
        matching::strong_links(v, note).contains(l),
    ensures
        l.confidence == index::MatchConfidence::Strong,
        exists|i: int|
            0 <= i < note.code_idents.len() && matching::is_telling(v, #[trigger] note.code_idents[i])
                && matching::definitions(v, note.code_idents[i]).contains(l.symbol),
{
    gather::lemma_gather_source(note.code_idents, matching::ident_links(v), l);
    let i = choose|i: int|
        0 <= i < note.code_idents.len() && matching::ident_links(v)(#[trigger] note.code_idents[i]).contains(l);
    let name = note.code_idents[i];
    let ids = matching::definitions(v, name);
    let made = matching::strong_to(ids, name);
    let j = made.index_of(l);
    assert(made[j].symbol == ids[j]);
    assert(ids.contains(l.symbol));
    assert(matching::is_telling(v, note.code_idents[i]));
}

/// An identifier links only where it is long enough and has few enough definitions: one that is too
/// generic, or too ambiguous, links to none of them.
pub proof fn law_only_telling_names_link(
    v: index::IndexView,
    note: vault::NoteView,
    disk: Set<Seq<char>>,
    guess: Option<(Seq<char>, u32)>,
    l: matching::LinkView,
)
    requires
        matching::due_links(v, note, disk, guess).contains(l),
        l.confidence == index::MatchConfidence::Strong,
    ensures
        exists|i: int|
            0 <= i < note.code_idents.len() && matching::is_telling(v, #[trigger] note.code_idents[i])
                && matching::definitions(v, note.code_idents[i]).contains(l.symbol),
{
    let exact = matching::exact_links(v, note, disk);
    let strong = matching::strong_links(v, note);
    let k = matching::due_links(v, note, disk, guess).index_of(l);
    if k < exact.len() {
        assert(exact[k] == l);
        lemma_exact_links(v, note, disk, l);
    } else if k < exact.len() + strong.len() {
        assert(strong[k - exact.len()] == l);
        lemma_strong_links(v, note, l);
    } else {
        assert(matching::fuzzy_links(v, guess)[k - exact.len() - strong.len()] == l);
    }
}

/// The file at `i` reaches the score.
pub open spec fn reaches(scored: Seq<(Seq<char>, Option<u32>)>, i: int, score: u32) -> bool {
    0 <= i < scored.len() && match scored[i].1 {
        Some(s) => s >= score,
        None => false,
    }
}

/// The guess is the first of the files with the highest score, and none where no score reaches the
/// threshold.
pub proof fn law_guess_is_best(scored: Seq<(Seq<char>, Option<u32>)>)
    ensures
        match matching::best_of(scored) {
            Some((file, score)) => score >= matching::FUZZY_SCORE_THRESHOLD && exists|i: int|
                0 <= i < scored.len() && #[trigger] scored[i] == (file, Some(score)) && (forall|j: int|
                    #[trigger] reaches(scored, j, score) ==> i <= j && scored[j].1 == Some(score)),
            None => forall|j: int| !(#[trigger] reaches(scored, j, matching::FUZZY_SCORE_THRESHOLD)),
        },
    decreases scored.len(),
{
    if scored.len() > 0 {
        let head = scored.drop_last();
        let last = scored.len() - 1;
        law_guess_is_best(head);
        assert forall|j: int, s: u32| 0 <= j < last implies #[trigger] reaches(scored, j, s) == reaches(head, j, s) by {
            assert(head[j] == scored[j]);
        }
        match matching::best_of(head) {
            Some((file, score)) => {
                let i = choose|i: int|
                    0 <= i < head.len() && #[trigger] head[i] == (file, Some(score)) && (forall|j: int|
                        #[trigger] reaches(head, j, score) ==> i <= j && head[j].1 == Some(score));
                assert(scored[i] == (file, Some(score)));
                if matching::best_of(scored) == Some((file, score)) {
                    assert forall|j: int| #[trigger] reaches(scored, j, score) implies i <= j && scored[j].1
                        == Some(score) by {
                        if j < last {
                            assert(reaches(head, j, score));
                            assert(head[j] == scored[j]);
                        }
                    }
                } else {
                    let top = scored[last].1->0;
                    assert forall|j: int| #[trigger] reaches(scored, j, top) implies last <= j && scored[j].1
                        == Some(top) by {
                        if j < last {
                            assert(reaches(scored, j, score));
                            assert(reaches(head, j, score));
                            assert(head[j] == scored[j]);
                        }
                    }
                    assert(scored[last] == (scored[last].0, Some(top)));
                }
            },
            None => {
                if let Some((file, score)) = matching::best_of(scored) {
                    assert forall|j: int| #[trigger] reaches(scored, j, score) implies last <= j && scored[j].1
                        == Some(score) by {
                        if j < last {
                            assert(reaches(scored, j, matching::FUZZY_SCORE_THRESHOLD));
                            assert(reaches(head, j, matching::FUZZY_SCORE_THRESHOLD));
                        }
                    }
                    assert(scored[last] == (file, Some(score)));
                } else {
                    assert forall|j: int| !(#[trigger] reaches(
                        scored,
                        j,
                        matching::FUZZY_SCORE_THRESHOLD,
                    )) by {
                        if 0 <= j < last {
                            assert(!reaches(head, j, matching::FUZZY_SCORE_THRESHOLD));
                        }
                    }
                }
            },
        }
    }
}

/// A symbol's verified links are those of its links that are no guesses.
pub proof fn law_verified_links_are_no_guesses(
    v: index::IndexView,
    symbol: (Seq<char>, Seq<char>),
    d: index::DocView,
)
    ensures
        matching::docs_of(v.sym_to_docs, symbol).contains(d) <==> has_doc(v, symbol, d),
        matching::docs_of(v.sym_to_docs, symbol).filter(update::traceable()).contains(d) <==> has_doc(
            v,
            symbol,
            d,
        ) && d.confidence != index::MatchConfidence::Fuzzy,
{
    gather::lemma_filter_contains(matching::docs_of(v.sym_to_docs, symbol), update::traceable(), d);
}

/// The bound on indexed files never costs a file that a note refers to; it costs others only where
/// they would exceed it, and then it is met.
pub proof fn law_bound_keeps_documented(
    files: project::CodeFiles,
    v: index::IndexView,
    disk: Set<Seq<char>>,
    limit: nat,
)
    requires
        files.selects(v, disk, limit),
    ensures
        forall|p: Seq<char>| #[trigger]
            project::documented(v, disk).contains(p) ==> files.files.deep_view().contains(p),
        files.files.deep_view().len() <= limit || files.files.deep_view().len() == files.referenced,
        files.dropped > 0 ==> files.files.deep_view().len() >= limit,
{
    let all = files.files.deep_view();
    let first = all.take(files.referenced as int);
    assert forall|p: Seq<char>| #[trigger] project::documented(v, disk).contains(p) implies all.contains(p) by {
        assert(first.to_set().contains(p));
        let i = first.index_of(p);
        assert(all[i] == p);
    }
}

/// Adding up is the same without one of the symbols, but for what it adds.
proof fn lemma_links_without(
    docs: Map<(Seq<char>, Seq<char>), Seq<index::DocView>>,
    keys: Seq<(Seq<char>, Seq<char>)>,
    i: int,
)
    requires
        0 <= i < keys.len(),
    ensures
        reports::traceable_links(docs, keys) == reports::traceable_links(docs, keys.remove(i))
            + docs[keys[i]].filter(update::traceable()).len(),
    decreases keys.len(),
{
    let head = keys.drop_last();
    if i == keys.len() - 1 {
        assert(keys.remove(i) =~= head);
    } else {
        lemma_links_without(docs, head, i);
        assert(keys.remove(i).drop_last() =~= head.remove(i));
        assert(keys.remove(i).last() == keys.last());
        assert(head[i] == keys[i]);
    }
}

/// The number of links does not depend on the order in which the symbols are walked.
pub proof fn law_link_count_is_unique(
    docs: Map<(Seq<char>, Seq<char>), Seq<index::DocView>>,
    a: Seq<(Seq<char>, Seq<char>)>,
    b: Seq<(Seq<char>, Seq<char>)>,
)
    requires
        a.no_duplicates(),
        b.no_duplicates(),
        a.to_set() == b.to_set(),
    ensures
        reports::traceable_links(docs, a) == reports::traceable_links(docs, b),
    decreases a.len(),
{
    if a.len() == 0 {
        if b.len() > 0 {
            assert(b.to_set().contains(b[0]));
            assert(a.to_set().contains(b[0]));
        }
    } else {
        let k = a.last();
        assert(a[a.len() - 1] == k);
        assert(a.to_set().contains(k));
        assert(b.to_set().contains(k));
        let i = b.index_of(k);
        let rest = b.remove(i);
        let head = a.drop_last();
        lemma_links_without(docs, b, i);
        assert forall|x: (Seq<char>, Seq<char>)| head.to_set().contains(x) <==> rest.to_set().contains(x) by {
            if head.contains(x) {
                let j = head.index_of(x);
                assert(a[j] == x);
                assert(x != k);
                assert(a.contains(x));
                assert(a.to_set().contains(x));
                assert(b.to_set().contains(x));
                assert(b.contains(x));
                let m = b.index_of(x);
                assert(b[m] == x);
                if m < i {
                    assert(rest[m] == x);
                } else {
                    assert(rest[m - 1] == x);
                }
            }
            if rest.contains(x) {
                let m = rest.index_of(x);
                let at = if m < i { m } else { m + 1 };
                assert(b[at] == x);
                assert(x != k);
                assert(b.contains(x));
                assert(b.to_set().contains(x));
                assert(a.to_set().contains(x));
                assert(a.contains(x));
                let j = a.index_of(x);
                assert(a[j] == x);
                assert(head[j] == x);
            }
        }
        assert(head.to_set() =~= rest.to_set());
        assert forall|p: int, q: int| 0 <= p < q < rest.len() implies rest[p] != rest[q] by {
            let x = if p < i { p } else { p + 1 };
            let y = if q < i { q } else { q + 1 };
            assert(rest[p] == b[x] && rest[q] == b[y]);
        }
        law_link_count_is_unique(docs, head, rest);
    }
}

/// No more notes are counted as linked than there are.
pub proof fn law_coverage_is_a_share(c: reports::Coverage, v: index::IndexView)
    requires
        sound(v),
        c.measures(v),
    ensures
        c.linked <= c.notes,
{
    let linked = reports::documenting(v);
    let order = v.vault_notes.order;
    order.lemma_cardinality_of_set();
    assert(linked.subset_of(order.to_set())) by {
        assert forall|n: Seq<char>| linked.contains(n) implies order.to_set().contains(n) by {
            assert(v.doc_to_syms.contains_key(n));
            assert(v.vault_notes.has(n));
            assert(v.vault_notes.entries.contains_key(n) <==> order.contains(n));
        }
    }
    vstd::set_lib::lemma_len_subset(linked, order.to_set());
}

/// Whatever changes on disk, the index stays sound.
pub proof fn law_changes_keep_index_sound(
    v: index::IndexView,
    event: watch::EventView,
    content: Option<Seq<char>>,
    list: Seq<symbols::SymbolView>,
    disk: Set<Seq<char>>,
)
    requires
        sound(v),
    ensures
        sound(watch::applied(v, event, content, list, disk)),
{
    match (event, content) {
        (watch::EventView::VaultNoteChanged(path), Some(s)) => {
            law_reindex_note_is_sound(v, notes::note_in(path, s), disk);
        },
        (watch::EventView::VaultNoteRemoved(path), _) => {
            law_remove_note_is_sound(v, paths::normal(path));
        },
        (watch::EventView::CodeFileChanged(path), Some(s)) => {
            law_reindex_code_is_sound(v, paths::normal(path), list, disk);
        },
        (watch::EventView::CodeFileRemoved(path), _) => {
            law_remove_code_is_sound(v, paths::normal(path), disk);
        },
        _ => {},
    }
}

/// Making links anew changes neither the files nor the notes.
pub proof fn lemma_relink_frame(
    v: index::IndexView,
    w: index::IndexView,
    file: Seq<char>,
    disk: Set<Seq<char>>,
)
    ensures
        update::relinked(v, w, file, disk) == (index::IndexView {
            sym_to_docs: update::relinked(v, w, file, disk).sym_to_docs,
            doc_to_syms: update::relinked(v, w, file, disk).doc_to_syms,
            ..w
        }),
{
    let touched = update::affected(v, w, file, disk);
    let keys = w.vault_notes.order.filter(update::member(touched));
    matching::lemma_linked_frame(update::unlinked(w, touched), keys, disk);
}

} // verus!
