//! Where titles are scored: an index in which the title of every note can be scored for every file
//! stays so, and every note of it can be linked.
use crate::index;
use crate::laws;
use crate::matching;
use crate::notes;
use crate::paths;
use crate::project;
use crate::symbols;
use crate::update;
use crate::watch;
use vstd::prelude::*;

verus! {

/// Where every title can be scored, every note can be linked.
pub proof fn law_scorable_is_linkable(v: index::IndexView, disk: Set<Seq<char>>)
    requires
        matching::titles_scorable(v),
    ensures
        matching::all_linkable(v, disk),
{
    assert forall|k: Seq<char>| #[trigger] v.vault_notes.has(k) implies matching::linkable(
        v,
        v.vault_notes.at(k),
        disk,
    ) by {
        assert(matching::title_scorable(v, v.vault_notes.at(k).title));
    }
}

/// Files from among those of an index, or that can be scored for every title, can be scored too.
proof fn lemma_scorable_among(v: index::IndexView, w: index::IndexView, file: Seq<char>)
    requires
        matching::titles_scorable(v),
        matching::scorable_for_all(v, file),
        w.vault_notes == v.vault_notes,
        forall|i: int|
            0 <= i < w.code_symbols.order.len() ==> v.code_symbols.order.contains(
                #[trigger] w.code_symbols.order[i],
            ) || w.code_symbols.order[i] == file,
    ensures
        matching::titles_scorable(w),
{
    assert forall|k: Seq<char>| #[trigger] w.vault_notes.has(k) implies matching::title_scorable(
        w,
        w.vault_notes.at(k).title,
    ) by {
        assert(v.vault_notes.has(k));
        let title = v.vault_notes.at(k).title;
        assert forall|i: int| 0 <= i < w.code_symbols.order.len() implies matching::file_scorable(
            title,
            #[trigger] w.code_symbols.order[i],
        ) by {
            let f = w.code_symbols.order[i];
            if v.code_symbols.order.contains(f) {
                let j = v.code_symbols.order.index_of(f);
                assert(matching::file_scorable(title, v.code_symbols.order[j]));
            }
        }
    }
}

/// A file whose name can be scored for every title may be put in.
proof fn lemma_put_scorable(v: index::IndexView, file: Seq<char>, list: Seq<symbols::SymbolView>)
    requires
        matching::titles_scorable(v),
        matching::scorable_for_all(v, file),
    ensures
        matching::titles_scorable(update::with_symbols(v, file, list)),
{
    let w = update::with_symbols(v, file, list);
    assert forall|i: int| 0 <= i < w.code_symbols.order.len() implies v.code_symbols.order.contains(
        #[trigger] w.code_symbols.order[i],
    ) || w.code_symbols.order[i] == file by {
        if i < v.code_symbols.order.len() {
            assert(v.code_symbols.order[i] == w.code_symbols.order[i]);
        }
    }
    lemma_scorable_among(v, w, file);
}

/// The files that stay when one is deleted were there.
proof fn lemma_left_were_there(v: index::IndexView, file: Seq<char>)
    requires
        v.code_symbols.wf(),
    ensures
        forall|i: int|
            0 <= i < update::without_file(v, file).code_symbols.order.len() ==> v.code_symbols.order.contains(
                #[trigger] update::without_file(v, file).code_symbols.order[i],
            ),
{
    let bare = update::with_symbols(v, file, Seq::empty());
    let left = update::without_file(v, file);
    let held = bare.code_symbols.order;
    laws::lemma_put_wf(v.code_symbols, file, Seq::empty());
    laws::lemma_cut_wf(bare.code_symbols, file);
    assert forall|i: int| 0 <= i < left.code_symbols.order.len() implies v.code_symbols.order.contains(
        #[trigger] left.code_symbols.order[i],
    ) by {
        let f = left.code_symbols.order[i];
        assert(left.code_symbols.order.contains(f));
        assert(left.code_symbols.entries.contains_key(f));
        assert(bare.code_symbols.has(file));
        assert(v.code_symbols.entries.contains_key(f));
    }
}

/// A file whose name can be scored for every title can be taken in, whatever symbols it has.
pub proof fn law_scorable_file_is_taken(v: index::IndexView, file: Seq<char>, disk: Set<Seq<char>>)
    requires
        matching::titles_scorable(v),
        matching::scorable_for_all(v, file),
    ensures
        update::takes(v, file, disk),
{
    assert forall|list: Seq<symbols::SymbolView>| matching::all_linkable(
        #[trigger] update::with_symbols(v, file, list),
        disk,
    ) by {
        lemma_put_scorable(v, file, list);
        law_scorable_is_linkable(update::with_symbols(v, file, list), disk);
    }
}

/// Where every title can be scored, any file can be deleted.
pub proof fn law_scorable_file_is_dropped(v: index::IndexView, file: Seq<char>, disk: Set<Seq<char>>)
    requires
        v.code_symbols.wf(),
        matching::titles_scorable(v),
    ensures
        matching::titles_scorable(update::without_file(v, file)),
        update::relinkable(v, update::without_file(v, file), file, disk),
{
    let w = update::without_file(v, file);
    lemma_left_were_there(v, file);
    assert forall|k: Seq<char>| #[trigger] w.vault_notes.has(k) implies matching::title_scorable(
        w,
        w.vault_notes.at(k).title,
    ) && (v.code_symbols.has(file) ==> matching::file_scorable(w.vault_notes.at(k).title, file)) by {
        assert(v.vault_notes.has(k));
        let title = v.vault_notes.at(k).title;
        let order = v.code_symbols.order;
        assert(matching::title_scorable(v, title));
        assert forall|i: int| 0 <= i < w.code_symbols.order.len() implies matching::file_scorable(
            title,
            #[trigger] w.code_symbols.order[i],
        ) by {
            assert(matching::file_scorable(title, order[order.index_of(w.code_symbols.order[i])]));
        }
        if v.code_symbols.has(file) {
            assert(v.code_symbols.entries.contains_key(file) <==> order.contains(file));
            assert(matching::file_scorable(title, order[order.index_of(file)]));
        }
    }
}

/// Taking in the symbols of files whose names can be scored keeps every title so.
proof fn lemma_sources_scorable(v: index::IndexView, read: Seq<project::ReadView>)
    requires
        matching::titles_scorable(v),
        forall|i: int|
            0 <= i < read.len() ==> matching::scorable_for_all(v, paths::normal((#[trigger] read[i]).path)),
    ensures
        matching::titles_scorable(project::with_sources(v, read)),
        project::with_sources(v, read).vault_notes == v.vault_notes,
    decreases read.len(),
{
    if read.len() > 0 {
        let head = read.drop_last();
        let u = project::with_sources(v, head);
        assert forall|i: int| 0 <= i < head.len() implies matching::scorable_for_all(
            v,
            paths::normal((#[trigger] head[i]).path),
        ) by {
            assert(head[i] == read[i]);
        }
        lemma_sources_scorable(v, head);
        let file = paths::normal(read.last().path);
        assert(matching::scorable_for_all(v, paths::normal(read[read.len() - 1].path)));
        if let Some(list) = read.last().symbols {
            assert(matching::scorable_for_all(u, file)) by {
                assert forall|k: Seq<char>| #[trigger] u.vault_notes.has(k) implies matching::file_scorable(
                    u.vault_notes.at(k).title,
                    file,
                ) by {
                    assert(v.vault_notes.has(k));
                }
            }
            lemma_put_scorable(u, file, list);
        }
    }
}

/// Files whose names can be scored for every title can be taken in, whatever symbols they have.
pub proof fn law_scorable_sources_are_taken(
    v: index::IndexView,
    sources: Seq<project::SourceView>,
    disk: Set<Seq<char>>,
)
    requires
        matching::titles_scorable(v),
        forall|i: int|
            0 <= i < sources.len() ==> matching::scorable_for_all(
                v,
                paths::normal((#[trigger] sources[i]).path),
            ),
    ensures
        project::takes_sources(v, sources, disk),
{
    assert forall|read: Seq<project::ReadView>| #[trigger]
        project::same_paths(sources, read) implies matching::all_linkable(
        project::with_sources(v, read),
        disk,
    ) by {
        assert forall|i: int| 0 <= i < read.len() implies matching::scorable_for_all(
            v,
            paths::normal((#[trigger] read[i]).path),
        ) by {
            assert(read[i].path == sources[i].path);
        }
        lemma_sources_scorable(v, read);
        law_scorable_is_linkable(project::with_sources(v, read), disk);
    }
}

/// What can be scored does not depend on links.
proof fn lemma_same_scorable(v: index::IndexView, w: index::IndexView)
    requires
        matching::titles_scorable(v),
        w.code_symbols == v.code_symbols,
        w.vault_notes == v.vault_notes,
    ensures
        matching::titles_scorable(w),
{
    assert forall|k: Seq<char>| #[trigger] w.vault_notes.has(k) implies matching::title_scorable(
        w,
        w.vault_notes.at(k).title,
    ) by {
        assert(v.vault_notes.has(k));
        let title = v.vault_notes.at(k).title;
        assert forall|i: int| 0 <= i < w.code_symbols.order.len() implies matching::file_scorable(
            title,
            #[trigger] w.code_symbols.order[i],
        ) by {
            assert(matching::file_scorable(title, v.code_symbols.order[i]));
        }
    }
}

/// A full build from files whose names can be scored for every title keeps every title so.
pub proof fn law_build_is_scorable(
    v: index::IndexView,
    read: Seq<project::ReadView>,
    disk: Set<Seq<char>>,
)
    requires
        matching::titles_scorable(v),
        forall|i: int|
            0 <= i < read.len() ==> matching::scorable_for_all(v, paths::normal((#[trigger] read[i]).path)),
    ensures
        matching::titles_scorable(project::built(v, read, disk)),
{
    let w = project::with_sources(v, read);
    lemma_sources_scorable(v, read);
    matching::lemma_linked_frame(w, v.vault_notes.order, disk);
    lemma_same_scorable(w, project::built(v, read, disk));
}

/// A change that is accepted can be followed.
pub proof fn law_accepted_change_fits(
    v: index::IndexView,
    event: watch::EventView,
    content: Option<Seq<char>>,
    disk: Set<Seq<char>>,
)
    requires
        v.code_symbols.wf(),
        matching::titles_scorable(v),
        watch::keeps_scorable(v, event, content),
    ensures
        watch::event_fits(v, event, content, disk),
{
    match (event, content) {
        (watch::EventView::CodeFileChanged(path), Some(s)) => {
            if symbols::supported(path) {
                law_scorable_file_is_taken(v, paths::normal(path), disk);
            }
        },
        (watch::EventView::CodeFileRemoved(path), _) => {
            law_scorable_file_is_dropped(v, paths::normal(path), disk);
        },
        _ => {},
    }
}

/// Whatever changes on disk, as long as it is accepted, every title can still be scored for every
/// file, so that the next change can be followed too.
pub proof fn law_changes_keep_index_scorable(
    v: index::IndexView,
    event: watch::EventView,
    content: Option<Seq<char>>,
    list: Seq<symbols::SymbolView>,
    disk: Set<Seq<char>>,
)
    requires
        v.code_symbols.wf(),
        matching::titles_scorable(v),
        watch::keeps_scorable(v, event, content),
    ensures
        matching::titles_scorable(watch::applied(v, event, content, list, disk)),
{
    let w = watch::applied(v, event, content, list, disk);
    match (event, content) {
        (watch::EventView::VaultNoteChanged(path), Some(s)) => {
            let note = notes::note_in(path, s);
            let key = paths::normal(note.path);
            assert forall|k: Seq<char>| #[trigger] w.vault_notes.has(k) implies matching::title_scorable(
                w,
                w.vault_notes.at(k).title,
            ) by {
                if k != key {
                    assert(v.vault_notes.has(k));
                }
                let title = w.vault_notes.at(k).title;
                assert(matching::title_scorable(v, title));
                assert forall|i: int| 0 <= i < w.code_symbols.order.len() implies matching::file_scorable(
                    title,
                    #[trigger] w.code_symbols.order[i],
                ) by {
                    assert(matching::file_scorable(title, v.code_symbols.order[i]));
                }
            }
        },
        (watch::EventView::VaultNoteRemoved(path), _) => {
            assert forall|k: Seq<char>| #[trigger] w.vault_notes.has(k) implies matching::title_scorable(
                w,
                w.vault_notes.at(k).title,
            ) by {
                assert(v.vault_notes.has(k));
                let title = w.vault_notes.at(k).title;
                assert(matching::title_scorable(v, title));
                assert forall|i: int| 0 <= i < w.code_symbols.order.len() implies matching::file_scorable(
                    title,
                    #[trigger] w.code_symbols.order[i],
                ) by {
                    assert(matching::file_scorable(title, v.code_symbols.order[i]));
                }
            }
        },
        (watch::EventView::CodeFileChanged(path), Some(s)) => {
            if watch::is_readable(event, content) {
                let file = paths::normal(path);
                symbols::law_extracts_supported(path, s, list);
                lemma_put_scorable(v, file, list);
                laws::lemma_relink_frame(v, update::with_symbols(v, file, list), file, disk);
                lemma_same_scorable(update::with_symbols(v, file, list), w);
            }
        },
        (watch::EventView::CodeFileRemoved(path), _) => {
            let file = paths::normal(path);
            law_scorable_file_is_dropped(v, file, disk);
            laws::lemma_relink_frame(v, update::without_file(v, file), file, disk);
            lemma_same_scorable(update::without_file(v, file), w);
        },
        _ => {},
    }
}

} // verus!
