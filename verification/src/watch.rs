//! Changes on disk, as they concern the index.
use crate::index;
use crate::index::{Disk, Index};
use crate::matching;
use crate::notes;
use crate::paths;
use crate::project;
use crate::scoring;
use crate::symbols;
use crate::text;
use crate::update;
use crate::vault;
use vstd::prelude::*;
use vstd::string::*;

verus! {

/// Events emitted by the file watcher.
#[derive(Debug, PartialEq, Eq)]
pub enum WatchEvent {
    /// A vault note was created or modified.
    VaultNoteChanged(String),
    /// A vault note was removed.
    VaultNoteRemoved(String),
    /// A code file was created or modified.
    CodeFileChanged(String),
    /// A code file was removed.
    CodeFileRemoved(String),
}

/// The contents of a [`WatchEvent`].
#[verifier::ext_equal]
pub enum EventView {
    VaultNoteChanged(Seq<char>),
    VaultNoteRemoved(Seq<char>),
    CodeFileChanged(Seq<char>),
    CodeFileRemoved(Seq<char>),
}

impl DeepView for WatchEvent {
    type V = EventView;

    open spec fn deep_view(&self) -> EventView {
        match self {
            WatchEvent::VaultNoteChanged(path) => EventView::VaultNoteChanged(path@),
            WatchEvent::VaultNoteRemoved(path) => EventView::VaultNoteRemoved(path@),
            WatchEvent::CodeFileChanged(path) => EventView::CodeFileChanged(path@),
            WatchEvent::CodeFileRemoved(path) => EventView::CodeFileRemoved(path@),
        }
    }
}

impl Clone for WatchEvent {
    fn clone(&self) -> (r: Self)
        ensures
            r.deep_view() == self.deep_view(),
    {
        match self {
            WatchEvent::VaultNoteChanged(path) => WatchEvent::VaultNoteChanged(path.clone()),
            WatchEvent::VaultNoteRemoved(path) => WatchEvent::VaultNoteRemoved(path.clone()),
            WatchEvent::CodeFileChanged(path) => WatchEvent::CodeFileChanged(path.clone()),
            WatchEvent::CodeFileRemoved(path) => WatchEvent::CodeFileRemoved(path.clone()),
        }
    }
}

/// The file is a note, by its extension.
pub open spec fn markdown(path: Seq<char>) -> bool {
    paths::extension_of(path) == Some("md"@)
}

/// Whether the file is a note, by its extension.
pub fn is_markdown(path: &str) -> (r: bool)
    ensures
        r == markdown(path@),
{
    match paths::extension(path) {
        Some(ext) => text::same(ext.as_str(), "md"),
        None => false,
    }
}

/// What a change at `path` means, where `exists` says whether a file is there now. In the vault
/// only notes count, and not what the note editor keeps for itself; elsewhere only source files.
pub open spec fn event_for(vault_root: Seq<char>, path: Seq<char>, exists: bool) -> Option<EventView> {
    if paths::lies_under(path, vault_root) {
        if markdown(path) && !vault::is_internal(path) {
            Some(
                if exists {
                    EventView::VaultNoteChanged(path)
                } else {
                    EventView::VaultNoteRemoved(path)
                },
            )
        } else {
            None
        }
    } else if symbols::supported(path) {
        Some(
            if exists {
                EventView::CodeFileChanged(path)
            } else {
                EventView::CodeFileRemoved(path)
            },
        )
    } else {
        None
    }
}

/// What a change at `path` means, where `exists` says whether a file is there now.
pub fn classify(vault_root: &str, path: &str, exists: bool) -> (r: Option<WatchEvent>)
    ensures
        r.deep_view() == event_for(vault_root@, path@, exists),
{
    if paths::starts_with(path, vault_root) {
        if is_markdown(path) && !vault::is_vault_internal(path) {
            if exists {
                Some(WatchEvent::VaultNoteChanged(path.to_string()))
            } else {
                Some(WatchEvent::VaultNoteRemoved(path.to_string()))
            }
        } else {
            None
        }
    } else if symbols::is_supported(path) {
        if exists {
            Some(WatchEvent::CodeFileChanged(path.to_string()))
        } else {
            Some(WatchEvent::CodeFileRemoved(path.to_string()))
        }
    } else {
        None
    }
}

/// The source file can be read and parsed, where the change is one of a source file.
pub open spec fn is_readable(event: EventView, content: Option<Seq<char>>) -> bool {
    match event {
        EventView::CodeFileChanged(path) => content matches Some(s) && symbols::refused(path, s) is None,
        _ => true,
    }
}

/// `list` is what is extracted from the source file, where the change is one of a source file that
/// can be read and parsed.
pub open spec fn is_extracted(
    event: EventView,
    content: Option<Seq<char>>,
    list: Seq<symbols::SymbolView>,
) -> bool {
    match event {
        EventView::CodeFileChanged(path) => content matches Some(s) ==> symbols::refused(path, s) is None
            ==> symbols::yields(path, s, list),
        _ => true,
    }
}

/// The symbols that an index holds for the source file that the event is about.
pub open spec fn symbols_at(v: index::IndexView, event: EventView) -> Seq<symbols::SymbolView> {
    match event {
        EventView::CodeFileChanged(path) => v.code_symbols.at(paths::normal(path)),
        _ => Seq::empty(),
    }
}

/// The index after a change, where `content` is what the file says now, if it can be read, and `list`
/// the symbols of a source file that can be parsed. A note or a source file that cannot be read, or
/// not parsed, leaves the index as it is.
pub open spec fn applied(
    v: index::IndexView,
    event: EventView,
    content: Option<Seq<char>>,
    list: Seq<symbols::SymbolView>,
    disk: Set<Seq<char>>,
) -> index::IndexView {
    match event {
        EventView::VaultNoteChanged(path) => match content {
            Some(s) => update::with_note(v, notes::note_in(path, s), disk),
            None => v,
        },
        EventView::VaultNoteRemoved(path) => update::without_note_at(v, paths::normal(path)),
        EventView::CodeFileChanged(path) => if is_readable(event, content) {
            update::with_code(v, paths::normal(path), list, disk)
        } else {
            v
        },
        EventView::CodeFileRemoved(path) => update::without_code(v, paths::normal(path), disk),
    }
}

/// What the file says can be indexed: where the title of a note is scored, it can be.
pub open spec fn event_fits(
    v: index::IndexView,
    event: EventView,
    content: Option<Seq<char>>,
    disk: Set<Seq<char>>,
) -> bool {
    match (event, content) {
        (EventView::VaultNoteChanged(path), Some(s)) => matching::linkable(v, notes::note_in(path, s), disk),
        (EventView::CodeFileChanged(path), Some(s)) => symbols::supported(path) ==> vstd::utf8::encode_utf8(
            s,
        ).len() < u32::MAX && update::takes(v, paths::normal(path), disk),
        (EventView::CodeFileRemoved(path), _) => update::relinkable(
            v,
            update::without_file(v, paths::normal(path)),
            paths::normal(path),
            disk,
        ),
        _ => true,
    }
}

/// What the file says can be indexed, and the title of every note can be scored for every file after
/// that.
pub open spec fn keeps_scorable(v: index::IndexView, event: EventView, content: Option<Seq<char>>) -> bool {
    match (event, content) {
        (EventView::VaultNoteChanged(path), Some(s)) => matching::title_scorable(
            v,
            notes::note_in(path, s).title,
        ),
        (EventView::CodeFileChanged(path), Some(s)) => symbols::supported(path) ==> vstd::utf8::encode_utf8(
            s,
        ).len() < u32::MAX && matching::scorable_for_all(v, paths::normal(path)),
        _ => true,
    }
}

impl Index {
    /// Whether what the file says can be indexed, and the title of every note can be scored for every
    /// file after that.
    pub fn accepts(&self, event: &WatchEvent, content: Option<&str>) -> (r: bool)
        requires
            self.wf(),
        ensures
            r == keeps_scorable(
                self@,
                event.deep_view(),
                match content {
                    Some(s) => Some(s@),
                    None => None,
                },
            ),
    {
        match (event, content) {
            (WatchEvent::VaultNoteChanged(path), Some(s)) => self.scores(
                notes::parse_note(path.as_str(), s).title.as_str(),
            ),
            (WatchEvent::CodeFileChanged(path), Some(s)) => !symbols::is_supported(path.as_str()) || (
            project::text_fits(s) && self.can_take(path.as_str())),
            _ => true,
        }
    }

    /// Bring the index up to date with a change, where `content` is what the file says now, if it
    /// can be read.
    pub fn apply(&mut self, event: &WatchEvent, content: Option<&str>, disk: &Disk)
        requires
            old(self).wf(),
            disk.wf(),
            event_fits(
                old(self)@,
                event.deep_view(),
                match content {
                    Some(s) => Some(s@),
                    None => None,
                },
                disk@,
            ),
        ensures
            final(self).wf(),
            is_extracted(
                event.deep_view(),
                match content {
                    Some(s) => Some(s@),
                    None => None,
                },
                symbols_at(final(self)@, event.deep_view()),
            ),
            final(self)@ == applied(
                old(self)@,
                event.deep_view(),
                match content {
                    Some(s) => Some(s@),
                    None => None,
                },
                symbols_at(final(self)@, event.deep_view()),
                disk@,
            ),
    {
        match event {
            WatchEvent::VaultNoteChanged(path) => {
                if let Some(s) = content {
                    self.reindex_note(path.as_str(), s, disk);
                }
            },
            WatchEvent::VaultNoteRemoved(path) => self.remove_note(path.as_str()),
            WatchEvent::CodeFileChanged(path) => {
                if let Some(s) = content {
                    let _ = self.reindex_code_file(path.as_str(), s, disk);
                }
            },
            WatchEvent::CodeFileRemoved(path) => self.remove_code_file(path.as_str(), disk),
        }
    }

    /// Bring the index up to date with a change, where every title can be scored and the change is
    /// accepted. Gives whether that was so; where it was not, the index is left as it is.
    pub fn follow(&mut self, event: &WatchEvent, content: Option<&str>, disk: &Disk) -> (r: bool)
        requires
            old(self).wf(),
            disk.wf(),
        ensures
            final(self).wf(),
            r == (matching::titles_scorable(old(self)@) && keeps_scorable(
                old(self)@,
                event.deep_view(),
                match content {
                    Some(s) => Some(s@),
                    None => None,
                },
            )),
            !r ==> final(self)@ == old(self)@,
            r ==> is_extracted(
                event.deep_view(),
                match content {
                    Some(s) => Some(s@),
                    None => None,
                },
                symbols_at(final(self)@, event.deep_view()),
            ),
            r ==> final(self)@ == applied(
                old(self)@,
                event.deep_view(),
                match content {
                    Some(s) => Some(s@),
                    None => None,
                },
                symbols_at(final(self)@, event.deep_view()),
                disk@,
            ),
    {
        if !self.scores_all() || !self.accepts(event, content) {
            return false;
        }
        proof {
            self.code_symbols.lemma_listing();
            scoring::law_accepted_change_fits(
                self@,
                event.deep_view(),
                match content {
                    Some(s) => Some(s@),
                    None => None,
                },
                disk@,
            );
        }
        self.apply(event, content, disk);
        true
    }
}

} // verus!
