//! What the language server offers to an editor.
use vstd::prelude::*;

verus! {

/// Which changes of an open document an editor sends.
#[derive(Debug, Clone, Copy, PartialEq, Eq, Structural)]
pub enum SyncKind {
    /// None.
    Nothing,
    /// The whole text.
    Full,
    /// The parts that changed.
    Incremental,
}

/// What the language server offers to an editor.
#[derive(Debug, Clone, Copy, PartialEq, Eq, Structural)]
pub struct ServerFeatures {
    /// Text shown for the symbol under the cursor.
    pub hover: bool,
    /// The way to the note on a symbol.
    pub definition: bool,
    /// Word of documents being opened and closed.
    pub open_close: bool,
    /// Word of changes while a document is open.
    pub change: SyncKind,
    /// Word of a document being saved, with its text or without.
    pub save_with_text: Option<bool>,
}

/// What the server offers.
///
/// The index is rebuilt from disk when a document is opened or saved, and by the file watcher.
/// Asking for changes as they are typed would make editors send what the server has no use for.
pub fn server_features() -> (r: ServerFeatures)
    ensures
        r.hover,
        r.definition,
        r.open_close,
        r.change == SyncKind::Nothing,
        r.save_with_text == Some(false),
{
    ServerFeatures {
        hover: true,
        definition: true,
        open_close: true,
        change: SyncKind::Nothing,
        save_with_text: Some(false),
    }
}

} // verus!
