//! Notes of the documentation vault, as the index sees them.
use crate::paths;
use crate::text;
use vstd::prelude::*;

verus! {

/// A mention of a source file in a note.
#[derive(Debug)]
pub struct FileRef {
    /// The path as it is written in the note.
    pub path: String,
    /// Whether the mention is a file name without directories.
    pub is_bare_filename: bool,
    /// The line of the file that the note points at.
    pub line: Option<u32>,
}

/// The contents of a [`FileRef`].
#[verifier::ext_equal]
pub struct FileRefView {
    pub path: Seq<char>,
    pub is_bare_filename: bool,
    pub line: Option<u32>,
}

impl DeepView for FileRef {
    type V = FileRefView;

    open spec fn deep_view(&self) -> FileRefView {
        FileRefView {
            path: self.path@,
            is_bare_filename: self.is_bare_filename,
            line: self.line,
        }
    }
}

impl Clone for FileRef {
    fn clone(&self) -> (r: Self)
        ensures
            r.deep_view() == self.deep_view(),
    {
        FileRef {
            path: self.path.clone(),
            is_bare_filename: self.is_bare_filename,
            line: self.line,
        }
    }
}

/// A parsed note of the vault.
#[derive(Debug)]
pub struct VaultNote {
    pub path: String,
    pub title: String,
    pub note_type: String,
    pub summary: String,
    /// The source files that the note mentions.
    pub file_refs: Vec<FileRef>,
    /// The identifiers that stand in backticks in the prose of the note.
    pub code_idents: Vec<String>,
    /// The notes that the note links to.
    pub wikilinks: Vec<String>,
}

/// The contents of a [`VaultNote`].
#[verifier::ext_equal]
pub struct NoteView {
    pub path: Seq<char>,
    pub title: Seq<char>,
    pub note_type: Seq<char>,
    pub summary: Seq<char>,
    pub file_refs: Seq<FileRefView>,
    pub code_idents: Seq<Seq<char>>,
    pub wikilinks: Seq<Seq<char>>,
}

impl DeepView for VaultNote {
    type V = NoteView;

    open spec fn deep_view(&self) -> NoteView {
        NoteView {
            path: self.path@,
            title: self.title@,
            note_type: self.note_type@,
            summary: self.summary@,
            file_refs: self.file_refs.deep_view(),
            code_idents: self.code_idents.deep_view(),
            wikilinks: self.wikilinks.deep_view(),
        }
    }
}

impl Clone for VaultNote {
    fn clone(&self) -> (r: Self)
        ensures
            r.deep_view() == self.deep_view(),
    {
        let r = VaultNote {
            path: self.path.clone(),
            title: self.title.clone(),
            note_type: self.note_type.clone(),
            summary: self.summary.clone(),
            file_refs: self.file_refs.clone(),
            code_idents: self.code_idents.clone(),
            wikilinks: self.wikilinks.clone(),
        };
        assert(r.file_refs.deep_view() =~= self.file_refs.deep_view());
        assert(r.code_idents.deep_view() =~= self.code_idents.deep_view());
        assert(r.wikilinks.deep_view() =~= self.wikilinks.deep_view());
        r
    }
}

/// Whether a path written in a note can mean the file `full`: its components are the last
/// components of `full`, so that `auth.rs` does not stand for `oauth.rs`.
pub fn ref_matches_path(reference: &str, full: &str) -> (r: bool)
    ensures
        r == paths::is_tail_of(reference@, full@),
{
    paths::ends_with(full, reference)
}

/// `part` is a directory that the note editor keeps for itself.
pub open spec fn editor_part(part: Seq<char>) -> bool {
    part == ".obsidian"@ || part == ".trash"@
}

/// The path `s` leads through a directory that the note editor keeps for itself.
pub open spec fn is_internal(s: Seq<char>) -> bool {
    exists|i: int|
        0 <= i < paths::components(s).len() && editor_part(#[trigger] paths::components(s)[i])
}

/// Whether `path` leads through a directory that the note editor keeps for itself, so that what
/// lies there is not a note.
pub fn is_vault_internal(path: &str) -> (r: bool)
    ensures
        r == is_internal(path@),
{
    let c = paths::components_of(path);
    let n: usize = c.len();
    for i in 0..n
        invariant
            n == c@.len(),
            c.deep_view() == paths::components(path@),
            forall|j: int| 0 <= j < i ==> !editor_part(#[trigger] paths::components(path@)[j]),
    {
        assert(c.deep_view()[i as int] == c@[i as int]@);
        if text::same(c[i].as_str(), ".obsidian") || text::same(c[i].as_str(), ".trash") {
            assert(editor_part(paths::components(path@)[i as int]));
            return true;
        }
    }
    false
}

} // verus!
