//! The index between source symbols and vault notes.
use crate::paths;
use crate::symbols;
use crate::symbols::CodeSymbol;
use crate::table;
use crate::table::{SlotKey, Table};
use crate::slots;
use crate::text;
use crate::vault;
use crate::vault::VaultNote;
use vstd::prelude::*;
use vstd::string::*;

verus! {

/// Upper bound on source files parsed during a full index build. Large enough for any project that
/// is realistically indexed; low enough that a stray vault in a home directory does not parse the
/// whole disk.
pub const DEFAULT_MAX_INDEXED_FILES: usize = 20_000;

/// The bound that the environment sets, or the default where it sets none that can be read.
pub open spec fn bound_set_by(setting: Option<Seq<char>>) -> usize {
    match setting {
        Some(s) => match text::number_in(s) {
            Some(n) => if n <= usize::MAX {
                n as usize
            } else {
                DEFAULT_MAX_INDEXED_FILES
            },
            None => DEFAULT_MAX_INDEXED_FILES,
        },
        None => DEFAULT_MAX_INDEXED_FILES,
    }
}

/// The bound that the environment sets, or the default where it sets none that can be read.
pub fn max_indexed_files(setting: Option<&str>) -> (r: usize)
    ensures
        r == (match setting {
            Some(s) => match text::number_in(s@) {
                Some(n) => if n <= usize::MAX {
                    n as usize
                } else {
                    DEFAULT_MAX_INDEXED_FILES
                },
                None => DEFAULT_MAX_INDEXED_FILES,
            },
            None => DEFAULT_MAX_INDEXED_FILES,
        }),
        r == bound_set_by(
            match setting {
                Some(s) => Some(s@),
                None => None,
            },
        ),
{
    match setting {
        Some(s) => match text::parse_number(s) {
            Some(n) => n,
            None => DEFAULT_MAX_INDEXED_FILES,
        },
        None => DEFAULT_MAX_INDEXED_FILES,
    }
}

/// Unique identifier for a code symbol.
#[derive(Debug, PartialEq, Eq, Hash)]
pub struct SymbolId {
    pub file: String,
    pub name: String,
}

/// A symbol is known by its file and its name.
impl DeepView for SymbolId {
    type V = (Seq<char>, Seq<char>);

    open spec fn deep_view(&self) -> (Seq<char>, Seq<char>) {
        (self.file@, self.name@)
    }
}

impl Clone for SymbolId {
    fn clone(&self) -> (r: Self)
        ensures
            r.deep_view() == self.deep_view(),
    {
        SymbolId { file: self.file.clone(), name: self.name.clone() }
    }
}

impl SymbolId {
    /// Whether two identifiers are the same.
    pub fn same(&self, other: &SymbolId) -> (r: bool)
        ensures
            r == (self.deep_view() == other.deep_view()),
    {
        text::same(self.file.as_str(), other.file.as_str()) && text::same(
            self.name.as_str(),
            other.name.as_str(),
        )
    }

    fn pair(&self) -> (r: (String, String))
        ensures
            (r.0@, r.1@) == self.deep_view(),
    {
        (self.file.clone(), self.name.clone())
    }
}

impl SlotKey for SymbolId {
    type Slots = dashmap::DashMap<(String, String), usize>;

    open spec fn slots(s: Self::Slots) -> Map<(Seq<char>, Seq<char>), usize> {
        slots::pair_slots(s)
    }

    fn no_slots() -> (s: Self::Slots) {
        let s = slots::new_pair_slots();
        assert(slots::pair_slots(s) =~= Map::<(Seq<char>, Seq<char>), usize>::empty());
        s
    }

    fn slot(&self, s: &Self::Slots) -> (r: Option<usize>) {
        slots::get_pair_slot(s, &self.pair())
    }

    fn put_slot(&self, s: &mut Self::Slots, slot: usize) {
        slots::put_pair_slot(s, self.pair(), slot)
    }

    fn drop_slot(&self, s: &mut Self::Slots) {
        slots::drop_pair_slot(s, &self.pair())
    }
}

/// How a link was established. Ordered strongest-first: `Exact < Strong < Fuzzy`.
#[derive(Debug, Clone, Copy, PartialEq, Eq, PartialOrd, Ord, Structural)]
pub enum MatchConfidence {
    /// A file reference of the note that resolves.
    Exact,
    /// A name in backticks that matches a parsed symbol.
    Strong,
    /// A guess from the likeness of the note's title and a file name.
    Fuzzy,
}

/// The link is traceable to something the note says.
pub open spec fn is_traceable(c: MatchConfidence) -> bool {
    c != MatchConfidence::Fuzzy
}

/// The word that stands for a confidence in a report.
pub open spec fn confidence_word(c: MatchConfidence) -> Seq<char> {
    match c {
        MatchConfidence::Exact => "exact"@,
        MatchConfidence::Strong => "strong"@,
        MatchConfidence::Fuzzy => "fuzzy"@,
    }
}

impl MatchConfidence {
    /// True for links traceable to something the note actually says.
    ///
    /// `Fuzzy` links are guesses from title similarity: useful as navigation hints, but they must
    /// not count toward coverage or be reported as documentation.
    pub fn is_verified(&self) -> (r: bool)
        ensures
            r == is_traceable(*self),
    {
        match self {
            MatchConfidence::Exact => true,
            MatchConfidence::Strong => true,
            MatchConfidence::Fuzzy => false,
        }
    }

    /// The word that stands for the confidence in a report.
    pub fn label(&self) -> (r: &'static str)
        ensures
            r@ == (match *self {
                MatchConfidence::Exact => "exact"@,
                MatchConfidence::Strong => "strong"@,
                MatchConfidence::Fuzzy => "fuzzy"@,
            }),
            r@ == confidence_word(*self),
    {
        match self {
            MatchConfidence::Exact => "exact",
            MatchConfidence::Strong => "strong",
            MatchConfidence::Fuzzy => "fuzzy",
        }
    }
}

/// A link from a vault note to a code symbol, with surrounding context.
#[derive(Debug)]
pub struct DocLink {
    pub note_path: String,
    pub note_title: String,
    pub note_type: String,
    pub context: String,
    /// How the link was established. Consumers must not present a `Fuzzy` link as documented fact.
    pub confidence: MatchConfidence,
}

/// The contents of a [`DocLink`].
#[verifier::ext_equal]
pub struct DocView {
    pub note_path: Seq<char>,
    pub note_title: Seq<char>,
    pub note_type: Seq<char>,
    pub context: Seq<char>,
    pub confidence: MatchConfidence,
}

impl DeepView for DocLink {
    type V = DocView;

    open spec fn deep_view(&self) -> DocView {
        DocView {
            note_path: self.note_path@,
            note_title: self.note_title@,
            note_type: self.note_type@,
            context: self.context@,
            confidence: self.confidence,
        }
    }
}

impl Clone for DocLink {
    fn clone(&self) -> (r: Self)
        ensures
            r.deep_view() == self.deep_view(),
    {
        DocLink {
            note_path: self.note_path.clone(),
            note_title: self.note_title.clone(),
            note_type: self.note_type.clone(),
            context: self.context.clone(),
            confidence: self.confidence,
        }
    }
}

/// A reference from a vault note to a code symbol.
#[derive(Debug)]
pub struct SymbolRef {
    pub symbol_id: SymbolId,
    pub confidence: MatchConfidence,
}

/// The contents of a [`SymbolRef`].
#[verifier::ext_equal]
pub struct RefView {
    pub symbol: (Seq<char>, Seq<char>),
    pub confidence: MatchConfidence,
}

impl DeepView for SymbolRef {
    type V = RefView;

    open spec fn deep_view(&self) -> RefView {
        RefView { symbol: self.symbol_id.deep_view(), confidence: self.confidence }
    }
}

impl Clone for SymbolRef {
    fn clone(&self) -> (r: Self)
        ensures
            r.deep_view() == self.deep_view(),
    {
        SymbolRef { symbol_id: self.symbol_id.clone(), confidence: self.confidence }
    }
}

/// The paths that were found on disk.
pub struct Disk {
    found: Table<String, bool>,
}

impl View for Disk {
    type V = Set<Seq<char>>;

    closed spec fn view(&self) -> Set<Seq<char>> {
        self.found@.entries.dom()
    }
}

impl Disk {
    /// The table of paths is intact.
    pub closed spec fn wf(&self) -> bool {
        self.found.wf()
    }

    /// Nothing was found.
    pub fn new() -> (r: Self)
        ensures
            r.wf(),
            r@ == Set::<Seq<char>>::empty(),
    {
        let r = Disk { found: Table::new() };
        assert(r@ =~= Set::<Seq<char>>::empty());
        r
    }

    /// Notes that `path` was found.
    pub fn add(&mut self, path: &str)
        requires
            old(self).wf(),
        ensures
            final(self).wf(),
            final(self)@ == old(self)@.insert(paths::normal(path@)),
    {
        let ghost before = self@;
        self.found.insert(paths::normalize(path), true);
        assert(self@ =~= before.insert(paths::normal(path@)));
    }

    /// Whether `path` was found.
    pub fn has(&self, path: &String) -> (r: bool)
        requires
            self.wf(),
        ensures
            r == self@.contains(path@),
    {
        self.found.get(path).is_some()
    }
}

/// The bidirectional code and documentation index.
pub struct Index {
    /// Code file path to the symbols extracted from it.
    pub code_symbols: Table<String, Vec<CodeSymbol>>,
    /// Vault note path to the parsed note.
    pub vault_notes: Table<String, VaultNote>,
    /// Symbol to the notes that reference it.
    pub sym_to_docs: Table<SymbolId, Vec<DocLink>>,
    /// Note to the symbols it references.
    pub doc_to_syms: Table<String, Vec<SymbolRef>>,
    /// File name to the paths of the files so named.
    pub file_lookup: Table<String, Vec<String>>,
    /// The files that were deleted. They are in no result, though the lookup table still lists them
    /// for when they come back.
    pub removed: Table<String, bool>,
    /// Symbol name to every place where it is defined.
    pub symbol_names: Table<String, Vec<SymbolId>>,
    /// The project's root directory.
    pub root: String,
    /// The vault's root directory.
    pub vault_root: String,
}

/// What an [`Index`] holds. The tables whose order matters to a result are listings; the others are
/// maps.
#[verifier::ext_equal]
pub struct IndexView {
    pub code_symbols: table::Listing<Seq<char>, Seq<symbols::SymbolView>>,
    pub vault_notes: table::Listing<Seq<char>, vault::NoteView>,
    pub sym_to_docs: Map<(Seq<char>, Seq<char>), Seq<DocView>>,
    pub doc_to_syms: Map<Seq<char>, Seq<RefView>>,
    pub file_lookup: table::Listing<Seq<char>, Seq<Seq<char>>>,
    pub removed: Set<Seq<char>>,
    pub symbol_names: Map<Seq<char>, Seq<(Seq<char>, Seq<char>)>>,
    pub root: Seq<char>,
    pub vault_root: Seq<char>,
}

impl View for Index {
    type V = IndexView;

    open spec fn view(&self) -> IndexView {
        IndexView {
            code_symbols: self.code_symbols@,
            vault_notes: self.vault_notes@,
            sym_to_docs: self.sym_to_docs@.entries,
            doc_to_syms: self.doc_to_syms@.entries,
            file_lookup: self.file_lookup@,
            removed: self.removed@.entries.dom(),
            symbol_names: self.symbol_names@.entries,
            root: self.root@,
            vault_root: self.vault_root@,
        }
    }
}

impl Index {
    /// The tables of the index are intact.
    pub open spec fn wf(&self) -> bool {
        &&& self.code_symbols.wf()
        &&& self.vault_notes.wf()
        &&& self.sym_to_docs.wf()
        &&& self.doc_to_syms.wf()
        &&& self.file_lookup.wf()
        &&& self.removed.wf()
        &&& self.symbol_names.wf()
    }

    /// An index of the project under `root` whose notes lie under `vault_root`.
    pub fn new(root: &str, vault_root: &str) -> (r: Self)
        ensures
            r.wf(),
            r@ == empty_index(paths::normal(root@), paths::normal(vault_root@)),
    {
        let r = Index {
            code_symbols: Table::new(),
            vault_notes: Table::new(),
            sym_to_docs: Table::new(),
            doc_to_syms: Table::new(),
            file_lookup: Table::new(),
            removed: Table::new(),
            symbol_names: Table::new(),
            root: paths::normalize(root),
            vault_root: paths::normalize(vault_root),
        };
        assert(r@.removed =~= Set::empty());
        r
    }
}

/// An index of which only the roots are known.
pub open spec fn empty_index(root: Seq<char>, vault_root: Seq<char>) -> IndexView {
    IndexView {
        code_symbols: table::Listing::none(),
        vault_notes: table::Listing::none(),
        sym_to_docs: Map::empty(),
        doc_to_syms: Map::empty(),
        file_lookup: table::Listing::none(),
        removed: Set::empty(),
        symbol_names: Map::empty(),
        root,
        vault_root,
    }
}

} // verus!
