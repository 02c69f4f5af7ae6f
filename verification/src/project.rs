//! Building the index of a whole project, phase by phase: the files of the project, the notes of
//! the vault, the symbols of the source files, and the links between them.
use crate::gather;
use crate::index;
use crate::index::{Disk, Index};
use crate::matching;
use crate::order;
use crate::paths;
use crate::resolve;
use crate::symbols;
use crate::symbols::CodeSymbol;
use crate::table;
use crate::table::Table;
use crate::text;
use crate::update;
use crate::vault;
use crate::vault::VaultNote;
use vstd::prelude::*;
use vstd::string::*;

verus! {

/// Directories that hold no sources of the project.
pub const SKIPPED_DIRS: [&'static str; 13] = [
    "target",
    "node_modules",
    ".git",
    ".doctrack",
    ".idea",
    ".vscode",
    "build",
    "dist",
    "out",
    "__pycache__",
    ".gradle",
    "vendor",
    ".next",
];

/// A directory of this name is known to hold no sources.
pub open spec fn is_skipped(name: Seq<char>) -> bool {
    ||| name == "target"@
    ||| name == "node_modules"@
    ||| name == ".git"@
    ||| name == ".doctrack"@
    ||| name == ".idea"@
    ||| name == ".vscode"@
    ||| name == "build"@
    ||| name == "dist"@
    ||| name == "out"@
    ||| name == "__pycache__"@
    ||| name == ".gradle"@
    ||| name == "vendor"@
    ||| name == ".next"@
}

/// A directory of this name is walked: it is not hidden, and not known to hold no sources.
pub open spec fn is_walked(name: Seq<char>) -> bool {
    !is_skipped(name) && !text::begins_with(name, "."@)
}

/// Whether a directory of this name is walked.
pub fn walks_into(name: &str) -> (r: bool)
    ensures
        r == is_walked(name@),
{
    proof {
        lemma_skipped_dirs(name@);
    }
    for i in 0..13usize
        invariant
            is_skipped(name@) <==> exists|k: int| 0 <= k < 13 && (#[trigger] SKIPPED_DIRS@[k])@ == name@,
            forall|k: int| 0 <= k < i ==> (#[trigger] SKIPPED_DIRS@[k])@ != name@,
    {
        assert(SKIPPED_DIRS@[i as int]@ == SKIPPED_DIRS[i as int]@);
        if text::same(SKIPPED_DIRS[i], name) {
            return false;
        }
    }
    !text::starts_with_text(name, ".")
}

/// A walk over the project enters the directory: it is the root of the project, whatever its name,
/// or a directory of a name that is walked.
pub open spec fn is_entered(root: Seq<char>, dir: Seq<char>) -> bool {
    ||| paths::normal(dir) == paths::normal(root)
    ||| paths::file_name_of(dir) matches Some(name) && is_walked(name)
}

/// Whether a walk over the project enters the directory.
pub fn enters(root: &str, dir: &str) -> (r: bool)
    ensures
        r == is_entered(root@, dir@),
{
    if text::same(paths::normalize(dir).as_str(), paths::normalize(root).as_str()) {
        return true;
    }
    match paths::file_name(dir) {
        Some(name) => walks_into(name.as_str()),
        None => false,
    }
}

/// A project is walked whatever its root is called, and however the root is written.
pub proof fn law_root_is_entered(root: Seq<char>, dir: Seq<char>)
    requires
        paths::components(dir) == paths::components(root),
    ensures
        is_entered(root, dir),
{
}

/// The directories that are skipped are those of the list.
proof fn lemma_skipped_dirs(name: Seq<char>)
    ensures
        is_skipped(name) <==> exists|k: int| 0 <= k < 13 && (#[trigger] SKIPPED_DIRS@[k])@ == name,
{
    let all = SKIPPED_DIRS@;
    assert(all[0]@ == "target"@);
    assert(all[1]@ == "node_modules"@);
    assert(all[2]@ == ".git"@);
    assert(all[3]@ == ".doctrack"@);
    assert(all[4]@ == ".idea"@);
    assert(all[5]@ == ".vscode"@);
    assert(all[6]@ == "build"@);
    assert(all[7]@ == "dist"@);
    assert(all[8]@ == "out"@);
    assert(all[9]@ == "__pycache__"@);
    assert(all[10]@ == ".gradle"@);
    assert(all[11]@ == "vendor"@);
    assert(all[12]@ == ".next"@);
}

/// The files of a name that the lookup table holds.
pub open spec fn named_so_far(l: table::Listing<Seq<char>, Seq<Seq<char>>>, name: Seq<char>) -> Seq<
    Seq<char>,
> {
    if l.has(name) {
        l.at(name)
    } else {
        Seq::empty()
    }
}

/// The lookup table with one more file.
pub open spec fn with_file(l: table::Listing<Seq<char>, Seq<Seq<char>>>, path: Seq<char>) -> table::Listing<
    Seq<char>,
    Seq<Seq<char>>,
> {
    match paths::file_name_of(path) {
        Some(name) => l.put(name, named_so_far(l, name).push(paths::normal(path))),
        None => l,
    }
}

/// The lookup table with the files of a walk.
pub open spec fn with_files(
    l: table::Listing<Seq<char>, Seq<Seq<char>>>,
    walked: Seq<Seq<char>>,
) -> table::Listing<Seq<char>, Seq<Seq<char>>>
    decreases walked.len(),
{
    if walked.len() == 0 {
        l
    } else {
        with_file(with_files(l, walked.drop_last()), walked.last())
    }
}

/// The deleted files that a walk has not found again.
pub open spec fn still_removed(removed: Set<Seq<char>>, walked: Seq<Seq<char>>) -> Set<Seq<char>>
    decreases walked.len(),
{
    if walked.len() == 0 {
        removed
    } else {
        still_removed(removed, walked.drop_last()).remove(paths::normal(walked.last()))
    }
}

/// The index with the files of a walk in its lookup table.
pub open spec fn with_walk(v: index::IndexView, walked: Seq<Seq<char>>) -> index::IndexView {
    index::IndexView {
        file_lookup: with_files(v.file_lookup, walked),
        removed: still_removed(v.removed, walked),
        ..v
    }
}

/// The notes with those of `notes`, by path.
pub open spec fn with_notes(
    l: table::Listing<Seq<char>, vault::NoteView>,
    notes: Seq<vault::NoteView>,
) -> table::Listing<Seq<char>, vault::NoteView>
    decreases notes.len(),
{
    if notes.len() == 0 {
        l
    } else {
        with_notes(l, notes.drop_last()).put(paths::normal(notes.last().path), notes.last())
    }
}

impl Index {
    /// Enter the files of a walk over the project into the lookup table by file name.
    pub fn build_file_lookup(&mut self, walked: &Vec<String>)
        requires
            old(self).wf(),
        ensures
            final(self).wf(),
            final(self)@ == with_walk(old(self)@, walked.deep_view()),
    {
        let ghost v = self@;
        let ghost all = walked.deep_view();
        let n: usize = walked.len();
        assert(all.take(0) =~= Seq::empty());
        for i in 0..n
            invariant
                self.wf(),
                n == walked@.len(),
                all == walked.deep_view(),
                self@ == with_walk(v, all.take(i as int)),
        {
            let ghost l = self@.file_lookup;
            let ghost gone = self@.removed;
            let path = paths::normalize(walked[i].as_str());
            proof {
                assert(all[i as int] == walked@[i as int]@);
                assert(all.take(i + 1).drop_last() =~= all.take(i as int));
            }
            if let Some(name) = paths::file_name(walked[i].as_str()) {
                let mut found: Vec<String> = match self.file_lookup.get(&name) {
                    Some(found) => {
                        let copy = found.clone();
                        assert(copy.deep_view() =~= found.deep_view());
                        copy
                    },
                    None => Vec::new(),
                };
                assert(found.deep_view() =~= named_so_far(l, name@));
                let ghost before = found.deep_view();
                found.push(path.clone());
                assert(found.deep_view() =~= before.push(paths::normal(all[i as int])));
                self.file_lookup.insert(name, found);
            }
            self.removed.remove(&path);
            assert(self@.removed =~= gone.remove(path@));
        }
        assert(all.take(n as int) =~= all);
    }

    /// Enter the notes of the vault.
    pub fn add_notes(&mut self, notes: &Vec<VaultNote>)
        requires
            old(self).wf(),
        ensures
            final(self).wf(),
            final(self)@ == (index::IndexView {
                vault_notes: with_notes(old(self)@.vault_notes, notes.deep_view()),
                ..old(self)@
            }),
    {
        let ghost v = self@;
        let ghost all = notes.deep_view();
        let n: usize = notes.len();
        assert(all.take(0) =~= Seq::empty());
        for i in 0..n
            invariant
                self.wf(),
                n == notes@.len(),
                all == notes.deep_view(),
                self@ == (index::IndexView {
                    vault_notes: with_notes(v.vault_notes, all.take(i as int)),
                    ..v
                }),
        {
            proof {
                assert(all[i as int] == notes@[i as int].deep_view());
                assert(all.take(i + 1).drop_last() =~= all.take(i as int));
            }
            self.vault_notes.insert(paths::normalize(notes[i].path.as_str()), notes[i].clone());
        }
        assert(all.take(n as int) =~= all);
    }
}

/// The files that a reference means.
pub open spec fn ref_files(v: index::IndexView, disk: Set<Seq<char>>) -> spec_fn(vault::FileRefView) -> Seq<
    Seq<char>,
> {
    |fr: vault::FileRefView| resolve::resolved(v, fr, disk)
}

/// The files that the note at a path refers to.
pub open spec fn note_files(v: index::IndexView, disk: Set<Seq<char>>) -> spec_fn(Seq<char>) -> Seq<
    Seq<char>,
> {
    |k: Seq<char>| gather::gather(v.vault_notes.at(k).file_refs, ref_files(v, disk))
}

/// The files that the notes refer to.
pub open spec fn referred_files(v: index::IndexView, disk: Set<Seq<char>>) -> Seq<Seq<char>> {
    gather::gather(v.vault_notes.order, note_files(v, disk))
}

/// A file that symbols can be extracted from.
pub open spec fn is_source() -> spec_fn(Seq<char>) -> bool {
    |p: Seq<char>| symbols::supported(p)
}

/// The source files that the notes refer to.
pub open spec fn documented(v: index::IndexView, disk: Set<Seq<char>>) -> Set<Seq<char>> {
    referred_files(v, disk).filter(is_source()).to_set()
}

/// A source file that is there and that no note refers to.
pub open spec fn is_other_source(v: index::IndexView, disk: Set<Seq<char>>) -> spec_fn(Seq<char>) -> bool {
    |p: Seq<char>| symbols::supported(p) && resolve::present(v)(p) && !documented(v, disk).contains(p)
}

/// The source files of the project that no note refers to.
pub open spec fn undocumented(v: index::IndexView, disk: Set<Seq<char>>) -> Seq<Seq<char>> {
    resolve::listed_files(v.file_lookup).filter(is_other_source(v, disk))
}

/// How many files are let in behind `taken` others where `limit` is the bound for all.
pub open spec fn room(limit: nat, taken: nat) -> nat {
    if limit > taken {
        (limit - taken) as nat
    } else {
        0
    }
}

/// The source files to index.
pub struct CodeFiles {
    /// The files that notes refer to, in order, and behind them the others, in order.
    pub files: Vec<String>,
    /// How many of them notes refer to.
    pub referenced: usize,
    /// How many others were left out to keep within the bound.
    pub dropped: usize,
}

impl CodeFiles {
    /// The source files that are indexed where at most `limit` files are let in: every file that a
    /// note refers to, and of the others those that come first, as far as there is room.
    pub open spec fn selects(&self, v: index::IndexView, disk: Set<Seq<char>>, limit: nat) -> bool {
        let files = self.files.deep_view();
        let first = files.take(self.referenced as int);
        let others = files.skip(self.referenced as int);
        &&& self.referenced <= files.len()
        &&& order::in_order(first)
        &&& first.no_duplicates()
        &&& first.to_set() == documented(v, disk)
        &&& exists|rest: Seq<Seq<char>>|
            {
                &&& #[trigger] order::is_sorted(undocumented(v, disk), rest)
                &&& others == rest.take(
                    if rest.len() <= room(limit, first.len()) {
                        rest.len() as int
                    } else {
                        room(limit, first.len()) as int
                    },
                )
                &&& self.dropped == rest.len() - others.len()
            }
    }
}

/// The distinct source files among `all`.
fn distinct_sources(all: &Vec<String>) -> (r: Table<String, bool>)
    ensures
        r.wf(),
        r@.entries.dom() == all.deep_view().filter(is_source()).to_set(),
{
    let ghost s = all.deep_view();
    let mut out: Table<String, bool> = Table::new();
    let n: usize = all.len();
    proof {
        reveal(Seq::filter);
        assert(out@.entries.dom() =~= s.take(0).filter(is_source()).to_set());
    }
    for i in 0..n
        invariant
            n == all@.len(),
            s == all.deep_view(),
            out.wf(),
            out@.entries.dom() == s.take(i as int).filter(is_source()).to_set(),
    {
        proof {
            assert(s[i as int] == all@[i as int]@);
            gather::lemma_filter_step(s, is_source(), i as int);
            gather::lemma_push_set(s.take(i as int).filter(is_source()), s[i as int]);
        }
        if symbols::is_supported(all[i].as_str()) {
            out.insert(all[i].clone(), true);
        }
        assert(out@.entries.dom() =~= s.take(i + 1).filter(is_source()).to_set());
    }
    assert(s.take(n as int) =~= s);
    out
}

/// The keys of a table.
fn keys_of(t: &Table<String, bool>) -> (r: Vec<String>)
    requires
        t.wf(),
    ensures
        r.deep_view() == t@.order,
{
    let mut out: Vec<String> = Vec::new();
    let n: usize = t.len();
    for i in 0..n
        invariant
            t.wf(),
            n == t@.order.len(),
            out@.len() == i,
            forall|k: int| 0 <= k < i ==> (#[trigger] out@[k])@ == t@.order[k],
    {
        out.push(t.key_at(i).clone());
    }
    assert(out.deep_view() =~= t@.order);
    out
}

impl Index {
    /// The files that a note refers to.
    fn files_of_note(&self, note: &VaultNote, disk: &Disk) -> (r: Vec<String>)
        requires
            self.wf(),
            disk.wf(),
        ensures
            r.deep_view() == gather::gather(note.deep_view().file_refs, ref_files(self@, disk@)),
    {
        let ghost f = ref_files(self@, disk@);
        let ghost refs = note.deep_view().file_refs;
        let mut out: Vec<String> = Vec::new();
        let n: usize = note.file_refs.len();
        assert(out.deep_view() =~= gather::gather(refs.take(0), f));
        for i in 0..n
            invariant
                self.wf(),
                disk.wf(),
                f == ref_files(self@, disk@),
                refs == note.deep_view().file_refs,
                n == note.file_refs@.len(),
                out.deep_view() == gather::gather(refs.take(i as int), f),
        {
            let ghost before = out.deep_view();
            proof {
                assert(refs[i as int] == note.file_refs@[i as int].deep_view());
                gather::lemma_gather_step(refs, f, i as int);
            }
            let mut more = self.resolve_file_ref(&note.file_refs[i], disk);
            let ghost added = more.deep_view();
            out.append(&mut more);
            assert(out.deep_view() =~= before + added);
        }
        assert(refs.take(n as int) =~= refs);
        out
    }

    /// The files that the notes refer to.
    fn files_of_notes(&self, disk: &Disk) -> (r: Vec<String>)
        requires
            self.wf(),
            disk.wf(),
        ensures
            r.deep_view() == referred_files(self@, disk@),
    {
        let ghost f = note_files(self@, disk@);
        let ghost keys = self@.vault_notes.order;
        let mut out: Vec<String> = Vec::new();
        let n: usize = self.vault_notes.len();
        assert(out.deep_view() =~= gather::gather(keys.take(0), f));
        for i in 0..n
            invariant
                self.wf(),
                disk.wf(),
                f == note_files(self@, disk@),
                keys == self@.vault_notes.order,
                n == keys.len(),
                out.deep_view() == gather::gather(keys.take(i as int), f),
        {
            let ghost before = out.deep_view();
            proof {
                gather::lemma_gather_step(keys, f, i as int);
            }
            let mut more = self.files_of_note(self.vault_notes.value_at(i), disk);
            let ghost added = more.deep_view();
            out.append(&mut more);
            assert(out.deep_view() =~= before + added);
        }
        assert(keys.take(n as int) =~= keys);
        out
    }

    /// Every file of the lookup table.
    fn files_listed(&self) -> (r: Vec<String>)
        requires
            self.wf(),
        ensures
            r.deep_view() == resolve::listed_files(self@.file_lookup),
    {
        let ghost f = resolve::files_named(self@.file_lookup);
        let ghost keys = self@.file_lookup.order;
        let mut out: Vec<String> = Vec::new();
        let n: usize = self.file_lookup.len();
        assert(out.deep_view() =~= gather::gather(keys.take(0), f));
        for i in 0..n
            invariant
                self.wf(),
                f == resolve::files_named(self@.file_lookup),
                keys == self@.file_lookup.order,
                n == keys.len(),
                out.deep_view() == gather::gather(keys.take(i as int), f),
        {
            let ghost before = out.deep_view();
            proof {
                gather::lemma_gather_step(keys, f, i as int);
            }
            let found = self.file_lookup.value_at(i);
            let mut more = found.clone();
            let ghost added = more.deep_view();
            assert(added =~= found.deep_view());
            out.append(&mut more);
            assert(out.deep_view() =~= before + added);
        }
        assert(keys.take(n as int) =~= keys);
        out
    }

    /// The source files of the project that `taken` does not hold.
    fn sources_but(&self, taken: &Table<String, bool>, disk: &Disk) -> (r: Vec<String>)
        requires
            self.wf(),
            taken.wf(),
            taken@.entries.dom() == documented(self@, disk@),
        ensures
            r.deep_view() == undocumented(self@, disk@),
    {
        let all = self.files_listed();
        let ghost s = all.deep_view();
        let ghost f = is_other_source(self@, disk@);
        let mut out: Vec<String> = Vec::new();
        let n: usize = all.len();
        assert(out.deep_view() =~= s.take(0).filter(f)) by {
            reveal(Seq::filter);
        }
        for i in 0..n
            invariant
                self.wf(),
                taken.wf(),
                taken@.entries.dom() == documented(self@, disk@),
                f == is_other_source(self@, disk@),
                n == all@.len(),
                s == all.deep_view(),
                out.deep_view() == s.take(i as int).filter(f),
        {
            let ghost before = out.deep_view();
            proof {
                assert(s[i as int] == all@[i as int]@);
                gather::lemma_filter_step(s, f, i as int);
            }
            if symbols::is_supported(all[i].as_str()) && self.removed.get(&all[i]).is_none() && taken.get(
                &all[i],
            ).is_none() {
                out.push(all[i].clone());
                assert(out.deep_view() =~= before.push(s[i as int]));
            }
        }
        assert(s.take(n as int) =~= s);
        out
    }

    /// Collect every parseable source file in the project, plus anything the vault references that
    /// the walk over the project did not reach.
    ///
    /// Bounded by `limit`. Files referenced by notes are kept ahead of the rest, so that the bound
    /// never costs a documented file, and the number of files that it costs is given.
    pub fn collect_code_files(&self, limit: usize, disk: &Disk) -> (r: CodeFiles)
        requires
            self.wf(),
            disk.wf(),
        ensures
            r.selects(self@, disk@, limit as nat),
    {
        let referred = self.files_of_notes(disk);
        let taken = distinct_sources(&referred);
        let keys = keys_of(&taken);
        let mut files = order::sort_paths(&keys);
        let ghost first = files.deep_view();
        proof {
            taken.lemma_listing();
            lemma_same_members(keys.deep_view(), first);
            assert(first.to_set() =~= documented(self@, disk@)) by {
                assert forall|p: Seq<char>| first.to_set().contains(p) <==> taken@.entries.dom().contains(p) by {
                    assert(first.contains(p) <==> keys.deep_view().contains(p));
                    assert(taken@.entries.contains_key(p) <==> taken@.order.contains(p));
                }
            }
        }
        let others = self.sources_but(&taken, disk);
        let rest = order::sort_paths(&others);
        let ghost sorted = rest.deep_view();
        let referenced: usize = files.len();
        let space: usize = if limit > referenced {
            limit - referenced
        } else {
            0
        };
        let kept: usize = if rest.len() <= space {
            rest.len()
        } else {
            space
        };
        let dropped: usize = rest.len() - kept;
        assert(sorted.take(0) =~= Seq::empty());
        assert(files.deep_view() =~= first + sorted.take(0));
        for i in 0..kept
            invariant
                kept <= rest@.len(),
                sorted == rest.deep_view(),
                files.deep_view() == first + sorted.take(i as int),
        {
            let ghost before = files.deep_view();
            files.push(rest[i].clone());
            assert(sorted[i as int] == rest@[i as int]@);
            assert(files.deep_view() =~= before.push(sorted[i as int]));
            assert(files.deep_view() =~= first + sorted.take(i + 1));
        }
        let r = CodeFiles { files, referenced, dropped };
        proof {
            let all = r.files.deep_view();
            assert(first.len() == referenced);
            assert(all.take(referenced as int) =~= first);
            assert(all.skip(referenced as int) =~= sorted.take(kept as int));
            assert(order::is_sorted(undocumented(self@, disk@), sorted));
        }
        r
    }
}

/// What is put in order keeps its members, and repeats none that was not repeated.
proof fn lemma_same_members(a: Seq<Seq<char>>, b: Seq<Seq<char>>)
    requires
        a.to_multiset() == b.to_multiset(),
    ensures
        forall|p: Seq<char>| a.contains(p) <==> b.contains(p),
        a.no_duplicates() ==> b.no_duplicates(),
{
    a.to_multiset_ensures();
    b.to_multiset_ensures();
    assert forall|p: Seq<char>| a.contains(p) <==> b.contains(p) by {
        assert(a.contains(p) <==> a.to_multiset().count(p) > 0);
        assert(b.contains(p) <==> b.to_multiset().count(p) > 0);
    }
    if a.no_duplicates() {
        a.lemma_multiset_has_no_duplicates();
        b.lemma_multiset_has_no_duplicates_conv();
    }
}

/// A source file as it was read.
pub struct SourceFile {
    pub path: String,
    /// What the file holds. Nothing where it could not be read.
    pub text: Option<String>,
}

/// The contents of a [`SourceFile`].
#[verifier::ext_equal]
pub struct SourceView {
    pub path: Seq<char>,
    pub text: Option<Seq<char>>,
}

impl DeepView for SourceFile {
    type V = SourceView;

    open spec fn deep_view(&self) -> SourceView {
        SourceView { path: self.path@, text: self.text.deep_view() }
    }
}

/// The file can be parsed.
pub open spec fn source_fits(s: SourceView) -> bool {
    s.text matches Some(t) ==> symbols::supported(s.path) ==> vstd::utf8::encode_utf8(t).len() < u32::MAX
}

/// Whether a source text can be parsed.
pub fn text_fits(source: &str) -> (r: bool)
    ensures
        r == (vstd::utf8::encode_utf8(source@).len() < u32::MAX),
{
    source.as_bytes().len() < 0xffff_ffff
}

impl SourceFile {
    /// Whether the file can be parsed.
    pub fn fits(&self) -> (r: bool)
        ensures
            r == source_fits(self.deep_view()),
    {
        match &self.text {
            Some(source) => !symbols::is_supported(self.path.as_str()) || text_fits(source.as_str()),
            None => true,
        }
    }
}

/// A source file after its symbols were extracted.
#[verifier::ext_equal]
pub struct ReadView {
    pub path: Seq<char>,
    /// The symbols of the file. Nothing where it could not be read or parsed.
    pub symbols: Option<Seq<symbols::SymbolView>>,
}

/// `read` is what extracting the symbols of the file gives.
pub open spec fn is_read(s: SourceView, read: ReadView) -> bool {
    &&& read.path == s.path
    &&& match s.text {
        Some(t) => match symbols::refused(s.path, t) {
            None => read.symbols matches Some(list) && symbols::yields(s.path, t, list),
            Some(_) => read.symbols is None,
        },
        None => read.symbols is None,
    }
}

/// `read` is what extracting the symbols of the files gives.
pub open spec fn are_read(sources: Seq<SourceView>, read: Seq<ReadView>) -> bool {
    &&& read.len() == sources.len()
    &&& forall|i: int| 0 <= i < sources.len() ==> is_read(#[trigger] sources[i], read[i])
}

/// The index with the symbols of the files that could be read and parsed.
pub open spec fn with_sources(v: index::IndexView, read: Seq<ReadView>) -> index::IndexView
    decreases read.len(),
{
    if read.len() == 0 {
        v
    } else {
        let before = with_sources(v, read.drop_last());
        match read.last().symbols {
            Some(list) => update::with_symbols(before, paths::normal(read.last().path), list),
            None => before,
        }
    }
}

/// The files have the paths of the sources.
pub open spec fn same_paths(sources: Seq<SourceView>, read: Seq<ReadView>) -> bool {
    &&& read.len() == sources.len()
    &&& forall|i: int| 0 <= i < sources.len() ==> (#[trigger] read[i]).path == sources[i].path
}

/// The files can be taken in, whatever symbols they have: every note can be linked then.
pub open spec fn takes_sources(v: index::IndexView, sources: Seq<SourceView>, disk: Set<Seq<char>>) -> bool {
    forall|read: Seq<ReadView>| #[trigger]
        same_paths(sources, read) ==> matching::all_linkable(with_sources(v, read), disk)
}

/// How many of the files could not be read or parsed.
pub open spec fn skipped(read: Seq<ReadView>) -> nat
    decreases read.len(),
{
    if read.len() == 0 {
        0
    } else if read.last().symbols is None {
        skipped(read.drop_last()) + 1
    } else {
        skipped(read.drop_last())
    }
}

/// The index of a project, from its notes and its source files.
pub open spec fn built(v: index::IndexView, read: Seq<ReadView>, disk: Set<Seq<char>>) -> index::IndexView {
    matching::linked_each(with_sources(v, read), v.vault_notes.order, disk)
}

/// The path whose presence decides what a reference means, where one does.
pub open spec fn ref_probes(v: index::IndexView) -> spec_fn(vault::FileRefView) -> Seq<Seq<char>> {
    |fr: vault::FileRefView|
        match resolve::probed(v, fr) {
            Some(path) => seq![path],
            None => seq![],
        }
}

/// The paths whose presence decides what the references of a note mean.
pub open spec fn probes_for(v: index::IndexView, note: vault::NoteView) -> Seq<Seq<char>> {
    gather::gather(note.file_refs, ref_probes(v))
}

/// The paths whose presence decides what the references of the note at a path mean.
pub open spec fn note_probes(v: index::IndexView) -> spec_fn(Seq<char>) -> Seq<Seq<char>> {
    |k: Seq<char>| probes_for(v, v.vault_notes.at(k))
}

/// What a reference means depends on the presence of its probe alone.
pub proof fn law_probe_decides(
    v: index::IndexView,
    fr: vault::FileRefView,
    a: Set<Seq<char>>,
    b: Set<Seq<char>>,
)
    requires
        forall|p: Seq<char>| #[trigger] ref_probes(v)(fr).contains(p) ==> a.contains(p) == b.contains(p),
    ensures
        resolve::resolved(v, fr, a) == resolve::resolved(v, fr, b),
{
    let p = resolve::from_root(v, fr.path);
    if !resolve::is_abbreviated(fr.path) && !fr.is_bare_filename {
        assert(ref_probes(v)(fr)[0] == p);
        assert(ref_probes(v)(fr).contains(p));
    }
}

impl Index {
    /// The paths whose presence decides what the references of a note mean.
    pub fn probes_of_note(&self, note: &VaultNote) -> (r: Vec<String>)
        requires
            self.wf(),
        ensures
            r.deep_view() == probes_for(self@, note.deep_view()),
    {
        let ghost f = ref_probes(self@);
        let ghost refs = note.deep_view().file_refs;
        let mut out: Vec<String> = Vec::new();
        let n: usize = note.file_refs.len();
        assert(out.deep_view() =~= gather::gather(refs.take(0), f));
        for i in 0..n
            invariant
                self.wf(),
                f == ref_probes(self@),
                refs == note.deep_view().file_refs,
                n == note.file_refs@.len(),
                out.deep_view() == gather::gather(refs.take(i as int), f),
        {
            let ghost before = out.deep_view();
            proof {
                assert(refs[i as int] == note.file_refs@[i as int].deep_view());
                gather::lemma_gather_step(refs, f, i as int);
            }
            let probe = self.probe(&note.file_refs[i]);
            assert(f(refs[i as int]) =~= match probe.deep_view() {
                Some(p) => seq![p],
                None => seq![],
            });
            if let Some(p) = probe {
                out.push(p);
            }
            assert(out.deep_view() =~= before + f(refs[i as int]));
        }
        assert(refs.take(n as int) =~= refs);
        out
    }

    /// The paths whose presence decides what the references of the notes mean.
    pub fn probes(&self) -> (r: Vec<String>)
        requires
            self.wf(),
        ensures
            r.deep_view() == gather::gather(self@.vault_notes.order, note_probes(self@)),
    {
        let ghost f = note_probes(self@);
        let ghost keys = self@.vault_notes.order;
        let mut out: Vec<String> = Vec::new();
        let n: usize = self.vault_notes.len();
        assert(out.deep_view() =~= gather::gather(keys.take(0), f));
        for i in 0..n
            invariant
                self.wf(),
                f == note_probes(self@),
                keys == self@.vault_notes.order,
                n == keys.len(),
                out.deep_view() == gather::gather(keys.take(i as int), f),
        {
            let ghost before = out.deep_view();
            proof {
                gather::lemma_gather_step(keys, f, i as int);
            }
            let mut more = self.probes_of_note(self.vault_notes.value_at(i));
            let ghost added = more.deep_view();
            out.append(&mut more);
            assert(out.deep_view() =~= before + added);
        }
        assert(keys.take(n as int) =~= keys);
        out
    }

    /// Extract the symbols of the source files, then link the notes to them. Gives the number of
    /// files that could not be read or parsed.
    ///
    /// Every parseable source file in the project is indexed, not only the ones that notes already
    /// point at. Indexing just those would make "which files are undocumented?" unanswerable.
    pub fn build(&mut self, sources: &Vec<SourceFile>, disk: &Disk) -> (r: usize)
        requires
            old(self).wf(),
            disk.wf(),
            forall|i: int| 0 <= i < sources@.len() ==> source_fits((#[trigger] sources@[i]).deep_view()),
            takes_sources(old(self)@, sources.deep_view(), disk@),
        ensures
            final(self).wf(),
            exists|read: Seq<ReadView>| #[trigger]
                are_read(sources.deep_view(), read) && final(self)@ == built(old(self)@, read, disk@) && r
                    == skipped(read),
    {
        let ghost v = self@;
        let ghost all = sources.deep_view();
        let ghost mut read: Seq<ReadView> = Seq::empty();
        let mut missed: usize = 0;
        let n: usize = sources.len();
        for i in 0..n
            invariant
                self.wf(),
                n == sources@.len(),
                all == sources.deep_view(),
                forall|k: int|
                    0 <= k < sources@.len() ==> source_fits((#[trigger] sources@[k]).deep_view()),
                read.len() == i,
                forall|k: int| 0 <= k < i ==> is_read(#[trigger] all[k], read[k]),
                self@ == with_sources(v, read),
                self@.vault_notes == v.vault_notes,
                missed <= i,
                missed == skipped(read),
        {
            let source = &sources[i];
            proof {
                assert(all[i as int] == sources@[i as int].deep_view());
                assert(source_fits(sources@[i as int].deep_view()));
            }
            let found: Option<Vec<CodeSymbol>> = match &source.text {
                Some(t) => match symbols::extract_symbols(source.path.as_str(), t.as_str()) {
                    Ok(list) => Some(list),
                    Err(_) => None,
                },
                None => None,
            };
            let ghost one = ReadView {
                path: source.path@,
                symbols: found.deep_view(),
            };
            proof {
                assert(is_read(all[i as int], one));
                assert(read.push(one).drop_last() =~= read);
                read = read.push(one);
            }
            match found {
                Some(list) => self.set_symbols(source.path.as_str(), list),
                None => missed = missed + 1,
            }
        }
        proof {
            assert(are_read(all, read));
            assert(same_paths(all, read)) by {
                assert forall|i: int| 0 <= i < all.len() implies (#[trigger] read[i]).path == all[i].path by {
                    assert(is_read(all[i], read[i]));
                }
            }
        }
        matching::link_all(self, disk);
        missed
    }
}

} // verus!
