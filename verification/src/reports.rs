//! What the one-shot commands report of an index.
use crate::gather;
use crate::index;
use crate::index::{Disk, DocLink, Index, SymbolRef};
use crate::matching;
use crate::paths;
use crate::resolve;
use crate::symbols;
use crate::text;
use crate::update;
use crate::vault;
use crate::vault::VaultNote;
use vstd::prelude::*;
use vstd::string::*;

verus! {

/// The lines, with line breaks between them.
pub open spec fn joined(lines: Seq<Seq<char>>) -> Seq<char>
    decreases lines.len(),
{
    if lines.len() == 0 {
        Seq::empty()
    } else if lines.len() == 1 {
        lines[0]
    } else {
        joined(lines.drop_last()) + "\n"@ + lines.last()
    }
}

/// The lines, with line breaks between them.
fn join_lines(lines: &Vec<String>) -> (r: String)
    ensures
        r@ == joined(lines.deep_view()),
{
    let ghost all = lines.deep_view();
    let n: usize = lines.len();
    if n == 0 {
        let r = String::new();
        assert(r@ =~= joined(all));
        return r;
    }
    let mut out = lines[0].clone();
    assert(all[0] == lines@[0]@);
    assert(all.take(1) =~= seq![all[0]]);
    for i in 1..n
        invariant
            n == lines@.len(),
            all == lines.deep_view(),
            out@ == joined(all.take(i as int)),
    {
        proof {
            assert(all[i as int] == lines@[i as int]@);
            assert(all.take(i + 1).drop_last() =~= all.take(i as int));
            assert(all.take(i + 1).last() == all[i as int]);
        }
        out.append("\n");
        out.append(lines[i].as_str());
    }
    assert(all.take(n as int) =~= all);
    out
}

/// The line on a note that speaks of a symbol.
pub open spec fn symbol_line(d: index::DocView, name: Seq<char>) -> Seq<char> {
    "  - "@ + d.note_title + " ["@ + d.note_type + "] references `"@ + name + "`"@
}

/// The line on a note that refers to a file.
pub open spec fn ref_line(note: vault::NoteView, path: Seq<char>) -> Seq<char> {
    "  - "@ + note.title + " ["@ + note.note_type + "] has file reference to `"@ + path + "`"@
}

/// The links of a symbol that are traceable to something a note says.
pub open spec fn traceable_docs(v: index::IndexView, file: Seq<char>, name: Seq<char>) -> Seq<
    index::DocView,
> {
    matching::docs_of(v.sym_to_docs, (file, name)).filter(update::traceable())
}

/// The lines on the notes that speak of a symbol of `file`.
pub open spec fn lines_on_symbol(v: index::IndexView, file: Seq<char>) -> spec_fn(
    symbols::SymbolView,
) -> Seq<Seq<char>> {
    |s: symbols::SymbolView|
        Seq::new(
            traceable_docs(v, file, s.name).len(),
            |i: int| symbol_line(traceable_docs(v, file, s.name)[i], s.name),
        )
}

/// The lines on the notes that speak of the symbols of `file`.
pub open spec fn symbol_lines(v: index::IndexView, file: Seq<char>) -> Seq<Seq<char>> {
    if v.code_symbols.has(file) {
        gather::gather(v.code_symbols.at(file), lines_on_symbol(v, file))
    } else {
        Seq::empty()
    }
}

/// The line on a reference of `note` that can mean `file`.
pub open spec fn lines_on_ref(note: vault::NoteView, file: Seq<char>) -> spec_fn(vault::FileRefView) -> Seq<
    Seq<char>,
> {
    |fr: vault::FileRefView|
        if paths::is_tail_of(fr.path, file) {
            seq![ref_line(note, fr.path)]
        } else {
            seq![]
        }
}

/// The lines on the references of the note at a path that can mean `file`.
pub open spec fn lines_on_note(v: index::IndexView, file: Seq<char>) -> spec_fn(Seq<char>) -> Seq<
    Seq<char>,
> {
    |k: Seq<char>|
        gather::gather(v.vault_notes.at(k).file_refs, lines_on_ref(v.vault_notes.at(k), file))
}

/// The lines on the notes that a change of `file` may affect: first those that speak of its
/// symbols, then those that refer to it.
pub open spec fn impact_lines(v: index::IndexView, file: Seq<char>) -> Seq<Seq<char>> {
    text::distinct(
        symbol_lines(v, file) + gather::gather(v.vault_notes.order, lines_on_note(v, file)),
    )
}

/// The report on a change of `file`, or nothing where no note is affected.
pub open spec fn impact_report(file: Seq<char>, lines: Seq<Seq<char>>) -> Option<Seq<char>> {
    if lines.len() == 0 {
        None
    } else {
        Some(
            "Doctrack: changes to `"@ + file + "` may affect "@ + text::decimal(lines.len())
                + " vault note(s):\n"@ + joined(lines),
        )
    }
}

fn write_symbol_line(d: &DocLink, name: &str) -> (r: String)
    ensures
        r@ == symbol_line(d.deep_view(), name@),
{
    let mut out = "  - ".to_string();
    out.append(d.note_title.as_str());
    out.append(" [");
    out.append(d.note_type.as_str());
    out.append("] references `");
    out.append(name);
    out.append("`");
    out
}

fn write_ref_line(note: &VaultNote, path: &str) -> (r: String)
    ensures
        r@ == ref_line(note.deep_view(), path@),
{
    let mut out = "  - ".to_string();
    out.append(note.title.as_str());
    out.append(" [");
    out.append(note.note_type.as_str());
    out.append("] has file reference to `");
    out.append(path);
    out.append("`");
    out
}

impl Index {
    /// The lines on the notes that speak of one symbol.
    fn symbol_impact(&self, file: &String, name: &String) -> (r: Vec<String>)
        requires
            self.wf(),
            paths::normal(file@) == file@,
        ensures
            r.deep_view() == Seq::new(
                traceable_docs(self@, file@, name@).len(),
                |i: int| symbol_line(traceable_docs(self@, file@, name@)[i], name@),
            ),
    {
        let docs = self.verified_docs_for_symbol(file.as_str(), name.as_str());
        let ghost all = traceable_docs(self@, file@, name@);
        let mut out: Vec<String> = Vec::new();
        let n: usize = docs.len();
        assert(docs.deep_view() == all);
        for i in 0..n
            invariant
                n == docs@.len(),
                docs.deep_view() == all,
                out@.len() == i,
                forall|k: int| 0 <= k < i ==> (#[trigger] out@[k])@ == symbol_line(all[k], name@),
        {
            assert(all[i as int] == docs@[i as int].deep_view());
            out.push(write_symbol_line(&docs[i], name.as_str()));
        }
        assert(out.deep_view() =~= Seq::new(all.len(), |i: int| symbol_line(all[i], name@)));
        out
    }

    /// The lines on the notes that speak of the symbols of `file`.
    fn symbols_impact(&self, file: &String) -> (r: Vec<String>)
        requires
            self.wf(),
            paths::normal(file@) == file@,
        ensures
            r.deep_view() == symbol_lines(self@, file@),
    {
        let mut out: Vec<String> = Vec::new();
        match self.code_symbols.get(file) {
            Some(list) => {
                let ghost all = list.deep_view();
                let ghost f = lines_on_symbol(self@, file@);
                let n: usize = list.len();
                assert(out.deep_view() =~= gather::gather(all.take(0), f));
                for i in 0..n
                    invariant
                        self.wf(),
                        paths::normal(file@) == file@,
                        n == list@.len(),
                        all == list.deep_view(),
                        f == lines_on_symbol(self@, file@),
                        out.deep_view() == gather::gather(all.take(i as int), f),
                {
                    let ghost before = out.deep_view();
                    proof {
                        assert(all[i as int] == list@[i as int].deep_view());
                        gather::lemma_gather_step(all, f, i as int);
                    }
                    let mut more = self.symbol_impact(file, &list[i].name);
                    let ghost added = more.deep_view();
                    assert(added =~= f(all[i as int]));
                    out.append(&mut more);
                    assert(out.deep_view() =~= before + added);
                }
                assert(all.take(n as int) =~= all);
            },
            None => {
                assert(out.deep_view() =~= Seq::empty());
            },
        }
        out
    }

    /// The lines on the notes that refer to `file`.
    fn refs_impact(&self, file: &String) -> (r: Vec<String>)
        requires
            self.wf(),
        ensures
            r.deep_view() == gather::gather(self@.vault_notes.order, lines_on_note(self@, file@)),
    {
        let ghost keys = self@.vault_notes.order;
        let ghost f = lines_on_note(self@, file@);
        let mut out: Vec<String> = Vec::new();
        let n: usize = self.vault_notes.len();
        assert(out.deep_view() =~= gather::gather(keys.take(0), f));
        for i in 0..n
            invariant
                self.wf(),
                keys == self@.vault_notes.order,
                n == keys.len(),
                f == lines_on_note(self@, file@),
                out.deep_view() == gather::gather(keys.take(i as int), f),
        {
            let ghost before = out.deep_view();
            proof {
                gather::lemma_gather_step(keys, f, i as int);
            }
            let mut more = note_impact(self.vault_notes.value_at(i), file);
            let ghost added = more.deep_view();
            out.append(&mut more);
            assert(out.deep_view() =~= before + added);
        }
        assert(keys.take(n as int) =~= keys);
        out
    }

    /// After `file` was modified, say which vault notes may need updating. Nothing where none does.
    /// The path of the file is taken from the root of the project.
    pub fn check_impact(&self, file: &str) -> (r: Option<String>)
        requires
            self.wf(),
        ensures
            r.deep_view() == impact_report(
                file@,
                impact_lines(self@, paths::normal(paths::path_join(self@.root, file@))),
            ),
    {
        let path = paths::normalize(paths::join(self.root.as_str(), file).as_str());
        proof {
            paths::law_normal_keeps_components(paths::path_join(self@.root, file@));
        }
        let mut all = self.symbols_impact(&path);
        let ghost first = all.deep_view();
        let mut more = self.refs_impact(&path);
        let ghost second = more.deep_view();
        all.append(&mut more);
        assert(all.deep_view() =~= first + second);
        let lines = text::without_repeats(&all);
        let n: usize = lines.len();
        assert(lines.deep_view().len() == n);
        if n == 0 {
            return None;
        }
        let mut out = "Doctrack: changes to `".to_string();
        out.append(file);
        out.append("` may affect ");
        out.append(text::decimal_text(n as u64).as_str());
        out.append(" vault note(s):\n");
        out.append(join_lines(&lines).as_str());
        Some(out)
    }
}

/// The lines on the references of `note` that can mean `file`.
fn note_impact(note: &VaultNote, file: &String) -> (r: Vec<String>)
    ensures
        r.deep_view() == gather::gather(
            note.deep_view().file_refs,
            lines_on_ref(note.deep_view(), file@),
        ),
{
    let ghost refs = note.deep_view().file_refs;
    let ghost f = lines_on_ref(note.deep_view(), file@);
    let mut out: Vec<String> = Vec::new();
    let n: usize = note.file_refs.len();
    assert(out.deep_view() =~= gather::gather(refs.take(0), f));
    for i in 0..n
        invariant
            refs == note.deep_view().file_refs,
            f == lines_on_ref(note.deep_view(), file@),
            n == note.file_refs@.len(),
            out.deep_view() == gather::gather(refs.take(i as int), f),
    {
        let ghost before = out.deep_view();
        proof {
            assert(refs[i as int] == note.file_refs@[i as int].deep_view());
            gather::lemma_gather_step(refs, f, i as int);
        }
        let path = note.file_refs[i].path.as_str();
        if vault::ref_matches_path(path, file.as_str()) {
            out.push(write_ref_line(note, path));
        }
        assert(out.deep_view() =~= before + f(refs[i as int]));
    }
    assert(refs.take(n as int) =~= refs);
    out
}

/// The issue with a file reference that means no file, or several.
pub open spec fn ref_issues(v: index::IndexView, disk: Set<Seq<char>>) -> spec_fn(vault::FileRefView) -> Seq<
    Seq<char>,
> {
    |fr: vault::FileRefView|
        {
            let found = resolve::resolved(v, fr, disk).len();
            if found == 0 {
                seq!["  - STALE: `"@ + fr.path + "` not found in project"@]
            } else if found > 1 {
                seq![
                    "  - AMBIGUOUS: `"@ + fr.path + "` resolves to "@ + text::decimal(found) + " files"@,
                ]
            } else {
                seq![]
            }
        }
}

/// The path of the note that a wikilink names.
pub open spec fn link_path(v: index::IndexView, link: Seq<char>) -> Seq<char> {
    paths::normal(paths::path_join(v.vault_root, link + ".md"@))
}

/// A note has the title `link`, but for the case of its letters.
pub open spec fn has_title(v: index::IndexView, link: Seq<char>) -> bool {
    exists|i: int|
        0 <= i < v.vault_notes.order.len() && text::same_but_case(
            v.vault_notes.at(#[trigger] v.vault_notes.order[i]).title,
            link,
        )
}

/// The issue with a wikilink that leads to no note.
pub open spec fn link_issues(v: index::IndexView, disk: Set<Seq<char>>) -> spec_fn(Seq<char>) -> Seq<
    Seq<char>,
> {
    |link: Seq<char>|
        if disk.contains(link_path(v, link)) || has_title(v, link) {
            seq![]
        } else {
            seq!["  - BROKEN WIKILINK: [["@ + link + "]]"@]
        }
}

/// The issues of a note: stale and ambiguous file references, then broken wikilinks.
pub open spec fn issues(v: index::IndexView, note: vault::NoteView, disk: Set<Seq<char>>) -> Seq<
    Seq<char>,
> {
    gather::gather(note.file_refs, ref_issues(v, disk)) + gather::gather(
        note.wikilinks,
        link_issues(v, disk),
    )
}

/// The report on the issues of `note`, or nothing where it has none.
pub open spec fn issue_report(note: Seq<char>, lines: Seq<Seq<char>>) -> Option<Seq<char>> {
    if lines.len() == 0 {
        None
    } else {
        Some(
            "Doctrack: "@ + note + " has "@ + text::decimal(lines.len()) + " issue(s):\n"@ + joined(
                lines,
            ),
        )
    }
}

/// What came of a check of a note.
#[derive(Debug, PartialEq, Eq)]
pub enum Validation {
    /// The index knows no such note.
    NotFound,
    /// Nothing is wrong with the note.
    Clean,
    /// The report on the issues of the note.
    Issues(String),
}

/// The contents of a [`Validation`].
#[verifier::ext_equal]
pub enum ValidationView {
    NotFound,
    Clean,
    Issues(Seq<char>),
}

impl DeepView for Validation {
    type V = ValidationView;

    open spec fn deep_view(&self) -> ValidationView {
        match self {
            Validation::NotFound => ValidationView::NotFound,
            Validation::Clean => ValidationView::Clean,
            Validation::Issues(report) => ValidationView::Issues(report@),
        }
    }
}

/// What a check of `note` comes to. The path of the note is taken from the root of the vault.
pub open spec fn validation(v: index::IndexView, note: Seq<char>, disk: Set<Seq<char>>) -> ValidationView {
    let key = paths::normal(paths::path_join(v.vault_root, note));
    if v.vault_notes.has(key) {
        match issue_report(note, issues(v, v.vault_notes.at(key), disk)) {
            Some(report) => ValidationView::Issues(report),
            None => ValidationView::Clean,
        }
    } else {
        ValidationView::NotFound
    }
}

impl Index {
    /// The issues with the file references of a note.
    fn stale_refs(&self, note: &VaultNote, disk: &Disk) -> (r: Vec<String>)
        requires
            self.wf(),
            disk.wf(),
        ensures
            r.deep_view() == gather::gather(note.deep_view().file_refs, ref_issues(self@, disk@)),
    {
        let ghost refs = note.deep_view().file_refs;
        let ghost f = ref_issues(self@, disk@);
        let mut out: Vec<String> = Vec::new();
        let n: usize = note.file_refs.len();
        assert(out.deep_view() =~= gather::gather(refs.take(0), f));
        for i in 0..n
            invariant
                self.wf(),
                disk.wf(),
                refs == note.deep_view().file_refs,
                f == ref_issues(self@, disk@),
                n == note.file_refs@.len(),
                out.deep_view() == gather::gather(refs.take(i as int), f),
        {
            let ghost before = out.deep_view();
            proof {
                assert(refs[i as int] == note.file_refs@[i as int].deep_view());
                gather::lemma_gather_step(refs, f, i as int);
            }
            let file_ref = &note.file_refs[i];
            let found = self.resolve_file_ref(file_ref, disk);
            let count: usize = found.len();
            assert(found.deep_view().len() == count);
            if count == 0 {
                let mut line = "  - STALE: `".to_string();
                line.append(file_ref.path.as_str());
                line.append("` not found in project");
                out.push(line);
            } else if count > 1 {
                let mut line = "  - AMBIGUOUS: `".to_string();
                line.append(file_ref.path.as_str());
                line.append("` resolves to ");
                line.append(text::decimal_text(count as u64).as_str());
                line.append(" files");
                out.push(line);
            }
            assert(out.deep_view() =~= before + f(refs[i as int]));
        }
        assert(refs.take(n as int) =~= refs);
        out
    }

    /// The path of the note that a wikilink names.
    pub fn wikilink_path(&self, link: &str) -> (r: String)
        ensures
            r@ == link_path(self@, link@),
    {
        let mut name = link.to_string();
        name.append(".md");
        paths::normalize(paths::join(self.vault_root.as_str(), name.as_str()).as_str())
    }

    /// Whether a note has the title `link`, but for the case of its letters.
    fn any_titled(&self, link: &str) -> (r: bool)
        requires
            self.wf(),
        ensures
            r == has_title(self@, link@),
    {
        let ghost v = self@;
        let n: usize = self.vault_notes.len();
        for i in 0..n
            invariant
                self.wf(),
                v == self@,
                n == v.vault_notes.order.len(),
                forall|k: int|
                    0 <= k < i ==> !text::same_but_case(
                        v.vault_notes.at(#[trigger] v.vault_notes.order[k]).title,
                        link@,
                    ),
        {
            if text::eq_ignore_case(self.vault_notes.value_at(i).title.as_str(), link) {
                return true;
            }
        }
        false
    }

    /// The issues with the wikilinks of a note.
    fn broken_links(&self, note: &VaultNote, disk: &Disk) -> (r: Vec<String>)
        requires
            self.wf(),
            disk.wf(),
        ensures
            r.deep_view() == gather::gather(note.deep_view().wikilinks, link_issues(self@, disk@)),
    {
        let ghost links = note.deep_view().wikilinks;
        let ghost f = link_issues(self@, disk@);
        let mut out: Vec<String> = Vec::new();
        let n: usize = note.wikilinks.len();
        assert(out.deep_view() =~= gather::gather(links.take(0), f));
        for i in 0..n
            invariant
                self.wf(),
                disk.wf(),
                links == note.deep_view().wikilinks,
                f == link_issues(self@, disk@),
                n == note.wikilinks@.len(),
                out.deep_view() == gather::gather(links.take(i as int), f),
        {
            let ghost before = out.deep_view();
            proof {
                assert(links[i as int] == note.wikilinks@[i as int]@);
                gather::lemma_gather_step(links, f, i as int);
            }
            let link = note.wikilinks[i].as_str();
            if !disk.has(&self.wikilink_path(link)) && !self.any_titled(link) {
                let mut line = "  - BROKEN WIKILINK: [[".to_string();
                line.append(link);
                line.append("]]");
                out.push(line);
            }
            assert(out.deep_view() =~= before + f(links[i as int]));
        }
        assert(links.take(n as int) =~= links);
        out
    }

    /// Check a vault note for stale references and broken wikilinks. The path of the note is taken
    /// from the root of the vault.
    pub fn validate_note(&self, note: &str, disk: &Disk) -> (r: Validation)
        requires
            self.wf(),
            disk.wf(),
        ensures
            r.deep_view() == validation(self@, note@, disk@),
    {
        let key = paths::normalize(paths::join(self.vault_root.as_str(), note).as_str());
        let found = match self.vault_notes.get(&key) {
            Some(found) => found,
            None => {
                return Validation::NotFound;
            },
        };
        let mut lines = self.stale_refs(found, disk);
        let ghost first = lines.deep_view();
        let mut more = self.broken_links(found, disk);
        let ghost second = more.deep_view();
        lines.append(&mut more);
        assert(lines.deep_view() =~= first + second);
        let n: usize = lines.len();
        assert(lines.deep_view().len() == n);
        if n == 0 {
            return Validation::Clean;
        }
        let mut out = "Doctrack: ".to_string();
        out.append(note);
        out.append(" has ");
        out.append(text::decimal_text(n as u64).as_str());
        out.append(" issue(s):\n");
        out.append(join_lines(&lines).as_str());
        Validation::Issues(out)
    }
}

/// One of the references is traceable to something the note says.
pub open spec fn any_traceable(refs: Seq<index::RefView>) -> bool {
    exists|i: int| 0 <= i < refs.len() && index::is_traceable((#[trigger] refs[i]).confidence)
}

/// The notes with a link that is traceable to something they say.
pub open spec fn documenting(v: index::IndexView) -> Set<Seq<char>> {
    Set::new(|n: Seq<char>| v.doc_to_syms.contains_key(n) && any_traceable(v.doc_to_syms[n]))
}

/// How many links of the symbols `keys` are traceable to something a note says.
pub open spec fn traceable_links(
    docs: Map<(Seq<char>, Seq<char>), Seq<index::DocView>>,
    keys: Seq<(Seq<char>, Seq<char>)>,
) -> nat
    decreases keys.len(),
{
    if keys.len() == 0 {
        0
    } else {
        traceable_links(docs, keys.drop_last()) + docs[keys.last()].filter(update::traceable()).len()
    }
}

/// `keys` are the symbols with links, each once.
pub open spec fn lists_symbols(v: index::IndexView, keys: Seq<(Seq<char>, Seq<char>)>) -> bool {
    keys.no_duplicates() && keys.to_set() == v.sym_to_docs.dom()
}

/// How much of a vault is linked to code. Guesses from titles do not count.
#[derive(Debug, Clone, Copy, PartialEq, Eq)]
pub struct Coverage {
    /// The notes of the vault.
    pub notes: usize,
    /// The source files that are indexed.
    pub code_files: usize,
    /// The notes that are linked to a symbol.
    pub linked: usize,
    /// The links.
    pub links: usize,
}

/// The one-line summary of a coverage, where `percent` is the share of the notes that are linked.
pub open spec fn summary_line(c: Coverage, percent: nat) -> Seq<char> {
    "Doctrack: "@ + text::decimal(c.notes as nat) + " notes, "@ + text::decimal(c.code_files as nat)
        + " code files, "@ + text::decimal(c.links as nat) + " links, "@ + text::decimal(percent)
        + "% coverage"@
}

impl Coverage {
    /// The coverage of an index. The number of links is exact as far as it can be held.
    pub open spec fn measures(&self, v: index::IndexView) -> bool {
        &&& self.notes == v.vault_notes.order.len()
        &&& self.code_files == v.code_symbols.order.len()
        &&& documenting(v).finite()
        &&& self.linked == documenting(v).len()
        &&& exists|keys: Seq<(Seq<char>, Seq<char>)>|
            #[trigger] lists_symbols(v, keys) && self.links == (if traceable_links(v.sym_to_docs, keys)
                <= usize::MAX {
                traceable_links(v.sym_to_docs, keys)
            } else {
                usize::MAX as nat
            })
    }

    /// The one-line summary, where `percent` is the share of the notes that are linked.
    pub fn summary(&self, percent: u32) -> (r: String)
        ensures
            r@ == "Doctrack: "@ + text::decimal(self.notes as nat) + " notes, "@ + text::decimal(
                self.code_files as nat,
            ) + " code files, "@ + text::decimal(self.links as nat) + " links, "@ + text::decimal(
                percent as nat,
            ) + "% coverage"@,
            r@ == summary_line(*self, percent as nat),
    {
        let mut out = "Doctrack: ".to_string();
        out.append(text::decimal_text(self.notes as u64).as_str());
        out.append(" notes, ");
        out.append(text::decimal_text(self.code_files as u64).as_str());
        out.append(" code files, ");
        out.append(text::decimal_text(self.links as u64).as_str());
        out.append(" links, ");
        out.append(text::decimal_text(percent as u64).as_str());
        out.append("% coverage");
        out
    }
}

/// Whether one of the references is traceable to something the note says.
fn has_traceable(refs: &Vec<SymbolRef>) -> (r: bool)
    ensures
        r == any_traceable(refs.deep_view()),
{
    let n: usize = refs.len();
    for i in 0..n
        invariant
            n == refs@.len(),
            forall|k: int|
                0 <= k < i ==> !index::is_traceable((#[trigger] refs.deep_view()[k]).confidence),
    {
        assert(refs.deep_view()[i as int] == refs@[i as int].deep_view());
        if refs[i].confidence.is_verified() {
            return true;
        }
    }
    false
}

/// How many of the links are traceable to something a note says.
fn count_traceable(docs: &Vec<DocLink>) -> (r: usize)
    ensures
        r == docs.deep_view().filter(update::traceable()).len(),
{
    let ghost all = docs.deep_view();
    let mut count: usize = 0;
    let n: usize = docs.len();
    proof {
        reveal(Seq::filter);
    }
    for i in 0..n
        invariant
            n == docs@.len(),
            all == docs.deep_view(),
            count <= i,
            count == all.take(i as int).filter(update::traceable()).len(),
    {
        proof {
            assert(all[i as int] == docs@[i as int].deep_view());
            gather::lemma_filter_step(all, update::traceable(), i as int);
        }
        if docs[i].confidence.is_verified() {
            count = count + 1;
        }
    }
    assert(all.take(n as int) =~= all);
    count
}

impl Index {
    /// How many notes have a link that is traceable to something they say.
    fn count_documenting(&self) -> (r: usize)
        requires
            self.wf(),
        ensures
            documenting(self@).finite(),
            r == documenting(self@).len(),
    {
        let ghost v = self@;
        let ghost keys = self.doc_to_syms@.order;
        let ghost all = documenting(v);
        let mut count: usize = 0;
        let n: usize = self.doc_to_syms.len();
        proof {
            self.doc_to_syms.lemma_listing();
            assert(keys.take(0).to_set().intersect(all) =~= Set::empty());
        }
        for i in 0..n
            invariant
                self.wf(),
                v == self@,
                keys == self.doc_to_syms@.order,
                keys.no_duplicates(),
                all == documenting(v),
                n == keys.len(),
                count <= i,
                keys.take(i as int).to_set().intersect(all).finite(),
                count == keys.take(i as int).to_set().intersect(all).len(),
        {
            let ghost done = keys.take(i as int);
            let ghost key = keys[i as int];
            proof {
                assert(keys.take(i + 1) =~= done.push(key));
                gather::lemma_push_set(done, key);
                assert(!done.contains(key)) by {
                    if done.contains(key) {
                        assert(keys[done.index_of(key)] == keys[i as int]);
                    }
                }
                if all.contains(key) {
                    assert(done.to_set().insert(key).intersect(all) =~= done.to_set().intersect(all).insert(
                        key,
                    ));
                } else {
                    assert(done.to_set().insert(key).intersect(all) =~= done.to_set().intersect(all));
                }
            }
            if has_traceable(self.doc_to_syms.value_at(i)) {
                count = count + 1;
            }
        }
        proof {
            assert(keys.take(n as int) =~= keys);
            assert(keys.to_set().intersect(all) =~= all) by {
                assert forall|k: Seq<char>| all.contains(k) implies keys.to_set().contains(k) by {
                    assert(self.doc_to_syms@.entries.contains_key(k));
                }
            }
        }
        count
    }

    /// A quick summary of how much of the vault is linked to code.
    ///
    /// Guesses from titles are excluded: they would inflate the one number that a user sees at
    /// every session start.
    pub fn coverage(&self) -> (r: Coverage)
        requires
            self.wf(),
        ensures
            r.measures(self@),
    {
        let ghost v = self@;
        let ghost keys = self.sym_to_docs@.order;
        let linked: usize = self.count_documenting();
        let mut links: usize = 0;
        let n: usize = self.sym_to_docs.len();
        assert(keys.take(0) =~= Seq::empty());
        for i in 0..n
            invariant
                self.wf(),
                v == self@,
                keys == self.sym_to_docs@.order,
                n == keys.len(),
                links == (if traceable_links(v.sym_to_docs, keys.take(i as int)) <= usize::MAX {
                    traceable_links(v.sym_to_docs, keys.take(i as int))
                } else {
                    usize::MAX as nat
                }),
        {
            proof {
                assert(keys.take(i + 1).drop_last() =~= keys.take(i as int));
                assert(keys.take(i + 1).last() == keys[i as int]);
            }
            let more: usize = count_traceable(self.sym_to_docs.value_at(i));
            links = links.saturating_add(more);
        }
        proof {
            assert(keys.take(n as int) =~= keys);
            self.sym_to_docs.lemma_listing();
            assert(keys.to_set() =~= v.sym_to_docs.dom()) by {
                assert forall|k: (Seq<char>, Seq<char>)| keys.to_set().contains(k)
                    == v.sym_to_docs.dom().contains(k) by {
                    assert(self.sym_to_docs@.entries.contains_key(k) <==> keys.contains(k));
                }
            }
            assert(lists_symbols(v, keys));
        }
        Coverage {
            notes: self.vault_notes.len(),
            code_files: self.code_symbols.len(),
            linked,
            links,
        }
    }
}

} // verus!
