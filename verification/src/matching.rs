//! Links between notes and symbols.
//!
//! A note is linked in three tiers, strongest first: the symbols of the files it refers to, the
//! symbols it names in backticks, and, as a last resort, the symbols of the file whose name is most
//! like its title.
use crate::fuzzy;
use crate::gather;
use crate::index;
use crate::index::{Disk, DocLink, Index, MatchConfidence, SymbolId, SymbolRef};
use crate::paths;
use crate::resolve;
use crate::symbols;
use crate::table::Table;
use crate::text;
use crate::vault;
use crate::vault::VaultNote;
use vstd::prelude::*;
use vstd::string::*;

verus! {

/// Minimum score for a note title to count as a match for a file name. Fuzzy links are a navigation
/// hint of last resort, so the bar is deliberately higher than a bare "the characters appear in
/// order".
pub const FUZZY_SCORE_THRESHOLD: u32 = 80;

/// Cap on how many definitions a single backtick identifier may link to. Past this fan-out the
/// reference carries no information about which definition is meant, so linking none is more honest
/// than linking all.
pub const MAX_STRONG_FANOUT: usize = 8;

/// Identifiers below this length, in characters, are too generic to be a useful reference.
pub const MIN_IDENT_LEN: usize = 3;

/// A link that a note is due: the symbol, how it was found, and what the link says.
#[verifier::ext_equal]
pub struct LinkView {
    pub symbol: (Seq<char>, Seq<char>),
    pub confidence: MatchConfidence,
    pub context: Seq<char>,
}

/// A reference to `line` means the symbol: it names no line, or one of the symbol's lines.
pub open spec fn covers(s: symbols::SymbolView, line: Option<u32>) -> bool {
    match line {
        Some(n) => s.start_line <= n <= s.end_line,
        None => true,
    }
}

/// The link to a symbol of `file` that a reference to `line` makes.
pub open spec fn symbol_links(
    file: Seq<char>,
    line: Option<u32>,
    summary: Seq<char>,
) -> spec_fn(symbols::SymbolView) -> Seq<LinkView> {
    |s: symbols::SymbolView|
        if covers(s, line) {
            seq![
                LinkView {
                    symbol: (file, s.name),
                    confidence: MatchConfidence::Exact,
                    context: summary,
                },
            ]
        } else {
            seq![]
        }
}

/// The links to the symbols of a file that a reference to `line` makes.
pub open spec fn file_links(v: index::IndexView, line: Option<u32>, summary: Seq<char>) -> spec_fn(
    Seq<char>,
) -> Seq<LinkView> {
    |file: Seq<char>|
        if v.code_symbols.has(file) {
            gather::gather(v.code_symbols.at(file), symbol_links(file, line, summary))
        } else {
            seq![]
        }
}

/// The links that a file reference makes.
pub open spec fn ref_links(v: index::IndexView, summary: Seq<char>, disk: Set<Seq<char>>) -> spec_fn(
    vault::FileRefView,
) -> Seq<LinkView> {
    |fr: vault::FileRefView|
        gather::gather(resolve::resolved(v, fr, disk), file_links(v, fr.line, summary))
}

/// The first tier: links to the symbols of the files that the note refers to.
pub open spec fn exact_links(
    v: index::IndexView,
    note: vault::NoteView,
    disk: Set<Seq<char>>,
) -> Seq<LinkView> {
    gather::gather(note.file_refs, ref_links(v, note.summary, disk))
}

/// The places where `name` is defined.
pub open spec fn definitions(v: index::IndexView, name: Seq<char>) -> Seq<(Seq<char>, Seq<char>)> {
    if v.symbol_names.contains_key(name) {
        v.symbol_names[name]
    } else {
        Seq::empty()
    }
}

/// `name` is long enough, and has few enough definitions, to be told apart.
pub open spec fn is_telling(v: index::IndexView, name: Seq<char>) -> bool {
    &&& name.len() >= MIN_IDENT_LEN
    &&& definitions(v, name).len() <= MAX_STRONG_FANOUT
}

/// What a link made by an identifier says.
pub open spec fn strong_context(name: Seq<char>) -> Seq<char> {
    "references `"@ + name + "`"@
}

/// The links to `ids` that the identifier `name` makes.
pub open spec fn strong_to(ids: Seq<(Seq<char>, Seq<char>)>, name: Seq<char>) -> Seq<LinkView> {
    Seq::new(
        ids.len(),
        |i: int|
            LinkView {
                symbol: ids[i],
                confidence: MatchConfidence::Strong,
                context: strong_context(name),
            },
    )
}

/// The links that an identifier makes.
pub open spec fn ident_links(v: index::IndexView) -> spec_fn(Seq<char>) -> Seq<LinkView> {
    |name: Seq<char>|
        if is_telling(v, name) {
            strong_to(definitions(v, name), name)
        } else {
            seq![]
        }
}

/// The second tier: links to the symbols that the note names.
pub open spec fn strong_links(v: index::IndexView, note: vault::NoteView) -> Seq<LinkView> {
    gather::gather(note.code_idents, ident_links(v))
}

/// What a link made by a guess says.
pub open spec fn fuzzy_context(score: u32) -> Seq<char> {
    "fuzzy title match (score: "@ + text::decimal(score as nat) + ")"@
}

/// The third tier: links to the symbols of the file that was guessed.
pub open spec fn fuzzy_links(v: index::IndexView, guess: Option<(Seq<char>, u32)>) -> Seq<LinkView> {
    match guess {
        Some((file, score)) => if v.code_symbols.has(file) {
            Seq::new(
                v.code_symbols.at(file).len(),
                |i: int|
                    LinkView {
                        symbol: (file, v.code_symbols.at(file)[i].name),
                        confidence: MatchConfidence::Fuzzy,
                        context: fuzzy_context(score),
                    },
            )
        } else {
            seq![]
        },
        None => seq![],
    }
}

/// All links that a note is due, tier by tier. A guess counts only where no file reference made a
/// link.
pub open spec fn due_links(
    v: index::IndexView,
    note: vault::NoteView,
    disk: Set<Seq<char>>,
    guess: Option<(Seq<char>, u32)>,
) -> Seq<LinkView> {
    exact_links(v, note, disk) + strong_links(v, note) + (if exact_links(v, note, disk).len() == 0 {
        fuzzy_links(v, guess)
    } else {
        seq![]
    })
}

/// One of the links is to `symbol`.
pub open spec fn links_to(links: Seq<LinkView>, symbol: (Seq<char>, Seq<char>)) -> bool {
    exists|i: int| 0 <= i < links.len() && (#[trigger] links[i]).symbol == symbol
}

/// The first link to each symbol.
pub open spec fn first_of_each(links: Seq<LinkView>) -> Seq<LinkView>
    decreases links.len(),
{
    if links.len() == 0 {
        Seq::empty()
    } else {
        let head = first_of_each(links.drop_last());
        if links_to(head, links.last().symbol) {
            head
        } else {
            head.push(links.last())
        }
    }
}

/// The link, as it is stored with the symbol.
pub open spec fn doc_of(note: vault::NoteView, link: LinkView) -> index::DocView {
    index::DocView {
        note_path: paths::normal(note.path),
        note_title: note.title,
        note_type: note.note_type,
        context: link.context,
        confidence: link.confidence,
    }
}

/// The links stored with `symbol`.
pub open spec fn docs_of(
    docs: Map<(Seq<char>, Seq<char>), Seq<index::DocView>>,
    symbol: (Seq<char>, Seq<char>),
) -> Seq<index::DocView> {
    if docs.contains_key(symbol) {
        docs[symbol]
    } else {
        Seq::empty()
    }
}

/// Each link is stored behind those that its symbol has.
pub open spec fn with_docs(
    docs: Map<(Seq<char>, Seq<char>), Seq<index::DocView>>,
    note: vault::NoteView,
    links: Seq<LinkView>,
) -> Map<(Seq<char>, Seq<char>), Seq<index::DocView>>
    decreases links.len(),
{
    if links.len() == 0 {
        docs
    } else {
        let before = with_docs(docs, note, links.drop_last());
        let link = links.last();
        before.insert(link.symbol, docs_of(before, link.symbol).push(doc_of(note, link)))
    }
}

/// The links, as they are stored with the note.
pub open spec fn refs_of(links: Seq<LinkView>) -> Seq<index::RefView> {
    Seq::new(
        links.len(),
        |i: int| index::RefView { symbol: links[i].symbol, confidence: links[i].confidence },
    )
}

/// The index after `links` were stored for `note`.
pub open spec fn with_links(v: index::IndexView, note: vault::NoteView, links: Seq<LinkView>) -> index::IndexView {
    index::IndexView {
        sym_to_docs: with_docs(v.sym_to_docs, note, links),
        doc_to_syms: if links.len() > 0 {
            v.doc_to_syms.insert(paths::normal(note.path), refs_of(links))
        } else {
            v.doc_to_syms
        },
        ..v
    }
}

/// The index after `note` was linked, where `guess` is the file most like its title.
pub open spec fn linked_with(
    v: index::IndexView,
    note: vault::NoteView,
    disk: Set<Seq<char>>,
    guess: Option<(Seq<char>, u32)>,
) -> index::IndexView {
    with_links(v, note, first_of_each(due_links(v, note, disk, guess)))
}

/// The score is higher than that of the best file so far.
pub open spec fn beats(score: u32, best: Option<(Seq<char>, u32)>) -> bool {
    match best {
        Some((_, top)) => score > top,
        None => true,
    }
}

/// Of files in a row, each with its score, the first of those with the highest score, where that
/// reaches the threshold.
pub open spec fn best_of(scored: Seq<(Seq<char>, Option<u32>)>) -> Option<(Seq<char>, u32)>
    decreases scored.len(),
{
    if scored.len() == 0 {
        None
    } else {
        let best = best_of(scored.drop_last());
        match scored.last().1 {
            Some(score) => if score >= FUZZY_SCORE_THRESHOLD && beats(score, best) {
                Some((scored.last().0, score))
            } else {
                best
            },
            None => best,
        }
    }
}

/// The score of a file for a title.
pub open spec fn file_score(title: Seq<char>, file: Seq<char>) -> Option<u32> {
    match paths::stem_of(file) {
        Some(stem) => fuzzy::title_score(title, stem),
        None => None,
    }
}

/// The indexed files, each with its score for a title.
pub open spec fn scored_files(v: index::IndexView, title: Seq<char>) -> Seq<(Seq<char>, Option<u32>)> {
    Seq::new(
        v.code_symbols.order.len(),
        |i: int| (v.code_symbols.order[i], file_score(title, v.code_symbols.order[i])),
    )
}

/// The index after `note` was linked.
pub open spec fn linked(v: index::IndexView, note: vault::NoteView, disk: Set<Seq<char>>) -> index::IndexView {
    linked_with(v, note, disk, best_of(scored_files(v, note.title)))
}

/// The name of the file can be scored for a title.
pub open spec fn file_scorable(title: Seq<char>, file: Seq<char>) -> bool {
    paths::stem_of(file) matches Some(stem) ==> fuzzy::is_scorable(title, stem)
}

/// The names of all indexed files can be scored for a title.
pub open spec fn title_scorable(v: index::IndexView, title: Seq<char>) -> bool {
    forall|i: int|
        0 <= i < v.code_symbols.order.len() ==> file_scorable(title, #[trigger] v.code_symbols.order[i])
}

/// The note can be linked: a file reference makes a link, so that its title is not scored, or its
/// title can be.
pub open spec fn linkable(v: index::IndexView, note: vault::NoteView, disk: Set<Seq<char>>) -> bool {
    exact_links(v, note, disk).len() == 0 ==> title_scorable(v, note.title)
}

/// Every note can be linked.
pub open spec fn all_linkable(v: index::IndexView, disk: Set<Seq<char>>) -> bool {
    forall|k: Seq<char>| #[trigger] v.vault_notes.has(k) ==> linkable(v, v.vault_notes.at(k), disk)
}

/// The title of every note can be scored.
pub open spec fn titles_scorable(v: index::IndexView) -> bool {
    forall|k: Seq<char>| #[trigger] v.vault_notes.has(k) ==> title_scorable(v, v.vault_notes.at(k).title)
}

/// The file can be scored for the title of every note.
pub open spec fn scorable_for_all(v: index::IndexView, file: Seq<char>) -> bool {
    forall|k: Seq<char>| #[trigger]
        v.vault_notes.has(k) ==> file_scorable(v.vault_notes.at(k).title, file)
}

/// A link that a note is due.
struct Link {
    symbol: SymbolId,
    confidence: MatchConfidence,
    context: String,
}

impl DeepView for Link {
    type V = LinkView;

    closed spec fn deep_view(&self) -> LinkView {
        LinkView {
            symbol: self.symbol.deep_view(),
            confidence: self.confidence,
            context: self.context@,
        }
    }
}

impl Index {
    /// Every definition site recorded for a symbol name.
    pub fn definitions_of(&self, name: &str) -> (r: Vec<SymbolId>)
        requires
            self.wf(),
        ensures
            r.deep_view() == definitions(self@, name@),
    {
        match self.symbol_names.get(&name.to_string()) {
            Some(ids) => {
                let r = ids.clone();
                assert(r.deep_view() =~= ids.deep_view());
                r
            },
            None => {
                let r: Vec<SymbolId> = Vec::new();
                assert(r.deep_view() =~= Seq::<(Seq<char>, Seq<char>)>::empty());
                r
            },
        }
    }
}

/// Adds the links to the symbols of `file` that a reference to `line` makes.
fn add_file_links(
    index: &Index,
    file: &String,
    line: Option<u32>,
    summary: &String,
    out: &mut Vec<Link>,
)
    requires
        index.wf(),
    ensures
        final(out).deep_view() == old(out).deep_view() + file_links(index@, line, summary@)(file@),
{
    let ghost start = out.deep_view();
    if let Some(found) = index.code_symbols.get(file) {
        let ghost all = found.deep_view();
        let ghost f = symbol_links(file@, line, summary@);
        let n: usize = found.len();
        assert(all.take(0) =~= Seq::<symbols::SymbolView>::empty());
        assert(start + gather::gather(all.take(0), f) =~= start);
        for i in 0..n
            invariant
                n == found@.len(),
                all == found.deep_view(),
                f == symbol_links(file@, line, summary@),
                out.deep_view() == start + gather::gather(all.take(i as int), f),
        {
            let sym = &found[i];
            let ghost before = out.deep_view();
            proof {
                assert(all[i as int] == sym.deep_view());
                gather::lemma_gather_step(all, f, i as int);
            }
            let hit: bool = match line {
                Some(n) => n >= sym.start_line && n <= sym.end_line,
                None => true,
            };
            if hit {
                let link = Link {
                    symbol: SymbolId { file: file.clone(), name: sym.name.clone() },
                    confidence: MatchConfidence::Exact,
                    context: summary.clone(),
                };
                let ghost lv = link.deep_view();
                out.push(link);
                assert(out.deep_view() =~= before.push(lv));
                assert(f(all[i as int]) =~= seq![lv]);
            }
            assert(out.deep_view() =~= before + f(all[i as int]));
            assert(out.deep_view() =~= start + gather::gather(all.take(i + 1), f));
        }
        assert(all.take(n as int) =~= all);
    } else {
        assert(out.deep_view() =~= start + Seq::<LinkView>::empty());
    }
}

/// The first tier: links to the symbols of the files that the note refers to.
fn find_exact(index: &Index, note: &VaultNote, disk: &Disk) -> (r: Vec<Link>)
    requires
        index.wf(),
        disk.wf(),
    ensures
        r.deep_view() == exact_links(index@, note.deep_view(), disk@),
{
    let mut out: Vec<Link> = Vec::new();
    let ghost refs = note.deep_view().file_refs;
    let ghost f = ref_links(index@, note.summary@, disk@);
    let n: usize = note.file_refs.len();
    assert(refs.take(0) =~= Seq::<vault::FileRefView>::empty());
    assert(out.deep_view() =~= gather::gather(refs.take(0), f));
    for i in 0..n
        invariant
            index.wf(),
            disk.wf(),
            n == note.file_refs@.len(),
            refs == note.file_refs.deep_view(),
            f == ref_links(index@, note.summary@, disk@),
            out.deep_view() == gather::gather(refs.take(i as int), f),
    {
        let file_ref = &note.file_refs[i];
        let ghost start = out.deep_view();
        assert(refs[i as int] == file_ref.deep_view());
        let files = index.resolve_file_ref(file_ref, disk);
        let ghost hits = files.deep_view();
        let ghost g = file_links(index@, file_ref.line, note.summary@);
        let m: usize = files.len();
        assert(hits.take(0) =~= Seq::<Seq<char>>::empty());
        assert(start + gather::gather(hits.take(0), g) =~= start);
        for j in 0..m
            invariant
                index.wf(),
                m == files@.len(),
                hits == files.deep_view(),
                g == file_links(index@, file_ref.line, note.summary@),
                out.deep_view() == start + gather::gather(hits.take(j as int), g),
        {
            proof {
                assert(hits[j as int] == files@[j as int]@);
                gather::lemma_gather_step(hits, g, j as int);
            }
            add_file_links(index, &files[j], file_ref.line, &note.summary, &mut out);
            assert(out.deep_view() =~= start + gather::gather(hits.take(j + 1), g));
        }
        proof {
            assert(hits.take(m as int) =~= hits);
            gather::lemma_gather_step(refs, f, i as int);
            assert(f(refs[i as int]) =~= gather::gather(hits, g));
        }
    }
    assert(refs.take(n as int) =~= refs);
    out
}

/// The second tier: links to the symbols that the note names.
fn find_strong(index: &Index, note: &VaultNote) -> (r: Vec<Link>)
    requires
        index.wf(),
    ensures
        r.deep_view() == strong_links(index@, note.deep_view()),
{
    let mut out: Vec<Link> = Vec::new();
    let ghost names = note.deep_view().code_idents;
    let ghost f = ident_links(index@);
    let n: usize = note.code_idents.len();
    assert(names.take(0) =~= Seq::<Seq<char>>::empty());
    assert(out.deep_view() =~= gather::gather(names.take(0), f));
    for i in 0..n
        invariant
            index.wf(),
            n == note.code_idents@.len(),
            names == note.code_idents.deep_view(),
            f == ident_links(index@),
            out.deep_view() == gather::gather(names.take(i as int), f),
    {
        let name = &note.code_idents[i];
        let ghost start = out.deep_view();
        proof {
            assert(names[i as int] == name@);
            gather::lemma_gather_step(names, f, i as int);
        }
        let found = index.definitions_of(name.as_str());
        let length: usize = text::chars_of(name.as_str()).len();
        if length >= MIN_IDENT_LEN && found.len() <= MAX_STRONG_FANOUT {
            let ghost ids = found.deep_view();
            let ghost due = strong_to(ids, name@);
            let m: usize = found.len();
            assert(start + due.take(0) =~= start);
            for j in 0..m
                invariant
                    m == found@.len(),
                    ids == found.deep_view(),
                    due == strong_to(ids, name@),
                    out.deep_view() == start + due.take(j as int),
            {
                let ghost before = out.deep_view();
                let mut context = "references `".to_string();
                context.append(name.as_str());
                context.append("`");
                assert(ids[j as int] == found@[j as int].deep_view());
                let link = Link {
                    symbol: found[j].clone(),
                    confidence: MatchConfidence::Strong,
                    context,
                };
                assert(link.deep_view() == due[j as int]);
                out.push(link);
                assert(out.deep_view() =~= before.push(due[j as int]));
                assert(start + due.take(j + 1) =~= (start + due.take(j as int)).push(due[j as int]));
            }
            assert(due.take(m as int) =~= due);
            assert(f(names[i as int]) =~= due);
        } else {
            assert(f(names[i as int]) =~= Seq::<LinkView>::empty());
            assert(out.deep_view() =~= start + f(names[i as int]));
        }
    }
    assert(names.take(n as int) =~= names);
    out
}

/// The third tier: links to the symbols of the file that was guessed.
fn find_fuzzy(index: &Index, guess: &Option<(String, u32)>) -> (r: Vec<Link>)
    requires
        index.wf(),
    ensures
        r.deep_view() == fuzzy_links(index@, guess_view(*guess)),
{
    let mut out: Vec<Link> = Vec::new();
    let ghost due = fuzzy_links(index@, guess_view(*guess));
    match guess {
        Some((file, score)) => match index.code_symbols.get(file) {
            Some(found) => {
                let n: usize = found.len();
                assert(out.deep_view() =~= due.take(0));
                for i in 0..n
                    invariant
                        n == found@.len(),
                        due.len() == n,
                        index@.code_symbols.has(file@),
                        found.deep_view() == index@.code_symbols.at(file@),
                        due == fuzzy_links(index@, Some((file@, *score))),
                        out.deep_view() == due.take(i as int),
                {
                    let ghost before = out.deep_view();
                    let mut context = "fuzzy title match (score: ".to_string();
                    context.append(text::decimal_text(*score as u64).as_str());
                    context.append(")");
                    assert(found.deep_view()[i as int] == found@[i as int].deep_view());
                    let link = Link {
                        symbol: SymbolId { file: file.clone(), name: found[i].name.clone() },
                        confidence: MatchConfidence::Fuzzy,
                        context,
                    };
                    assert(link.deep_view() == due[i as int]);
                    out.push(link);
                    assert(out.deep_view() =~= before.push(due[i as int]));
                    assert(due.take(i + 1) =~= due.take(i as int).push(due[i as int]));
                }
                assert(due.take(n as int) =~= due);
            },
            None => {
                assert(out.deep_view() =~= due);
            },
        },
        None => {
            assert(out.deep_view() =~= due);
        },
    }
    out
}

/// A guess, as the contracts speak of it.
pub open spec fn guess_view(guess: Option<(String, u32)>) -> Option<(Seq<char>, u32)> {
    match guess {
        Some((file, score)) => Some((file@, score)),
        None => None,
    }
}

/// Stores the first link to each symbol.
fn store_links(index: &mut Index, note: &VaultNote, due: Vec<Link>)
    requires
        old(index).wf(),
    ensures
        final(index).wf(),
        final(index)@ == with_links(old(index)@, note.deep_view(), first_of_each(due.deep_view())),
{
    let ghost v = index@;
    let ghost nv = note.deep_view();
    let ghost all = due.deep_view();
    let key = paths::normalize(note.path.as_str());
    let mut refs: Vec<SymbolRef> = Vec::new();
    let mut seen: Table<SymbolId, bool> = Table::new();
    let n: usize = due.len();
    assert(all.take(0) =~= Seq::<LinkView>::empty());
    assert(first_of_each(all.take(0)) =~= Seq::<LinkView>::empty());
    assert(refs.deep_view() =~= refs_of(first_of_each(all.take(0))));
    assert(index@ =~= index::IndexView {
        sym_to_docs: with_docs(v.sym_to_docs, nv, first_of_each(all.take(0))),
        ..v
    });
    for i in 0..n
        invariant
            n == due@.len(),
            all == due.deep_view(),
            nv == note.deep_view(),
            key@ == paths::normal(nv.path),
            index.wf(),
            seen.wf(),
            forall|s: (Seq<char>, Seq<char>)| #[trigger]
                seen@.has(s) <==> links_to(first_of_each(all.take(i as int)), s),
            refs.deep_view() == refs_of(first_of_each(all.take(i as int))),
            index@ == (index::IndexView {
                sym_to_docs: with_docs(v.sym_to_docs, nv, first_of_each(all.take(i as int))),
                ..v
            }),
    {
        let link = &due[i];
        let ghost lv = link.deep_view();
        let ghost head = first_of_each(all.take(i as int));
        let ghost before = refs.deep_view();
        let ghost docs = index@.sym_to_docs;
        let ghost was = seen@;
        proof {
            assert(all[i as int] == lv);
            assert(all.take(i + 1).drop_last() =~= all.take(i as int));
            assert(all.take(i + 1).last() == lv);
        }
        if seen.get(&link.symbol).is_none() {
            let ghost next = head.push(lv);
            assert(first_of_each(all.take(i + 1)) == next);
            seen.insert(link.symbol.clone(), true);
            let r = SymbolRef { symbol_id: link.symbol.clone(), confidence: link.confidence };
            let ghost rv = r.deep_view();
            refs.push(r);
            assert(refs.deep_view() =~= before.push(rv));
            assert(refs.deep_view() =~= refs_of(next));
            let mut stored: Vec<DocLink> = Vec::new();
            assert(stored.deep_view() =~= Seq::<index::DocView>::empty());
            if let Some(found) = index.sym_to_docs.insert(link.symbol.clone(), Vec::new()) {
                stored = found;
            }
            assert(stored.deep_view() == docs_of(docs, lv.symbol));
            let ghost kept = stored.deep_view();
            let doc = DocLink {
                note_path: key.clone(),
                note_title: note.title.clone(),
                note_type: note.note_type.clone(),
                context: link.context.clone(),
                confidence: link.confidence,
            };
            assert(doc.deep_view() == doc_of(nv, lv));
            stored.push(doc);
            assert(stored.deep_view() =~= kept.push(doc_of(nv, lv)));
            index.sym_to_docs.insert(link.symbol.clone(), stored);
            assert(next.drop_last() =~= head);
            assert(index@.sym_to_docs =~= docs.insert(lv.symbol, kept.push(doc_of(nv, lv))));
            assert(index@.sym_to_docs =~= with_docs(v.sym_to_docs, nv, next));
            assert forall|s: (Seq<char>, Seq<char>)| #[trigger]
                seen@.has(s) <==> links_to(next, s) by {
                assert(was.has(s) <==> links_to(head, s));
                if links_to(head, s) {
                    let k = choose|k: int| 0 <= k < head.len() && (#[trigger] head[k]).symbol == s;
                    assert(next[k].symbol == s);
                }
                if s == lv.symbol {
                    assert(next[head.len() as int].symbol == s);
                }
                if links_to(next, s) && s != lv.symbol {
                    let k = choose|k: int| 0 <= k < next.len() && (#[trigger] next[k]).symbol == s;
                    assert(head[k].symbol == s);
                }
            }
        } else {
            assert(first_of_each(all.take(i + 1)) == head);
        }
    }
    assert(all.take(n as int) =~= all);
    let ghost links = first_of_each(all);
    assert(refs.deep_view().len() == links.len());
    if refs.len() > 0 {
        index.doc_to_syms.insert(key, refs);
    }
    assert(index@ =~= with_links(v, nv, links));
}

/// Stores the links of all tiers, of which the first was found already.
fn link_from(
    index: &mut Index,
    note: &VaultNote,
    exact: Vec<Link>,
    guess: &Option<(String, u32)>,
    disk: Ghost<Set<Seq<char>>>,
)
    requires
        old(index).wf(),
        exact.deep_view() == exact_links(old(index)@, note.deep_view(), disk@),
    ensures
        final(index).wf(),
        final(index)@ == linked_with(old(index)@, note.deep_view(), disk@, guess_view(*guess)),
{
    let mut due = exact;
    let ghost first = due.deep_view();
    let has_exact: bool = due.len() > 0;
    let mut strong = find_strong(index, note);
    let ghost named = strong.deep_view();
    due.append(&mut strong);
    assert(due.deep_view() =~= first + named);
    if !has_exact {
        let mut guessed = find_fuzzy(index, guess);
        let ghost last = guessed.deep_view();
        due.append(&mut guessed);
        assert(due.deep_view() =~= first + named + last);
    }
    assert(due.deep_view() =~= due_links(index@, note.deep_view(), disk@, guess_view(*guess)));
    store_links(index, note, due);
}

/// Links `note`, where `guess` is the file whose name is most like its title.
///
/// Only adds links: a note that is linked already must be unlinked first.
pub fn link_note_with(
    index: &mut Index,
    note: &VaultNote,
    guess: Option<(String, u32)>,
    disk: &Disk,
)
    requires
        old(index).wf(),
        disk.wf(),
    ensures
        final(index).wf(),
        final(index)@ == linked_with(old(index)@, note.deep_view(), disk@, guess_view(guess)),
{
    let exact = find_exact(index, note, disk);
    link_from(index, note, exact, &guess, Ghost(disk@));
}

/// The files, each with its score.
pub open spec fn scored(files: Seq<Seq<char>>, scores: Seq<Option<u32>>) -> Seq<(Seq<char>, Option<u32>)> {
    Seq::new(files.len(), |i: int| (files[i], scores[i]))
}

/// Of files in a row, each with its score, the first of those with the highest score, where that
/// reaches [`FUZZY_SCORE_THRESHOLD`].
pub fn best_scored(files: &Vec<String>, scores: &Vec<Option<u32>>) -> (r: Option<(String, u32)>)
    requires
        files@.len() == scores@.len(),
    ensures
        guess_view(r) == best_of(scored(files.deep_view(), scores@)),
{
    let ghost all = scored(files.deep_view(), scores@);
    let n: usize = files.len();
    let mut best: Option<(String, u32)> = None;
    assert(all.take(0) =~= Seq::<(Seq<char>, Option<u32>)>::empty());
    for i in 0..n
        invariant
            n == files@.len() == scores@.len(),
            all == scored(files.deep_view(), scores@),
            guess_view(best) == best_of(all.take(i as int)),
    {
        proof {
            assert(all.take(i + 1).drop_last() =~= all.take(i as int));
            assert(all.take(i + 1).last() == all[i as int]);
            assert(all[i as int] == (files@[i as int]@, scores@[i as int]));
        }
        if let Some(score) = scores[i] {
            let higher: bool = match &best {
                Some((_, top)) => score > *top,
                None => true,
            };
            if score >= FUZZY_SCORE_THRESHOLD && higher {
                best = Some((files[i].clone(), score));
            }
        }
    }
    assert(all.take(n as int) =~= all);
    best
}

/// The indexed file whose name is most like `title`. Nothing where no name clears
/// [`FUZZY_SCORE_THRESHOLD`].
fn best_fuzzy_file(index: &Index, title: &str) -> (r: Option<(String, u32)>)
    requires
        index.wf(),
        title_scorable(index@, title@),
    ensures
        guess_view(r) == best_of(scored_files(index@, title@)),
{
    let ghost order = index@.code_symbols.order;
    let n: usize = index.code_symbols.len();
    let mut matcher = fuzzy::new_matcher();
    let mut files: Vec<String> = Vec::new();
    let mut scores: Vec<Option<u32>> = Vec::new();
    for i in 0..n
        invariant
            index.wf(),
            title_scorable(index@, title@),
            order == index@.code_symbols.order,
            n == order.len(),
            files@.len() == i,
            scores@.len() == i,
            forall|k: int| 0 <= k < i ==> (#[trigger] files@[k])@ == order[k],
            forall|k: int| 0 <= k < i ==> #[trigger] scores@[k] == file_score(title@, order[k]),
    {
        let file = index.code_symbols.key_at(i);
        assert(file_scorable(title@, order[i as int]));
        let found = paths::file_stem(file.as_str());
        assert(found.deep_view() == paths::stem_of(order[i as int]));
        let score: Option<u32> = match found {
            Some(stem) => fuzzy::score_stem(&mut matcher, title, stem.as_str()),
            None => None,
        };
        assert(score == file_score(title@, order[i as int]));
        scores.push(score);
        files.push(file.clone());
    }
    assert(scored(files.deep_view(), scores@) =~= scored_files(index@, title@)) by {
        assert forall|k: int| 0 <= k < n implies scored(files.deep_view(), scores@)[k] == scored_files(
            index@,
            title@,
        )[k] by {
            assert(files.deep_view()[k] == files@[k]@);
            assert(scores@[k] == file_score(title@, order[k]));
        }
    }
    best_scored(&files, &scores)
}

/// Link a single note to the code symbols it references.
///
/// Only adds links: callers that link an existing note anew must unlink it first.
pub fn link_note(index: &mut Index, note: &VaultNote, disk: &Disk)
    requires
        old(index).wf(),
        disk.wf(),
        linkable(old(index)@, note.deep_view(), disk@),
    ensures
        final(index).wf(),
        final(index)@ == linked(old(index)@, note.deep_view(), disk@),
{
    let exact = find_exact(index, note, disk);
    let guess = if exact.len() == 0 {
        best_fuzzy_file(index, note.title.as_str())
    } else {
        None
    };
    assert(due_links(index@, note.deep_view(), disk@, guess_view(guess)) == due_links(
        index@,
        note.deep_view(),
        disk@,
        best_of(scored_files(index@, note.title@)),
    ));
    link_from(index, note, exact, &guess, Ghost(disk@));
}

/// The index after the notes at `keys` were linked one after the other.
pub open spec fn linked_each(v: index::IndexView, keys: Seq<Seq<char>>, disk: Set<Seq<char>>) -> index::IndexView
    decreases keys.len(),
{
    if keys.len() == 0 {
        v
    } else {
        linked(linked_each(v, keys.drop_last(), disk), v.vault_notes.at(keys.last()), disk)
    }
}

/// What a note is due depends on the files and their symbols alone.
pub proof fn lemma_same_due(
    v: index::IndexView,
    w: index::IndexView,
    note: vault::NoteView,
    disk: Set<Seq<char>>,
)
    requires
        w.code_symbols == v.code_symbols,
        w.symbol_names == v.symbol_names,
        w.file_lookup == v.file_lookup,
        w.removed == v.removed,
        w.root == v.root,
    ensures
        scored_files(w, note.title) == scored_files(v, note.title),
        exact_links(w, note, disk) == exact_links(v, note, disk),
        linkable(w, note, disk) == linkable(v, note, disk),
        forall|guess: Option<(Seq<char>, u32)>| #[trigger]
            due_links(w, note, disk, guess) == due_links(v, note, disk, guess),
{
    assert(scored_files(w, note.title) =~= scored_files(v, note.title));
    assert(resolve::present(w) =~= resolve::present(v));
    assert forall|a: Seq<char>, b: Seq<char>| #[trigger] resolve::framed(w, a, b) == resolve::framed(v, a, b) by {
        assert(resolve::framed(w, a, b) =~= resolve::framed(v, a, b));
    }
    assert forall|fr: vault::FileRefView| #[trigger] resolve::resolved(w, fr, disk) == resolve::resolved(
        v,
        fr,
        disk,
    ) by {}
    assert forall|line: Option<u32>| #[trigger] file_links(w, line, note.summary) == file_links(
        v,
        line,
        note.summary,
    ) by {
        assert(file_links(w, line, note.summary) =~= file_links(v, line, note.summary));
    }
    assert(ref_links(w, note.summary, disk) =~= ref_links(v, note.summary, disk)) by {
        assert forall|fr: vault::FileRefView| #[trigger] ref_links(w, note.summary, disk)(fr) == ref_links(
            v,
            note.summary,
            disk,
        )(fr) by {
            assert(resolve::resolved(w, fr, disk) == resolve::resolved(v, fr, disk));
            assert(file_links(w, fr.line, note.summary) == file_links(v, fr.line, note.summary));
        }
    }
    assert(ident_links(w) =~= ident_links(v)) by {
        assert forall|name: Seq<char>| #[trigger] ident_links(w)(name) == ident_links(v)(name) by {
            assert(definitions(w, name) == definitions(v, name));
        }
    }
    assert forall|guess: Option<(Seq<char>, u32)>| #[trigger] due_links(w, note, disk, guess) == due_links(
        v,
        note,
        disk,
        guess,
    ) by {
        assert(fuzzy_links(w, guess) =~= fuzzy_links(v, guess));
    }
}

/// Linking changes the links alone.
pub proof fn lemma_linked_frame(v: index::IndexView, keys: Seq<Seq<char>>, disk: Set<Seq<char>>)
    ensures
        linked_each(v, keys, disk) == (index::IndexView {
            sym_to_docs: linked_each(v, keys, disk).sym_to_docs,
            doc_to_syms: linked_each(v, keys, disk).doc_to_syms,
            ..v
        }),
    decreases keys.len(),
{
    if keys.len() > 0 {
        lemma_linked_frame(v, keys.drop_last(), disk);
    }
}

/// Build all links between vault notes and code symbols.
pub fn link_all(index: &mut Index, disk: &Disk)
    requires
        old(index).wf(),
        disk.wf(),
        all_linkable(old(index)@, disk@),
    ensures
        final(index).wf(),
        final(index)@ == linked_each(old(index)@, old(index)@.vault_notes.order, disk@),
{
    let ghost v = index@;
    let ghost order = v.vault_notes.order;
    let n: usize = index.vault_notes.len();
    assert(order.take(0) =~= Seq::<Seq<char>>::empty());
    for i in 0..n
        invariant
            index.wf(),
            disk.wf(),
            order == v.vault_notes.order,
            n == order.len(),
            all_linkable(v, disk@),
            index@ == linked_each(v, order.take(i as int), disk@),
    {
        proof {
            lemma_linked_frame(v, order.take(i as int), disk@);
            assert(order.take(i + 1).drop_last() =~= order.take(i as int));
            assert(order.take(i + 1).last() == order[i as int]);
        }
        let note = index.vault_notes.value_at(i).clone();
        proof {
            lemma_same_due(v, index@, note.deep_view(), disk@);
        }
        link_note(index, &note, disk);
    }
    assert(order.take(n as int) =~= order);
}

impl Index {
    /// Whether the names of all indexed files can be scored for `title`.
    pub fn scores(&self, title: &str) -> (r: bool)
        requires
            self.wf(),
        ensures
            r == title_scorable(self@, title@),
    {
        let ghost order = self@.code_symbols.order;
        let n: usize = self.code_symbols.len();
        for i in 0..n
            invariant
                self.wf(),
                order == self@.code_symbols.order,
                n == order.len(),
                forall|k: int| 0 <= k < i ==> file_scorable(title@, #[trigger] order[k]),
        {
            if !scores_file(title, self.code_symbols.key_at(i)) {
                assert(!file_scorable(title@, order[i as int]));
                return false;
            }
        }
        true
    }

    /// Whether the title of every note can be scored.
    pub fn scores_all(&self) -> (r: bool)
        requires
            self.wf(),
        ensures
            r == titles_scorable(self@),
    {
        let ghost keys = self@.vault_notes.order;
        let n: usize = self.vault_notes.len();
        proof {
            self.vault_notes.lemma_listing();
        }
        for i in 0..n
            invariant
                self.wf(),
                self@.vault_notes.wf(),
                keys == self@.vault_notes.order,
                n == keys.len(),
                forall|k: int|
                    0 <= k < i ==> title_scorable(self@, self@.vault_notes.at(#[trigger] keys[k]).title),
        {
            if !self.scores(self.vault_notes.value_at(i).title.as_str()) {
                assert(self@.vault_notes.has(keys[i as int]));
                return false;
            }
        }
        assert forall|k: Seq<char>| #[trigger] self@.vault_notes.has(k) implies title_scorable(
            self@,
            self@.vault_notes.at(k).title,
        ) by {
            assert(self@.vault_notes.entries.contains_key(k) <==> keys.contains(k));
            assert(keys[keys.index_of(k)] == k);
        }
        true
    }

    /// Whether `note` can be linked.
    pub fn can_link(&self, note: &VaultNote, disk: &Disk) -> (r: bool)
        requires
            self.wf(),
            disk.wf(),
        ensures
            r == linkable(self@, note.deep_view(), disk@),
    {
        has_exact(self, note, disk) || self.scores(note.title.as_str())
    }

    /// Whether the file at `path` can be scored for the title of every note.
    pub fn can_take(&self, path: &str) -> (r: bool)
        requires
            self.wf(),
        ensures
            r == scorable_for_all(self@, paths::normal(path@)),
    {
        let file = paths::normalize(path);
        let ghost keys = self@.vault_notes.order;
        let n: usize = self.vault_notes.len();
        proof {
            self.vault_notes.lemma_listing();
        }
        for i in 0..n
            invariant
                self.wf(),
                self@.vault_notes.wf(),
                file@ == paths::normal(path@),
                keys == self@.vault_notes.order,
                n == keys.len(),
                forall|k: int|
                    0 <= k < i ==> file_scorable(self@.vault_notes.at(#[trigger] keys[k]).title, file@),
        {
            if !scores_file(self.vault_notes.value_at(i).title.as_str(), &file) {
                assert(self@.vault_notes.has(keys[i as int]));
                return false;
            }
        }
        assert forall|k: Seq<char>| #[trigger] self@.vault_notes.has(k) implies file_scorable(
            self@.vault_notes.at(k).title,
            file@,
        ) by {
            assert(self@.vault_notes.entries.contains_key(k) <==> keys.contains(k));
            assert(keys[keys.index_of(k)] == k);
        }
        true
    }
}

/// Whether the name of `file` can be scored for `title`.
fn scores_file(title: &str, file: &String) -> (r: bool)
    ensures
        r == file_scorable(title@, file@),
{
    let found = paths::file_stem(file.as_str());
    assert(found.deep_view() == paths::stem_of(file@));
    match found {
        Some(stem) => fuzzy::scorable(title, stem.as_str()),
        None => true,
    }
}

/// Whether a file reference of the note makes a link.
pub(crate) fn has_exact(index: &Index, note: &VaultNote, disk: &Disk) -> (r: bool)
    requires
        index.wf(),
        disk.wf(),
    ensures
        r == (exact_links(index@, note.deep_view(), disk@).len() > 0),
{
    let found = find_exact(index, note, disk);
    assert(found.deep_view().len() == found@.len());
    found.len() > 0
}

} // verus!
