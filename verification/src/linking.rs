//! What the links of a note are, said of files, lines, names and titles alone.
use crate::current;
use crate::fuzzy;
use crate::gather;
use crate::index;
use crate::index::MatchConfidence;
use crate::laws;
use crate::matching;
use crate::paths;
use crate::project;
use crate::resolve;
use crate::symbols;
use crate::text;
use crate::update;
use crate::vault;
use vstd::prelude::*;

verus! {

/// The file defines the name.
pub open spec fn defines(v: index::IndexView, file: Seq<char>, name: Seq<char>) -> bool {
    v.code_symbols.entries.contains_key(file) && exists|j: int|
        0 <= j < v.code_symbols.entries[file].len() && (#[trigger] v.code_symbols.entries[file][j]).name == name
}

/// A reference of the note means the file, and the file defines the name: at the line that the
/// reference gives, or anywhere where it gives none.
pub open spec fn points_to(
    v: index::IndexView,
    note: vault::NoteView,
    disk: Set<Seq<char>>,
    file: Seq<char>,
    name: Seq<char>,
) -> bool {
    v.code_symbols.entries.contains_key(file) && exists|i: int, j: int|
        {
            &&& 0 <= i < note.file_refs.len()
            &&& 0 <= j < v.code_symbols.entries[file].len()
            &&& resolve::resolved(v, #[trigger] note.file_refs[i], disk).contains(file)
            &&& (#[trigger] v.code_symbols.entries[file][j]).name == name
            &&& match note.file_refs[i].line {
                None => true,
                Some(n) => v.code_symbols.entries[file][j].start_line <= n && n
                    <= v.code_symbols.entries[file][j].end_line,
            }
        }
}

/// The note has a name of three or more characters in backticks that has at most eight definitions,
/// and the symbol is one of them.
pub open spec fn names(v: index::IndexView, note: vault::NoteView, symbol: (Seq<char>, Seq<char>)) -> bool {
    exists|i: int|
        {
            &&& 0 <= i < note.code_idents.len()
            &&& (#[trigger] note.code_idents[i]).len() >= 3
            &&& v.symbol_names.contains_key(note.code_idents[i])
            &&& v.symbol_names[note.code_idents[i]].len() <= 8
            &&& v.symbol_names[note.code_idents[i]].contains(symbol)
        }
}

/// How like the name of the file is to the title.
pub open spec fn likeness(title: Seq<char>, file: Seq<char>) -> Option<u32> {
    match paths::stem_of(file) {
        Some(stem) => fuzzy::title_score(title, stem),
        None => None,
    }
}

/// Of the indexed files, the one at `i` is the first of those most like the title, and like enough.
pub open spec fn is_best(v: index::IndexView, title: Seq<char>, i: int, score: u32) -> bool {
    let files = v.code_symbols.order;
    &&& 0 <= i < files.len()
    &&& likeness(title, files[i]) == Some(score)
    &&& score >= 80
    &&& forall|j: int|
        0 <= j < files.len() ==> (likeness(title, #[trigger] files[j]) matches Some(other) ==> other <= score && (
        j < i ==> other < score))
}

/// The file is the first of those most like the title, and like enough, with this score.
pub open spec fn is_guess(v: index::IndexView, title: Seq<char>, file: Seq<char>, score: u32) -> bool {
    exists|i: int| #[trigger] is_best(v, title, i, score) && v.code_symbols.order[i] == file
}

/// A reference of the note points to a symbol.
pub open spec fn points_somewhere(v: index::IndexView, note: vault::NoteView, disk: Set<Seq<char>>) -> bool {
    exists|file: Seq<char>, name: Seq<char>| #[trigger] points_to(v, note, disk, file, name)
}

/// The symbol is one of the file that is guessed from the title, where no reference points anywhere.
pub open spec fn guesses(
    v: index::IndexView,
    note: vault::NoteView,
    disk: Set<Seq<char>>,
    symbol: (Seq<char>, Seq<char>),
) -> bool {
    &&& !points_somewhere(v, note, disk)
    &&& defines(v, symbol.0, symbol.1)
    &&& exists|score: u32| #[trigger] is_guess(v, note.title, symbol.0, score)
}

/// The links of a note are those that it is due: `Exact` to each symbol that a file reference points
/// to, `Strong` to each other symbol that it names, `Fuzzy` to each other symbol of the file guessed
/// from its title, and none besides.
pub open spec fn are_due(
    v: index::IndexView,
    note: vault::NoteView,
    disk: Set<Seq<char>>,
    refs: Seq<index::RefView>,
) -> bool {
    &&& forall|s: (Seq<char>, Seq<char>)| #[trigger]
        refs.contains(index::RefView { symbol: s, confidence: MatchConfidence::Exact }) <==> points_to(
            v,
            note,
            disk,
            s.0,
            s.1,
        )
    &&& forall|s: (Seq<char>, Seq<char>)| #[trigger]
        refs.contains(index::RefView { symbol: s, confidence: MatchConfidence::Strong }) <==> names(v, note, s)
            && !points_to(v, note, disk, s.0, s.1)
    &&& forall|s: (Seq<char>, Seq<char>)| #[trigger]
        refs.contains(index::RefView { symbol: s, confidence: MatchConfidence::Fuzzy }) <==> guesses(
            v,
            note,
            disk,
            s,
        ) && !names(v, note, s)
    &&& forall|i: int, j: int|
        0 <= i < j < refs.len() ==> (#[trigger] refs[i]).symbol != (#[trigger] refs[j]).symbol
}

/// The links of the first tier.
proof fn lemma_exact_iff(
    v: index::IndexView,
    note: vault::NoteView,
    disk: Set<Seq<char>>,
    l: matching::LinkView,
)
    ensures
        matching::exact_links(v, note, disk).contains(l) <==> l.confidence == MatchConfidence::Exact
            && l.context == note.summary && points_to(v, note, disk, l.symbol.0, l.symbol.1),
{
    let rl = matching::ref_links(v, note.summary, disk);
    gather::lemma_gather_source(note.file_refs, rl, l);
    let f = l.symbol.0;
    if matching::exact_links(v, note, disk).contains(l) {
        let i = choose|i: int| 0 <= i < note.file_refs.len() && rl(#[trigger] note.file_refs[i]).contains(l);
        let fr = note.file_refs[i];
        let files = resolve::resolved(v, fr, disk);
        let fl = matching::file_links(v, fr.line, note.summary);
        gather::lemma_gather_source(files, fl, l);
        let j = choose|j: int| 0 <= j < files.len() && fl(#[trigger] files[j]).contains(l);
        let list = v.code_symbols.at(files[j]);
        let sl = matching::symbol_links(files[j], fr.line, note.summary);
        gather::lemma_gather_source(list, sl, l);
        let m = choose|m: int| 0 <= m < list.len() && sl(#[trigger] list[m]).contains(l);
        assert(sl(list[m])[0] == l);
        assert(files[j] == f);
        assert(files.contains(f));
        assert(v.code_symbols.entries[f][m].name == l.symbol.1);
        assert(resolve::resolved(v, note.file_refs[i], disk).contains(f));
    }
    if l.confidence == MatchConfidence::Exact && l.context == note.summary && points_to(
        v,
        note,
        disk,
        f,
        l.symbol.1,
    ) {
        let (i, m) = choose|i: int, m: int|
            {
                &&& 0 <= i < note.file_refs.len()
                &&& 0 <= m < v.code_symbols.entries[f].len()
                &&& resolve::resolved(v, #[trigger] note.file_refs[i], disk).contains(f)
                &&& (#[trigger] v.code_symbols.entries[f][m]).name == l.symbol.1
                &&& match note.file_refs[i].line {
                    None => true,
                    Some(n) => v.code_symbols.entries[f][m].start_line <= n && n
                        <= v.code_symbols.entries[f][m].end_line,
                }
            };
        let fr = note.file_refs[i];
        let files = resolve::resolved(v, fr, disk);
        let fl = matching::file_links(v, fr.line, note.summary);
        let list = v.code_symbols.at(f);
        let sl = matching::symbol_links(f, fr.line, note.summary);
        gather::lemma_gather_source(list, sl, l);
        assert(sl(list[m]) =~= seq![l]);
        assert(sl(list[m])[0] == l);
        assert(sl(list[m]).contains(l));
        gather::lemma_gather_source(files, fl, l);
        let j = files.index_of(f);
        assert(files[j] == f);
        assert(fl(files[j]).contains(l));
        assert(rl(note.file_refs[i]).contains(l));
    }
}

/// The links of the second tier.
proof fn lemma_strong_iff(v: index::IndexView, note: vault::NoteView, l: matching::LinkView)
    ensures
        matching::strong_links(v, note).contains(l) <==> l.confidence == MatchConfidence::Strong && exists|
            i: int,
        |
            {
                &&& 0 <= i < note.code_idents.len()
                &&& (#[trigger] note.code_idents[i]).len() >= 3
                &&& v.symbol_names.contains_key(note.code_idents[i])
                &&& v.symbol_names[note.code_idents[i]].len() <= 8
                &&& v.symbol_names[note.code_idents[i]].contains(l.symbol)
                &&& l.context == "references `"@ + note.code_idents[i] + "`"@
            },
{
    let il = matching::ident_links(v);
    gather::lemma_gather_source(note.code_idents, il, l);
    if matching::strong_links(v, note).contains(l) {
        let i = choose|i: int| 0 <= i < note.code_idents.len() && il(#[trigger] note.code_idents[i]).contains(l);
        let name = note.code_idents[i];
        let ids = matching::definitions(v, name);
        let made = matching::strong_to(ids, name);
        let j = made.index_of(l);
        assert(made[j] == l);
        assert(ids[j] == l.symbol);
        assert(ids.contains(l.symbol));
        assert(v.symbol_names[note.code_idents[i]].contains(l.symbol));
    }
    if l.confidence == MatchConfidence::Strong && exists|i: int|
        {
            &&& 0 <= i < note.code_idents.len()
            &&& (#[trigger] note.code_idents[i]).len() >= 3
            &&& v.symbol_names.contains_key(note.code_idents[i])
            &&& v.symbol_names[note.code_idents[i]].len() <= 8
            &&& v.symbol_names[note.code_idents[i]].contains(l.symbol)
            &&& l.context == "references `"@ + note.code_idents[i] + "`"@
        } {
        let i = choose|i: int|
            {
                &&& 0 <= i < note.code_idents.len()
                &&& (#[trigger] note.code_idents[i]).len() >= 3
                &&& v.symbol_names.contains_key(note.code_idents[i])
                &&& v.symbol_names[note.code_idents[i]].len() <= 8
                &&& v.symbol_names[note.code_idents[i]].contains(l.symbol)
                &&& l.context == "references `"@ + note.code_idents[i] + "`"@
            };
        let name = note.code_idents[i];
        let ids = v.symbol_names[name];
        let made = matching::strong_to(ids, name);
        let j = ids.index_of(l.symbol);
        assert(made[j] == l);
        assert(il(note.code_idents[i]).contains(l));
    }
}

/// The guess is the first of the files most like the title, where one is like enough.
proof fn lemma_guess_iff(v: index::IndexView, title: Seq<char>, file: Seq<char>, score: u32)
    ensures
        matching::best_of(matching::scored_files(v, title)) == Some((file, score)) <==> is_guess(
            v,
            title,
            file,
            score,
        ),
{
    let scored = matching::scored_files(v, title);
    let files = v.code_symbols.order;
    laws::law_guess_is_best(scored);
    assert forall|i: int| 0 <= i < files.len() implies scored[i] == (files[i], likeness(title, #[trigger] files[i])) by {}
    let best = matching::best_of(scored);
    if let Some((f, top)) = best {
        let i = choose|i: int|
            0 <= i < scored.len() && #[trigger] scored[i] == (f, Some(top)) && (forall|j: int|
                #[trigger] laws::reaches(scored, j, top) ==> i <= j && scored[j].1 == Some(top));
        assert(files[i] == f);
        assert forall|j: int| 0 <= j < files.len() implies (likeness(title, #[trigger] files[j]) matches Some(
            other,
        ) ==> other <= top && (j < i ==> other < top)) by {
            if let Some(other) = likeness(title, files[j]) {
                if other >= top {
                    assert(laws::reaches(scored, j, top));
                }
            }
        }
        assert(is_best(v, title, i, top));
        if is_guess(v, title, file, score) {
            let k = choose|k: int| #[trigger] is_best(v, title, k, score) && files[k] == file;
            assert(likeness(title, files[k]) == Some(score));
            assert(likeness(title, files[i]) == Some(top));
            assert(score <= top && top <= score);
            assert(i == k);
        }
    } else if is_guess(v, title, file, score) {
        let k = choose|k: int| #[trigger] is_best(v, title, k, score) && files[k] == file;
        assert(laws::reaches(scored, k, matching::FUZZY_SCORE_THRESHOLD));
    }
}

/// A link of this confidence leads to the symbol.
spec fn has_kind(links: Seq<matching::LinkView>, s: (Seq<char>, Seq<char>), c: MatchConfidence) -> bool {
    exists|j: int| 0 <= j < links.len() && (#[trigger] links[j]).symbol == s && links[j].confidence == c
}

/// The links that a note is due, tier by tier.
proof fn lemma_due_iff(
    v: index::IndexView,
    note: vault::NoteView,
    disk: Set<Seq<char>>,
    s: (Seq<char>, Seq<char>),
    c: MatchConfidence,
)
    ensures
        has_kind(
            matching::due_links(v, note, disk, matching::best_of(matching::scored_files(v, note.title))),
            s,
            c,
        ) <==> (match c {
            MatchConfidence::Exact => points_to(v, note, disk, s.0, s.1),
            MatchConfidence::Strong => names(v, note, s),
            MatchConfidence::Fuzzy => guesses(v, note, disk, s),
        }),
{
    let guess = matching::best_of(matching::scored_files(v, note.title));
    let due = matching::due_links(v, note, disk, guess);
    let exact = matching::exact_links(v, note, disk);
    let strong = matching::strong_links(v, note);
    let last = matching::fuzzy_links(v, guess);
    assert(exact.len() == 0 <==> !points_somewhere(v, note, disk)) by {
        if exact.len() > 0 {
            assert(exact.contains(exact[0]));
            lemma_exact_iff(v, note, disk, exact[0]);
        }
        if points_somewhere(v, note, disk) {
            let (f, n) = choose|f: Seq<char>, n: Seq<char>| #[trigger] points_to(v, note, disk, f, n);
            let l = matching::LinkView {
                symbol: (f, n),
                confidence: MatchConfidence::Exact,
                context: note.summary,
            };
            lemma_exact_iff(v, note, disk, l);
            assert(exact.contains(l));
        }
    }
    if has_kind(due, s, c) {
        let j = choose|j: int| 0 <= j < due.len() && (#[trigger] due[j]).symbol == s && due[j].confidence == c;
        if j < exact.len() {
            assert(exact[j] == due[j]);
            assert(exact.contains(due[j]));
            lemma_exact_iff(v, note, disk, due[j]);
        } else if j < exact.len() + strong.len() {
            assert(strong[j - exact.len()] == due[j]);
            assert(strong.contains(due[j]));
            lemma_strong_iff(v, note, due[j]);
        } else {
            let k = j - exact.len() - strong.len();
            assert(last[k] == due[j]);
            let (file, score) = guess->0;
            lemma_guess_iff(v, note.title, file, score);
            assert(v.code_symbols.entries[file][k].name == s.1);
            assert(is_guess(v, note.title, s.0, score));
        }
    }
    match c {
        MatchConfidence::Exact => {
            if points_to(v, note, disk, s.0, s.1) {
                let l = matching::LinkView { symbol: s, confidence: c, context: note.summary };
                lemma_exact_iff(v, note, disk, l);
                let i = exact.index_of(l);
                assert(due[i] == l);
            }
        },
        MatchConfidence::Strong => {
            if names(v, note, s) {
                let i = choose|i: int|
                    {
                        &&& 0 <= i < note.code_idents.len()
                        &&& (#[trigger] note.code_idents[i]).len() >= 3
                        &&& v.symbol_names.contains_key(note.code_idents[i])
                        &&& v.symbol_names[note.code_idents[i]].len() <= 8
                        &&& v.symbol_names[note.code_idents[i]].contains(s)
                    };
                let l = matching::LinkView {
                    symbol: s,
                    confidence: c,
                    context: "references `"@ + note.code_idents[i] + "`"@,
                };
                lemma_strong_iff(v, note, l);
                let k = strong.index_of(l);
                assert(due[exact.len() + k] == l);
            }
        },
        MatchConfidence::Fuzzy => {
            if guesses(v, note, disk, s) {
                let score = choose|score: u32| #[trigger] is_guess(v, note.title, s.0, score);
                lemma_guess_iff(v, note.title, s.0, score);
                let k = choose|k: int|
                    0 <= k < v.code_symbols.entries[s.0].len() && (
                    #[trigger] v.code_symbols.entries[s.0][k]).name == s.1;
                assert(last[k].symbol == s);
                assert(due[exact.len() + strong.len() + k] == last[k]);
            }
        },
    }
}

/// What the first link to each symbol says of one symbol.
proof fn lemma_first_kind(
    v: index::IndexView,
    note: vault::NoteView,
    disk: Set<Seq<char>>,
    guess: Option<(Seq<char>, u32)>,
    s: (Seq<char>, Seq<char>),
    c: MatchConfidence,
)
    ensures
        ({
            let due = matching::due_links(v, note, disk, guess);
            let refs = matching::refs_of(matching::first_of_each(due));
            refs.contains(index::RefView { symbol: s, confidence: c }) <==> has_kind(due, s, c) && (forall|j: int|
                0 <= j < due.len() && (#[trigger] due[j]).symbol == s ==> laws::weakness(c) <= laws::weakness(
                    due[j].confidence,
                ))
        }),
{
    let due = matching::due_links(v, note, disk, guess);
    let links = matching::first_of_each(due);
    let refs = matching::refs_of(links);
    let r = index::RefView { symbol: s, confidence: c };
    laws::law_references_strongest_first(v, note, disk, guess);
    if refs.contains(r) {
        let i = refs.index_of(r);
        assert(refs[i] == r);
        assert(links.contains(links[i]));
        laws::lemma_first_of_each(due, links[i]);
        let j = due.index_of(links[i]);
        assert(due[j].symbol == s && due[j].confidence == c);
        assert forall|j: int| 0 <= j < due.len() && (#[trigger] due[j]).symbol == s implies laws::weakness(c)
            <= laws::weakness(due[j].confidence) by {
            assert(links[i].symbol == due[j].symbol);
        }
    }
    if has_kind(due, s, c) && (forall|j: int|
        0 <= j < due.len() && (#[trigger] due[j]).symbol == s ==> laws::weakness(c) <= laws::weakness(
            due[j].confidence,
        )) {
        let j = choose|j: int| 0 <= j < due.len() && (#[trigger] due[j]).symbol == s && due[j].confidence == c;
        assert(matching::links_to(due, s));
        assert(matching::links_to(links, s));
        let i = choose|i: int| 0 <= i < links.len() && (#[trigger] links[i]).symbol == s;
        assert(links[i].symbol == due[j].symbol);
        assert(links.contains(links[i]));
        laws::lemma_first_of_each(due, links[i]);
        let k = due.index_of(links[i]);
        assert(due[k].symbol == s);
        assert(links[i].confidence == c);
        assert(refs[i] == r);
    }
}

/// The links that a note is due are those that its references, its names and its title give it.
proof fn lemma_due_are_due(v: index::IndexView, note: vault::NoteView, disk: Set<Seq<char>>)
    ensures
        are_due(
            v,
            note,
            disk,
            matching::refs_of(
                matching::first_of_each(
                    matching::due_links(
                        v,
                        note,
                        disk,
                        matching::best_of(matching::scored_files(v, note.title)),
                    ),
                ),
            ),
        ),
{
    let guess = matching::best_of(matching::scored_files(v, note.title));
    let due = matching::due_links(v, note, disk, guess);
    let refs = matching::refs_of(matching::first_of_each(due));
    let e = MatchConfidence::Exact;
    let t = MatchConfidence::Strong;
    let z = MatchConfidence::Fuzzy;
    assert forall|s: (Seq<char>, Seq<char>)| #[trigger] refs.contains(
        index::RefView { symbol: s, confidence: e },
    ) <==> points_to(v, note, disk, s.0, s.1) by {
        lemma_first_kind(v, note, disk, guess, s, e);
        lemma_due_iff(v, note, disk, s, e);
    }
    assert forall|s: (Seq<char>, Seq<char>)| #[trigger] refs.contains(
        index::RefView { symbol: s, confidence: t },
    ) <==> names(v, note, s) && !points_to(v, note, disk, s.0, s.1) by {
        lemma_first_kind(v, note, disk, guess, s, t);
        lemma_due_iff(v, note, disk, s, e);
        lemma_due_iff(v, note, disk, s, t);
    }
    assert forall|s: (Seq<char>, Seq<char>)| #[trigger] refs.contains(
        index::RefView { symbol: s, confidence: z },
    ) <==> guesses(v, note, disk, s) && !names(v, note, s) by {
        lemma_first_kind(v, note, disk, guess, s, z);
        lemma_due_iff(v, note, disk, s, e);
        lemma_due_iff(v, note, disk, s, t);
        lemma_due_iff(v, note, disk, s, z);
    }
    laws::law_references_strongest_first(v, note, disk, guess);
}

/// Linking a note that has no links gives it the links that it is due, and changes nothing of what
/// other notes have.
pub proof fn law_linked_note_has_its_links(v: index::IndexView, note: vault::NoteView, disk: Set<Seq<char>>)
    requires
        !v.doc_to_syms.contains_key(paths::normal(note.path)),
    ensures
        are_due(
            v,
            note,
            disk,
            update::refs_from(matching::linked(v, note, disk), paths::normal(note.path)),
        ),
        forall|n: Seq<char>|
            n != paths::normal(note.path) ==> #[trigger] update::refs_from(matching::linked(v, note, disk), n)
                == update::refs_from(v, n),
        forall|s: (Seq<char>, Seq<char>)|
            matching::docs_of(v.sym_to_docs, s).is_prefix_of(
                #[trigger] matching::docs_of(matching::linked(v, note, disk).sym_to_docs, s),
            ),
        matching::linked(v, note, disk) == (index::IndexView {
            sym_to_docs: matching::linked(v, note, disk).sym_to_docs,
            doc_to_syms: matching::linked(v, note, disk).doc_to_syms,
            ..v
        }),
{
    let guess = matching::best_of(matching::scored_files(v, note.title));
    let links = matching::first_of_each(matching::due_links(v, note, disk, guess));
    let w = matching::linked(v, note, disk);
    lemma_due_are_due(v, note, disk);
    if links.len() == 0 {
        assert(matching::refs_of(links) =~= Seq::empty());
    }
    assert forall|s: (Seq<char>, Seq<char>)| matching::docs_of(v.sym_to_docs, s).is_prefix_of(
        #[trigger] matching::docs_of(w.sym_to_docs, s),
    ) by {
        laws::lemma_docs_added(v.sym_to_docs, note, links, s);
        let was = matching::docs_of(v.sym_to_docs, s);
        let all = matching::docs_of(w.sym_to_docs, s);
        assert(all.subrange(0, was.len() as int) =~= was);
    }
}

/// What a link says: of a file reference, the summary of the note; of a name, the name; of a guess,
/// its score.
pub open spec fn says_why(v: index::IndexView, note: vault::NoteView, d: index::DocView, file: Seq<char>) -> bool {
    match d.confidence {
        MatchConfidence::Exact => d.context == note.summary,
        MatchConfidence::Strong => exists|i: int|
            0 <= i < note.code_idents.len() && d.context == "references `"@ + (#[trigger] note.code_idents[i])
                + "`"@,
        MatchConfidence::Fuzzy => exists|score: u32| #[trigger]
            is_guess(v, note.title, file, score) && d.context == "fuzzy title match (score: "@ + text::decimal(
                score as nat,
            ) + ")"@,
    }
}

/// Each link of a note that was just linked is stored with its symbol, with the path, the title and
/// the type of the note, and says why it was made.
pub proof fn law_linked_note_is_shown(
    v: index::IndexView,
    note: vault::NoteView,
    disk: Set<Seq<char>>,
    r: index::RefView,
)
    requires
        !v.doc_to_syms.contains_key(paths::normal(note.path)),
        update::refs_from(matching::linked(v, note, disk), paths::normal(note.path)).contains(r),
    ensures
        exists|d: index::DocView|
            {
                &&& #[trigger] laws::has_doc(matching::linked(v, note, disk), r.symbol, d)
                &&& d.note_path == paths::normal(note.path)
                &&& d.note_title == note.title
                &&& d.note_type == note.note_type
                &&& d.confidence == r.confidence
                &&& says_why(v, note, d, r.symbol.0)
            },
{
    let guess = matching::best_of(matching::scored_files(v, note.title));
    let due = matching::due_links(v, note, disk, guess);
    let links = matching::first_of_each(due);
    let refs = matching::refs_of(links);
    let i = refs.index_of(r);
    assert(refs[i] == r);
    let l = links[i];
    let d = matching::doc_of(note, l);
    laws::lemma_linked_docs(v, note, links, r.symbol, d);
    assert(laws::has_doc(matching::linked(v, note, disk), r.symbol, d));
    assert(links.contains(l));
    laws::lemma_first_of_each(due, l);
    let exact = matching::exact_links(v, note, disk);
    let strong = matching::strong_links(v, note);
    let last = matching::fuzzy_links(v, guess);
    let k = due.index_of(l);
    if k < exact.len() {
        assert(exact[k] == l);
        assert(exact.contains(l));
        lemma_exact_iff(v, note, disk, l);
    } else if k < exact.len() + strong.len() {
        assert(strong[k - exact.len()] == l);
        assert(strong.contains(l));
        lemma_strong_iff(v, note, l);
    } else {
        assert(last[k - exact.len() - strong.len()] == l);
        let (file, score) = guess->0;
        lemma_guess_iff(v, note.title, file, score);
        assert(is_guess(v, note.title, r.symbol.0, score));
    }
    assert(says_why(v, note, d, r.symbol.0));
}

/// A note that has the links that it is due has those that its references, its names and its title
/// give it.
pub proof fn law_current_links_are_due(v: index::IndexView, k: Seq<char>, disk: Set<Seq<char>>)
    requires
        current::is_current(v, k, disk),
    ensures
        are_due(v, v.vault_notes.at(k), disk, update::refs_from(v, k)),
{
    lemma_due_are_due(v, v.vault_notes.at(k), disk);
}

/// A note that was read anew has the links that it is due.
pub proof fn law_reindexed_note_has_its_links(v: index::IndexView, note: vault::NoteView, disk: Set<Seq<char>>)
    requires
        laws::sound(v),
    ensures
        ({
            let w = update::with_note(v, note, disk);
            &&& w.vault_notes.at(paths::normal(note.path)) == note
            &&& are_due(w, note, disk, update::refs_from(w, paths::normal(note.path)))
        }),
{
    current::law_reindexed_note_is_current(v, note, disk);
    law_current_links_are_due(update::with_note(v, note, disk), paths::normal(note.path), disk);
}

/// After a full build every note has the links that it is due.
pub proof fn law_built_notes_have_their_links(
    v: index::IndexView,
    read: Seq<project::ReadView>,
    disk: Set<Seq<char>>,
    k: Seq<char>,
)
    requires
        laws::sound(v),
        v.doc_to_syms.dom() == Set::<Seq<char>>::empty(),
        v.vault_notes.has(k),
    ensures
        ({
            let w = project::built(v, read, disk);
            &&& w.vault_notes == v.vault_notes
            &&& are_due(w, v.vault_notes.at(k), disk, update::refs_from(w, k))
        }),
{
    let u = project::with_sources(v, read);
    laws::lemma_sources_sound(v, read);
    matching::lemma_linked_frame(u, v.vault_notes.order, disk);
    current::law_built_is_current(v, read, disk, k);
    law_current_links_are_due(project::built(v, read, disk), k, disk);
}

/// After a source file was read anew every note has the links that it is due, where it had them.
pub proof fn law_code_change_gives_links(
    v: index::IndexView,
    file: Seq<char>,
    list: Seq<symbols::SymbolView>,
    before: Set<Seq<char>>,
    after: Set<Seq<char>>,
    k: Seq<char>,
)
    requires
        laws::sound(v),
        current::all_current(v, before),
        current::alike_but(before, after, file),
        v.vault_notes.has(k),
    ensures
        ({
            let w = update::with_code(v, file, list, after);
            &&& w.vault_notes == v.vault_notes
            &&& w.code_symbols.at(file) == list
            &&& are_due(w, v.vault_notes.at(k), after, update::refs_from(w, k))
        }),
{
    let w = update::with_code(v, file, list, after);
    update::law_code_change_keeps_rest(v, file, list, after);
    current::law_reindex_code_keeps_current(v, file, list, before, after);
    assert(w.vault_notes.has(k));
    law_current_links_are_due(w, k, after);
}

/// After a source file was deleted every note has the links that it is due, where it had them.
pub proof fn law_code_removal_gives_links(
    v: index::IndexView,
    file: Seq<char>,
    before: Set<Seq<char>>,
    after: Set<Seq<char>>,
    k: Seq<char>,
)
    requires
        laws::sound(v),
        current::all_current(v, before),
        current::alike_but(before, after, file),
        v.vault_notes.has(k),
    ensures
        ({
            let w = update::without_code(v, file, after);
            &&& w.vault_notes == v.vault_notes
            &&& !w.code_symbols.has(file)
            &&& are_due(w, v.vault_notes.at(k), after, update::refs_from(w, k))
        }),
{
    let w = update::without_code(v, file, after);
    laws::lemma_relink_frame(v, update::without_file(v, file), file, after);
    laws::law_remove_code_is_sound(v, file, after);
    current::law_remove_code_keeps_current(v, file, before, after);
    assert(w.vault_notes.has(k));
    law_current_links_are_due(w, k, after);
}

} // verus!
