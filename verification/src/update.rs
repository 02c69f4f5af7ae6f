//! Keeping the index true as notes and source files change.
use crate::fuzzy;
use crate::gather;
use crate::index;
use crate::index::{Disk, DocLink, Index, SymbolId, SymbolRef};
use crate::matching;
use crate::notes;
use crate::paths;
use crate::resolve;
use crate::symbols;
use crate::symbols::{CodeSymbol, ExtractError};
use crate::table::Table;
use crate::text;
use crate::vault;
use crate::vault::VaultNote;
use vstd::prelude::*;
use vstd::string::*;

verus! {

/// The note `n` refers to `symbol`.
pub open spec fn refers_to(v: index::IndexView, n: Seq<char>, symbol: (Seq<char>, Seq<char>)) -> bool {
    v.doc_to_syms.contains_key(n) && exists|i: int|
        0 <= i < v.doc_to_syms[n].len() && (#[trigger] v.doc_to_syms[n][i]).symbol == symbol
}

/// One of `notes` refers to `symbol`.
pub open spec fn any_refers(
    v: index::IndexView,
    notes: Set<Seq<char>>,
    symbol: (Seq<char>, Seq<char>),
) -> bool {
    exists|n: Seq<char>| notes.contains(n) && #[trigger] refers_to(v, n, symbol)
}

/// The link stays with `symbol` when `notes` are unlinked.
pub open spec fn stays(
    v: index::IndexView,
    notes: Set<Seq<char>>,
    symbol: (Seq<char>, Seq<char>),
) -> spec_fn(index::DocView) -> bool {
    |d: index::DocView| !(notes.contains(d.note_path) && refers_to(v, d.note_path, symbol))
}

/// The links that stay with `symbol` when `notes` are unlinked.
pub open spec fn staying(
    v: index::IndexView,
    notes: Set<Seq<char>>,
    symbol: (Seq<char>, Seq<char>),
) -> Seq<index::DocView> {
    v.sym_to_docs[symbol].filter(stays(v, notes, symbol))
}

/// The index without the links of `notes`. A symbol that loses its last link is forgotten.
pub open spec fn unlinked(v: index::IndexView, notes: Set<Seq<char>>) -> index::IndexView {
    index::IndexView {
        sym_to_docs: Map::new(
            |s: (Seq<char>, Seq<char>)|
                v.sym_to_docs.contains_key(s) && !(any_refers(v, notes, s) && staying(
                    v,
                    notes,
                    s,
                ).len() == 0),
            |s: (Seq<char>, Seq<char>)| staying(v, notes, s),
        ),
        doc_to_syms: v.doc_to_syms.remove_keys(notes),
        ..v
    }
}

/// The links of other notes than `note`.
spec fn of_others(note: Seq<char>) -> spec_fn(index::DocView) -> bool {
    |d: index::DocView| d.note_path != note
}

/// The links without those of `note` to `ids`.
spec fn without_note(
    docs: Map<(Seq<char>, Seq<char>), Seq<index::DocView>>,
    note: Seq<char>,
    ids: Set<(Seq<char>, Seq<char>)>,
) -> Map<(Seq<char>, Seq<char>), Seq<index::DocView>> {
    Map::new(
        |s: (Seq<char>, Seq<char>)|
            docs.contains_key(s) && !(ids.contains(s) && docs[s].filter(of_others(note)).len() == 0),
        |s: (Seq<char>, Seq<char>)|
            if ids.contains(s) {
                docs[s].filter(of_others(note))
            } else {
                docs[s]
            },
    )
}

/// The symbols of the first `n` references.
spec fn first_symbols(refs: Seq<index::RefView>, n: int) -> Set<(Seq<char>, Seq<char>)> {
    Set::new(|s: (Seq<char>, Seq<char>)| exists|i: int| 0 <= i < n && (#[trigger] refs[i]).symbol == s)
}

/// Taking the links of one note out of the links of all its symbols unlinks it.
proof fn lemma_unlink_one(v: index::IndexView, note: Seq<char>)
    ensures
        v.doc_to_syms.contains_key(note) ==> unlinked(v, set![note]).sym_to_docs == without_note(
            v.sym_to_docs,
            note,
            first_symbols(v.doc_to_syms[note], v.doc_to_syms[note].len() as int),
        ),
        v.doc_to_syms.contains_key(note) ==> unlinked(v, set![note]).doc_to_syms
            == v.doc_to_syms.remove(note),
        !v.doc_to_syms.contains_key(note) ==> unlinked(v, set![note]) == v,
{
    let one = set![note];
    let refs = v.doc_to_syms[note];
    let ids = first_symbols(refs, refs.len() as int);
    let u = unlinked(v, one);
    let w = without_note(v.sym_to_docs, note, ids);
    if v.doc_to_syms.contains_key(note) {
        assert forall|s: (Seq<char>, Seq<char>)| v.sym_to_docs.contains_key(s) implies u.sym_to_docs.contains_key(
            s,
        ) == w.contains_key(s) && staying(v, one, s) == (if ids.contains(s) {
            v.sym_to_docs[s].filter(of_others(note))
        } else {
            v.sym_to_docs[s]
        }) by {
            assert(ids.contains(s) <==> refers_to(v, note, s));
            assert(any_refers(v, one, s) <==> refers_to(v, note, s)) by {
                if refers_to(v, note, s) {
                    assert(one.contains(note));
                }
            }
            if ids.contains(s) {
                gather::lemma_filter_same(v.sym_to_docs[s], stays(v, one, s), of_others(note));
            } else {
                gather::lemma_filter_all(v.sym_to_docs[s], stays(v, one, s));
            }
        }
        assert(u.sym_to_docs =~= w);
        assert(u.doc_to_syms =~= v.doc_to_syms.remove(note));
    } else {
        assert forall|s: (Seq<char>, Seq<char>)| v.sym_to_docs.contains_key(s) implies u.sym_to_docs.contains_key(
            s,
        ) && staying(v, one, s) == v.sym_to_docs[s] by {
            assert(!any_refers(v, one, s));
            gather::lemma_filter_all(v.sym_to_docs[s], stays(v, one, s));
        }
        assert(u.sym_to_docs =~= v.sym_to_docs);
        assert(u.doc_to_syms =~= v.doc_to_syms);
    }
}

/// What unlinking one more note after others leaves with one symbol.
proof fn lemma_unlink_more_at(
    v: index::IndexView,
    notes: Set<Seq<char>>,
    note: Seq<char>,
    s: (Seq<char>, Seq<char>),
)
    ensures
        unlinked(unlinked(v, notes), set![note]).sym_to_docs.contains_key(s) == unlinked(
            v,
            notes.insert(note),
        ).sym_to_docs.contains_key(s),
        unlinked(v, notes.insert(note)).sym_to_docs.contains_key(s) ==> unlinked(
            unlinked(v, notes),
            set![note],
        ).sym_to_docs[s] == unlinked(v, notes.insert(note)).sym_to_docs[s],
{
    let u = unlinked(v, notes);
    let all = notes.insert(note);
    assert forall|n: Seq<char>| !notes.contains(n) implies refers_to(u, n, s) == refers_to(v, n, s) by {}
    assert forall|n: Seq<char>| notes.contains(n) implies !refers_to(u, n, s) by {}
    if v.sym_to_docs.contains_key(s) {
        gather::lemma_filter_twice(
            v.sym_to_docs[s],
            stays(v, notes, s),
            stays(u, set![note], s),
            stays(v, all, s),
        );
        assert(any_refers(v, all, s) <==> any_refers(v, notes, s) || refers_to(v, note, s)) by {
            if any_refers(v, notes, s) {
                let n = choose|n: Seq<char>| notes.contains(n) && #[trigger] refers_to(v, n, s);
                assert(all.contains(n));
            }
            if refers_to(v, note, s) {
                assert(all.contains(note));
            }
        }
        assert(any_refers(u, set![note], s) <==> refers_to(u, note, s)) by {
            if refers_to(u, note, s) {
                assert(set![note].contains(note));
            }
        }
        if u.sym_to_docs.contains_key(s) && !any_refers(u, set![note], s) {
            gather::lemma_filter_all(u.sym_to_docs[s], stays(u, set![note], s));
        }
        if !u.sym_to_docs.contains_key(s) {
            reveal(Seq::filter);
            assert(staying(v, notes, s) =~= Seq::<index::DocView>::empty());
        }
    }
}

/// Unlinking one more note after others is unlinking them together.
proof fn lemma_unlink_more(v: index::IndexView, notes: Set<Seq<char>>, note: Seq<char>)
    ensures
        unlinked(unlinked(v, notes), set![note]) == unlinked(v, notes.insert(note)),
{
    let w = unlinked(unlinked(v, notes), set![note]);
    let t = unlinked(v, notes.insert(note));
    assert forall|s: (Seq<char>, Seq<char>)|
        #![trigger t.sym_to_docs.contains_key(s)]
        #![trigger w.sym_to_docs.contains_key(s)]
        w.sym_to_docs.contains_key(s) == t.sym_to_docs.contains_key(s) && (t.sym_to_docs.contains_key(s)
            ==> w.sym_to_docs[s] == t.sym_to_docs[s]) by {
        lemma_unlink_more_at(v, notes, note, s);
    }
    assert(w.sym_to_docs.dom() =~= t.sym_to_docs.dom()) by {
        assert forall|s: (Seq<char>, Seq<char>)| w.sym_to_docs.dom().contains(s) == t.sym_to_docs.dom().contains(
            s,
        ) by {
            assert(w.sym_to_docs.contains_key(s) == t.sym_to_docs.contains_key(s));
        }
    }
    assert(w.sym_to_docs =~= t.sym_to_docs) by {
        assert forall|s: (Seq<char>, Seq<char>)| w.sym_to_docs.dom().contains(s) implies w.sym_to_docs[s]
            == t.sym_to_docs[s] by {
            assert(t.sym_to_docs.contains_key(s));
        }
    }
    assert(w.doc_to_syms =~= t.doc_to_syms);
}

/// The links of other notes than `note`.
fn drop_note(docs: Vec<DocLink>, note: &String) -> (r: Vec<DocLink>)
    ensures
        r.deep_view() == docs.deep_view().filter(of_others(note@)),
{
    let ghost all = docs.deep_view();
    let mut out: Vec<DocLink> = Vec::new();
    let n: usize = docs.len();
    assert(out.deep_view() =~= all.take(0).filter(of_others(note@))) by {
        reveal(Seq::filter);
    }
    for i in 0..n
        invariant
            n == docs@.len(),
            all == docs.deep_view(),
            out.deep_view() == all.take(i as int).filter(of_others(note@)),
    {
        let ghost before = out.deep_view();
        proof {
            assert(all[i as int] == docs@[i as int].deep_view());
            gather::lemma_filter_step(all, of_others(note@), i as int);
        }
        if !text::same(docs[i].note_path.as_str(), note.as_str()) {
            out.push(docs[i].clone());
            assert(out.deep_view() =~= before.push(all[i as int]));
        }
    }
    assert(all.take(n as int) =~= all);
    out
}

impl Index {
    /// Drop every link originating from a note, leaving no dangling links with its symbols.
    pub fn unlink_note(&mut self, note_path: &str)
        requires
            old(self).wf(),
        ensures
            final(self).wf(),
            final(self)@ == unlinked(old(self)@, set![paths::normal(note_path@)]),
    {
        let key = paths::normalize(note_path);
        self.unlink_key(&key);
    }

    /// Drop every link of the note stored under `key`.
    fn unlink_key(&mut self, key: &String)
        requires
            old(self).wf(),
        ensures
            final(self).wf(),
            final(self)@ == unlinked(old(self)@, set![key@]),
    {
        let ghost v = self@;
        proof {
            lemma_unlink_one(v, key@);
        }
        let refs = match self.doc_to_syms.remove(key) {
            Some(refs) => refs,
            None => {
                assert(self@ =~= v);
                return;
            },
        };
        let ghost all = refs.deep_view();
        let n: usize = refs.len();
        assert(without_note(v.sym_to_docs, key@, first_symbols(all, 0)) =~= v.sym_to_docs);
        for i in 0..n
            invariant
                n == refs@.len(),
                all == refs.deep_view(),
                self.wf(),
                self@ == (index::IndexView {
                    doc_to_syms: v.doc_to_syms.remove(key@),
                    sym_to_docs: without_note(v.sym_to_docs, key@, first_symbols(all, i as int)),
                    ..v
                }),
        {
            let id = &refs[i].symbol_id;
            let ghost s = id.deep_view();
            let ghost ids = first_symbols(all, i as int);
            let ghost next = first_symbols(all, i + 1);
            proof {
                assert(all[i as int] == refs@[i as int].deep_view());
                assert forall|t: (Seq<char>, Seq<char>)| next.contains(t) <==> ids.contains(t) || t == s by {
                    if ids.contains(t) {
                        let k = choose|k: int| 0 <= k < i && (#[trigger] all[k]).symbol == t;
                        assert(all[k].symbol == t);
                    }
                    if t == s {
                        assert(all[i as int].symbol == t);
                    }
                }
                assert(next =~= ids.insert(s));
                if v.sym_to_docs.contains_key(s) {
                    gather::lemma_filter_twice(
                        v.sym_to_docs[s],
                        of_others(key@),
                        of_others(key@),
                        of_others(key@),
                    );
                }
            }
            if let Some(docs) = self.sym_to_docs.remove(id) {
                let kept = drop_note(docs, key);
                assert(kept.deep_view() == v.sym_to_docs[s].filter(of_others(key@)));
                assert(kept.deep_view().len() == kept@.len());
                if kept.len() > 0 {
                    self.sym_to_docs.insert(id.clone(), kept);
                }
            }
            assert(self@.sym_to_docs =~= without_note(v.sym_to_docs, key@, next));
        }
    }
}

/// The names of `list`.
pub open spec fn names_in(list: Seq<symbols::SymbolView>) -> Set<Seq<char>> {
    Set::new(|n: Seq<char>| exists|i: int| 0 <= i < list.len() && (#[trigger] list[i]).name == n)
}

/// The names that `file` defines.
pub open spec fn names_of(v: index::IndexView, file: Seq<char>) -> Set<Seq<char>> {
    if v.code_symbols.has(file) {
        names_in(v.code_symbols.at(file))
    } else {
        Set::empty()
    }
}

/// Other than `id`.
pub open spec fn not_this(id: (Seq<char>, Seq<char>)) -> spec_fn((Seq<char>, Seq<char>)) -> bool {
    |other: (Seq<char>, Seq<char>)| other != id
}

/// The definitions without those of `names` in `file`. A name that loses its last definition is
/// forgotten.
pub open spec fn retired(
    m: Map<Seq<char>, Seq<(Seq<char>, Seq<char>)>>,
    file: Seq<char>,
    names: Set<Seq<char>>,
) -> Map<Seq<char>, Seq<(Seq<char>, Seq<char>)>> {
    Map::new(
        |n: Seq<char>|
            m.contains_key(n) && !(names.contains(n) && m[n].filter(not_this((file, n))).len() == 0),
        |n: Seq<char>|
            if names.contains(n) {
                m[n].filter(not_this((file, n)))
            } else {
                m[n]
            },
    )
}

/// The definitions of `n`.
pub open spec fn ids_of(m: Map<Seq<char>, Seq<(Seq<char>, Seq<char>)>>, n: Seq<char>) -> Seq<
    (Seq<char>, Seq<char>),
> {
    if m.contains_key(n) {
        m[n]
    } else {
        Seq::empty()
    }
}

/// The definitions with those of `names` in `file`, each behind those that its name has.
pub open spec fn defined(
    m: Map<Seq<char>, Seq<(Seq<char>, Seq<char>)>>,
    file: Seq<char>,
    names: Set<Seq<char>>,
) -> Map<Seq<char>, Seq<(Seq<char>, Seq<char>)>> {
    Map::new(
        |n: Seq<char>| m.contains_key(n) || names.contains(n),
        |n: Seq<char>|
            if names.contains(n) && !ids_of(m, n).contains((file, n)) {
                ids_of(m, n).push((file, n))
            } else {
                ids_of(m, n)
            },
    )
}

/// The links without those to `names` in `file`.
pub open spec fn without_symbols(
    docs: Map<(Seq<char>, Seq<char>), Seq<index::DocView>>,
    file: Seq<char>,
    names: Set<Seq<char>>,
) -> Map<(Seq<char>, Seq<char>), Seq<index::DocView>> {
    docs.remove_keys(Set::new(|s: (Seq<char>, Seq<char>)| s.0 == file && names.contains(s.1)))
}

/// The index after `file` was found to define `list`.
pub open spec fn with_symbols(
    v: index::IndexView,
    file: Seq<char>,
    list: Seq<symbols::SymbolView>,
) -> index::IndexView {
    let gone = names_of(v, file).difference(names_in(list));
    index::IndexView {
        code_symbols: v.code_symbols.put(file, list),
        removed: v.removed.remove(file),
        sym_to_docs: without_symbols(v.sym_to_docs, file, gone),
        symbol_names: defined(retired(v.symbol_names, file, gone), file, names_in(list)),
        ..v
    }
}

/// One more symbol adds its name.
proof fn lemma_names_step(list: Seq<symbols::SymbolView>, i: int)
    requires
        0 <= i < list.len(),
    ensures
        names_in(list.take(i + 1)) == names_in(list.take(i)).insert(list[i].name),
{
    let more = list.take(i + 1);
    let less = list.take(i);
    assert forall|n: Seq<char>| names_in(more).contains(n) <==> names_in(less).contains(n) || n == list[i].name by {
        if names_in(more).contains(n) {
            let k = choose|k: int| 0 <= k < more.len() && (#[trigger] more[k]).name == n;
            if k < i {
                assert(less[k].name == n);
            }
        }
        if names_in(less).contains(n) {
            let k = choose|k: int| 0 <= k < less.len() && (#[trigger] less[k]).name == n;
            assert(more[k].name == n);
        }
        if n == list[i].name {
            assert(more[i].name == n);
        }
    }
    assert(names_in(more) =~= names_in(less).insert(list[i].name));
}

/// Retiring one more name is retiring them together.
proof fn lemma_retired_step(
    m: Map<Seq<char>, Seq<(Seq<char>, Seq<char>)>>,
    file: Seq<char>,
    names: Set<Seq<char>>,
    n: Seq<char>,
)
    ensures
        retired(retired(m, file, names), file, set![n]) == retired(m, file, names.insert(n)),
{
    let once = retired(m, file, names);
    let a = retired(once, file, set![n]);
    let b = retired(m, file, names.insert(n));
    if m.contains_key(n) && names.contains(n) {
        gather::lemma_filter_twice(m[n], not_this((file, n)), not_this((file, n)), not_this((file, n)));
    }
    assert(a.dom() =~= b.dom());
    assert(a =~= b);
}

/// Defining one more name is defining them together.
proof fn lemma_defined_step(
    m: Map<Seq<char>, Seq<(Seq<char>, Seq<char>)>>,
    file: Seq<char>,
    names: Set<Seq<char>>,
    n: Seq<char>,
)
    ensures
        defined(defined(m, file, names), file, set![n]) == defined(m, file, names.insert(n)),
{
    let once = defined(m, file, names);
    let a = defined(once, file, set![n]);
    let b = defined(m, file, names.insert(n));
    if names.contains(n) && !ids_of(m, n).contains((file, n)) {
        assert(ids_of(once, n)[ids_of(m, n).len() as int] == (file, n));
    }
    assert(a =~= b);
}

/// The definitions other than `id`.
fn drop_id(ids: Vec<SymbolId>, id: &SymbolId) -> (r: Vec<SymbolId>)
    ensures
        r.deep_view() == ids.deep_view().filter(not_this(id.deep_view())),
{
    let ghost all = ids.deep_view();
    let ghost keep = not_this(id.deep_view());
    let mut out: Vec<SymbolId> = Vec::new();
    let n: usize = ids.len();
    assert(out.deep_view() =~= all.take(0).filter(keep)) by {
        reveal(Seq::filter);
    }
    for i in 0..n
        invariant
            n == ids@.len(),
            all == ids.deep_view(),
            keep == not_this(id.deep_view()),
            out.deep_view() == all.take(i as int).filter(keep),
    {
        let ghost before = out.deep_view();
        proof {
            assert(all[i as int] == ids@[i as int].deep_view());
            gather::lemma_filter_step(all, keep, i as int);
        }
        if !ids[i].same(id) {
            out.push(ids[i].clone());
            assert(out.deep_view() =~= before.push(all[i as int]));
        }
    }
    assert(all.take(n as int) =~= all);
    out
}

/// Whether `id` is among `ids`.
fn has_id(ids: &Vec<SymbolId>, id: &SymbolId) -> (r: bool)
    ensures
        r == ids.deep_view().contains(id.deep_view()),
{
    let n: usize = ids.len();
    for i in 0..n
        invariant
            n == ids@.len(),
            forall|k: int| 0 <= k < i ==> ids.deep_view()[k] != id.deep_view(),
    {
        assert(ids.deep_view()[i as int] == ids@[i as int].deep_view());
        if ids[i].same(id) {
            return true;
        }
    }
    false
}

/// The names of `list`, as a table.
fn name_table(list: &Vec<CodeSymbol>) -> (r: Table<String, bool>)
    ensures
        r.wf(),
        r@.entries.dom() == names_in(list.deep_view()),
{
    let ghost all = list.deep_view();
    let mut out: Table<String, bool> = Table::new();
    let n: usize = list.len();
    assert(out@.entries.dom() =~= names_in(all.take(0)));
    for i in 0..n
        invariant
            n == list@.len(),
            all == list.deep_view(),
            out.wf(),
            out@.entries.dom() == names_in(all.take(i as int)),
    {
        proof {
            assert(all[i as int] == list@[i as int].deep_view());
            lemma_names_step(all, i as int);
        }
        out.insert(list[i].name.clone(), true);
        assert(out@.entries.dom() =~= names_in(all.take(i + 1)));
    }
    assert(all.take(n as int) =~= all);
    out
}

impl Index {
    /// Forgets that `file` defines `name`.
    fn retire(&mut self, file: &String, name: &String)
        requires
            old(self).wf(),
        ensures
            final(self).wf(),
            final(self)@ == (index::IndexView {
                sym_to_docs: without_symbols(old(self)@.sym_to_docs, file@, set![name@]),
                symbol_names: retired(old(self)@.symbol_names, file@, set![name@]),
                ..old(self)@
            }),
    {
        let ghost v = self@;
        let id = SymbolId { file: file.clone(), name: name.clone() };
        self.sym_to_docs.remove(&id);
        assert(self@.sym_to_docs =~= without_symbols(v.sym_to_docs, file@, set![name@]));
        if let Some(ids) = self.symbol_names.remove(name) {
            let rest = drop_id(ids, &id);
            assert(rest.deep_view().len() == rest@.len());
            if rest.len() > 0 {
                self.symbol_names.insert(name.clone(), rest);
            }
        }
        assert(self@.symbol_names =~= retired(v.symbol_names, file@, set![name@]));
    }

    /// Notes that `file` defines `name`.
    fn define(&mut self, file: &String, name: &String)
        requires
            old(self).wf(),
        ensures
            final(self).wf(),
            final(self)@ == (index::IndexView {
                symbol_names: defined(old(self)@.symbol_names, file@, set![name@]),
                ..old(self)@
            }),
    {
        let ghost v = self@;
        let id = SymbolId { file: file.clone(), name: name.clone() };
        let mut ids: Vec<SymbolId> = match self.symbol_names.remove(name) {
            Some(ids) => ids,
            None => Vec::new(),
        };
        assert(ids.deep_view() =~= ids_of(v.symbol_names, name@));
        if !has_id(&ids, &id) {
            let ghost before = ids.deep_view();
            ids.push(id);
            assert(ids.deep_view() =~= before.push((file@, name@)));
        }
        self.symbol_names.insert(name.clone(), ids);
        assert(self@.symbol_names =~= defined(v.symbol_names, file@, set![name@]));
    }

    /// The names that `file` defines and that `names` does not hold.
    fn names_gone(&self, file: &String, names: &Table<String, bool>) -> (r: Vec<String>)
        requires
            self.wf(),
            names.wf(),
        ensures
            r.deep_view().to_set() == names_of(self@, file@).difference(names@.entries.dom()),
    {
        let mut out: Vec<String> = Vec::new();
        let ghost kept = names@.entries.dom();
        match self.code_symbols.get(file) {
            Some(list) => {
                let ghost all = list.deep_view();
                let n: usize = list.len();
                assert(out.deep_view().to_set() =~= names_in(all.take(0)).difference(kept));
                for i in 0..n
                    invariant
                        n == list@.len(),
                        all == list.deep_view(),
                        names.wf(),
                        kept == names@.entries.dom(),
                        out.deep_view().to_set() == names_in(all.take(i as int)).difference(kept),
                {
                    let ghost before = out.deep_view();
                    proof {
                        assert(all[i as int] == list@[i as int].deep_view());
                        lemma_names_step(all, i as int);
                    }
                    if names.get(&list[i].name).is_none() {
                        out.push(list[i].name.clone());
                        proof {
                            assert(out.deep_view() =~= before.push(all[i as int].name));
                            gather::lemma_push_set(before, all[i as int].name);
                        }
                    }
                    assert(out.deep_view().to_set() =~= names_in(all.take(i + 1)).difference(kept));
                }
                assert(all.take(n as int) =~= all);
            },
            None => {
                assert(out.deep_view().to_set() =~= names_of(self@, file@).difference(kept));
            },
        }
        out
    }

    /// Replace the symbols recorded for a code file, keeping the definitions by name and the links
    /// by symbol consistent with the new symbols.
    pub fn set_symbols(&mut self, file: &str, list: Vec<CodeSymbol>)
        requires
            old(self).wf(),
        ensures
            final(self).wf(),
            final(self)@ == with_symbols(old(self)@, paths::normal(file@), list.deep_view()),
    {
        let ghost v = self@;
        let ghost all = list.deep_view();
        let key = paths::normalize(file);
        let names = name_table(&list);
        let gone = self.names_gone(&key, &names);
        let ghost lost = gone.deep_view();
        let g: usize = gone.len();
        assert(lost.take(0).to_set() =~= Set::empty());
        assert(without_symbols(v.sym_to_docs, key@, Set::empty()) =~= v.sym_to_docs);
        assert(retired(v.symbol_names, key@, Set::empty()) =~= v.symbol_names);
        for i in 0..g
            invariant
                self.wf(),
                g == gone@.len(),
                lost == gone.deep_view(),
                self@ == (index::IndexView {
                    sym_to_docs: without_symbols(v.sym_to_docs, key@, lost.take(i as int).to_set()),
                    symbol_names: retired(v.symbol_names, key@, lost.take(i as int).to_set()),
                    ..v
                }),
        {
            let ghost done = lost.take(i as int);
            self.retire(&key, &gone[i]);
            proof {
                assert(lost[i as int] == gone@[i as int]@);
                assert(lost.take(i + 1) =~= done.push(lost[i as int]));
                gather::lemma_push_set(done, lost[i as int]);
                lemma_retired_step(v.symbol_names, key@, done.to_set(), lost[i as int]);
                assert(self@.sym_to_docs =~= without_symbols(
                    v.sym_to_docs,
                    key@,
                    lost.take(i + 1).to_set(),
                ));
            }
        }
        assert(lost.take(g as int) =~= lost);
        let ghost mid = self@;
        let n: usize = list.len();
        assert(names_in(all.take(0)) =~= Set::empty());
        assert(defined(mid.symbol_names, key@, Set::empty()) =~= mid.symbol_names);
        for i in 0..n
            invariant
                self.wf(),
                n == list@.len(),
                all == list.deep_view(),
                self@ == (index::IndexView {
                    symbol_names: defined(mid.symbol_names, key@, names_in(all.take(i as int))),
                    ..mid
                }),
        {
            self.define(&key, &list[i].name);
            proof {
                assert(all[i as int] == list@[i as int].deep_view());
                lemma_names_step(all, i as int);
                lemma_defined_step(mid.symbol_names, key@, names_in(all.take(i as int)), all[i as int].name);
            }
        }
        assert(all.take(n as int) =~= all);
        self.removed.remove(&key);
        assert(self@.removed =~= v.removed.remove(key@));
        self.code_symbols.insert(key, list);
    }
}

/// One of the references is to a symbol of `file`.
pub open spec fn refers_into(refs: Seq<index::RefView>, file: Seq<char>) -> bool {
    exists|i: int| 0 <= i < refs.len() && (#[trigger] refs[i]).symbol.0 == file
}

/// The note names one of `names`.
pub open spec fn names_any(note: vault::NoteView, names: Set<Seq<char>>) -> bool {
    exists|i: int| 0 <= i < note.code_idents.len() && names.contains(#[trigger] note.code_idents[i])
}

/// The reference means `file`, or whether it does hangs on the file being there.
pub open spec fn leads_to(
    v: index::IndexView,
    fr: vault::FileRefView,
    file: Seq<char>,
    disk: Set<Seq<char>>,
) -> bool {
    ||| resolve::resolved(v, fr, disk).contains(file)
    ||| resolve::probed(v, fr) == Some(file)
}

/// One of the note's file references leads to `file`.
pub open spec fn points_at(
    v: index::IndexView,
    note: vault::NoteView,
    file: Seq<char>,
    disk: Set<Seq<char>>,
) -> bool {
    exists|i: int| 0 <= i < note.file_refs.len() && leads_to(v, #[trigger] note.file_refs[i], file, disk)
}

/// The note is linked to a symbol of `file`.
pub open spec fn linked_into(v: index::IndexView, file: Seq<char>) -> spec_fn(Seq<char>) -> bool {
    |n: Seq<char>| v.doc_to_syms.contains_key(n) && refers_into(v.doc_to_syms[n], file)
}

/// The note speaks of `file`: it names a symbol that the file defines, or refers to the file.
pub open spec fn speaks_of(v: index::IndexView, file: Seq<char>, disk: Set<Seq<char>>) -> spec_fn(
    Seq<char>,
) -> bool {
    |n: Seq<char>|
        v.vault_notes.has(n) && (names_any(v.vault_notes.at(n), names_of(v, file)) || points_at(
            v,
            v.vault_notes.at(n),
            file,
            disk,
        ))
}

/// The name of `file` is like `title` enough to be a guess.
pub open spec fn is_like(title: Seq<char>, file: Seq<char>) -> bool {
    matching::file_score(title, file) matches Some(score) && score >= matching::FUZZY_SCORE_THRESHOLD
}

/// No file reference of the note makes a link, and its title is like the name of `file`.
pub open spec fn titled_like(v: index::IndexView, file: Seq<char>, disk: Set<Seq<char>>) -> spec_fn(
    Seq<char>,
) -> bool {
    |n: Seq<char>|
        {
            &&& v.vault_notes.has(n)
            &&& matching::exact_links(v, v.vault_notes.at(n), disk).len() == 0
            &&& is_like(v.vault_notes.at(n).title, file)
        }
}

/// The notes can be linked anew after a change of `file` made `w` of `v`: where no file reference of
/// a note makes a link, its title can be scored, for `file` too.
pub open spec fn relinkable(
    v: index::IndexView,
    w: index::IndexView,
    file: Seq<char>,
    disk: Set<Seq<char>>,
) -> bool {
    forall|k: Seq<char>| #[trigger]
        w.vault_notes.has(k) ==> matching::linkable(w, w.vault_notes.at(k), disk) && (
        matching::exact_links(w, w.vault_notes.at(k), disk).len() == 0 && v.code_symbols.has(file)
            ==> matching::file_scorable(w.vault_notes.at(k).title, file))
}

/// The notes whose links a change of `file` can touch, where the index is `v` before the change and
/// `w` after it: those linked into the file, those that speak of it before or after, and those whose
/// guess it can be or have been.
pub open spec fn affected(
    v: index::IndexView,
    w: index::IndexView,
    file: Seq<char>,
    disk: Set<Seq<char>>,
) -> Set<Seq<char>> {
    Set::new(
        |n: Seq<char>|
            {
                ||| linked_into(w, file)(n)
                ||| speaks_of(v, file, disk)(n)
                ||| speaks_of(w, file, disk)(n)
                ||| (v.code_symbols.has(file) || w.code_symbols.has(file)) && titled_like(w, file, disk)(n)
            },
    )
}

/// A member of `set`.
pub open spec fn member(set: Set<Seq<char>>) -> spec_fn(Seq<char>) -> bool {
    |n: Seq<char>| set.contains(n)
}

/// The index after a change of `file` made `w` of `v`, and the links of every note that this can
/// touch were made anew.
pub open spec fn relinked(
    v: index::IndexView,
    w: index::IndexView,
    file: Seq<char>,
    disk: Set<Seq<char>>,
) -> index::IndexView {
    let touched = affected(v, w, file, disk);
    matching::linked_each(unlinked(w, touched), w.vault_notes.order.filter(member(touched)), disk)
}

/// Whether one of the references is to a symbol of `file`.
fn any_into(refs: &Vec<SymbolRef>, file: &String) -> (r: bool)
    ensures
        r == refers_into(refs.deep_view(), file@),
{
    let n: usize = refs.len();
    for i in 0..n
        invariant
            n == refs@.len(),
            forall|k: int| 0 <= k < i ==> (#[trigger] refs.deep_view()[k]).symbol.0 != file@,
    {
        assert(refs.deep_view()[i as int] == refs@[i as int].deep_view());
        if text::same(refs[i].symbol_id.file.as_str(), file.as_str()) {
            return true;
        }
    }
    false
}

/// Whether the note names one of `names`.
fn names_one(note: &VaultNote, names: &Table<String, bool>) -> (r: bool)
    requires
        names.wf(),
    ensures
        r == names_any(note.deep_view(), names@.entries.dom()),
{
    let ghost idents = note.deep_view().code_idents;
    let n: usize = note.code_idents.len();
    for i in 0..n
        invariant
            names.wf(),
            n == note.code_idents@.len(),
            idents == note.deep_view().code_idents,
            forall|k: int| 0 <= k < i ==> !names@.entries.dom().contains(#[trigger] idents[k]),
    {
        assert(idents[i as int] == note.code_idents@[i as int]@);
        if names.get(&note.code_idents[i]).is_some() {
            return true;
        }
    }
    false
}

impl Index {
    /// Whether one of the note's file references leads to `file`.
    fn refers_to_file(&self, note: &VaultNote, file: &String, disk: &Disk) -> (r: bool)
        requires
            self.wf(),
            disk.wf(),
        ensures
            r == points_at(self@, note.deep_view(), file@, disk@),
    {
        let ghost refs = note.deep_view().file_refs;
        let n: usize = note.file_refs.len();
        for i in 0..n
            invariant
                self.wf(),
                disk.wf(),
                n == note.file_refs@.len(),
                refs == note.deep_view().file_refs,
                forall|k: int|
                    0 <= k < i ==> !leads_to(self@, #[trigger] refs[k], file@, disk@),
        {
            assert(refs[i as int] == note.file_refs@[i as int].deep_view());
            let probe = self.probe(&note.file_refs[i]);
            let decides: bool = match &probe {
                Some(found) => text::same(found.as_str(), file.as_str()),
                None => false,
            };
            assert(decides == (resolve::probed(self@, refs[i as int]) == Some(file@)));
            if decides || text::lists(&self.resolve_file_ref(&note.file_refs[i], disk), file) {
                return true;
            }
        }
        false
    }

    /// The names that `file` defines.
    fn file_names(&self, file: &String) -> (r: Table<String, bool>)
        requires
            self.wf(),
        ensures
            r.wf(),
            r@.entries.dom() == names_of(self@, file@),
    {
        match self.code_symbols.get(file) {
            Some(list) => name_table(list),
            None => {
                let r = Table::new();
                assert(r@.entries.dom() =~= names_of(self@, file@));
                r
            },
        }
    }

    /// Adds the notes that are linked to a symbol of `file`.
    fn add_linked(&self, file: &String, out: &mut Table<String, bool>)
        requires
            self.wf(),
            old(out).wf(),
        ensures
            final(out).wf(),
            final(out)@.entries.dom() == old(out)@.entries.dom().union(Set::new(linked_into(self@, file@))),
    {
        let ghost v = self@;
        let ghost first = out@.entries.dom();
        let ghost keys = self.doc_to_syms@.order;
        let ghost into = linked_into(v, file@);
        let n: usize = self.doc_to_syms.len();
        proof {
            reveal(Seq::filter);
            assert(first =~= first.union(keys.take(0).filter(into).to_set()));
        }
        for i in 0..n
            invariant
                self.wf(),
                v == self@,
                n == keys.len(),
                keys == self.doc_to_syms@.order,
                into == linked_into(v, file@),
                out.wf(),
                out@.entries.dom() == first.union(keys.take(i as int).filter(into).to_set()),
        {
            proof {
                gather::lemma_filter_step(keys, into, i as int);
                gather::lemma_push_set(keys.take(i as int).filter(into), keys[i as int]);
            }
            if any_into(self.doc_to_syms.value_at(i), file) {
                out.insert(self.doc_to_syms.key_at(i).clone(), true);
            }
            assert(out@.entries.dom() =~= first.union(keys.take(i + 1).filter(into).to_set()));
        }
        proof {
            assert(keys.take(n as int) =~= keys);
            self.doc_to_syms.lemma_listing();
            assert forall|k: Seq<char>| keys.filter(into).to_set().contains(k) <==> into(k) by {
                gather::lemma_filter_contains(keys, into, k);
                assert(v.doc_to_syms.contains_key(k) <==> keys.contains(k));
            }
            assert(keys.filter(into).to_set() =~= Set::new(into));
        }
    }

    /// Adds the notes that speak of `file`.
    fn add_speaking(&self, file: &String, disk: &Disk, out: &mut Table<String, bool>)
        requires
            self.wf(),
            disk.wf(),
            old(out).wf(),
        ensures
            final(out).wf(),
            final(out)@.entries.dom() == old(out)@.entries.dom().union(
                Set::new(speaks_of(self@, file@, disk@)),
            ),
    {
        let ghost v = self@;
        let ghost first = out@.entries.dom();
        let names = self.file_names(file);
        let ghost keys = v.vault_notes.order;
        let ghost speaks = speaks_of(v, file@, disk@);
        let n: usize = self.vault_notes.len();
        proof {
            reveal(Seq::filter);
            assert(first =~= first.union(keys.take(0).filter(speaks).to_set()));
        }
        for i in 0..n
            invariant
                self.wf(),
                disk.wf(),
                names.wf(),
                names@.entries.dom() == names_of(v, file@),
                v == self@,
                n == keys.len(),
                keys == v.vault_notes.order,
                speaks == speaks_of(v, file@, disk@),
                out.wf(),
                out@.entries.dom() == first.union(keys.take(i as int).filter(speaks).to_set()),
        {
            proof {
                gather::lemma_filter_step(keys, speaks, i as int);
                gather::lemma_push_set(keys.take(i as int).filter(speaks), keys[i as int]);
            }
            let key = self.vault_notes.key_at(i);
            let note = self.vault_notes.value_at(i);
            if out.get(key).is_none() && (names_one(note, &names) || self.refers_to_file(note, file, disk)) {
                out.insert(key.clone(), true);
            }
            assert(out@.entries.dom() =~= first.union(keys.take(i + 1).filter(speaks).to_set()));
        }
        proof {
            assert(keys.take(n as int) =~= keys);
            self.vault_notes.lemma_listing();
            assert forall|k: Seq<char>| keys.filter(speaks).to_set().contains(k) <==> speaks(k) by {
                gather::lemma_filter_contains(keys, speaks, k);
                assert(v.vault_notes.has(k) <==> keys.contains(k));
            }
            assert(keys.filter(speaks).to_set() =~= Set::new(speaks));
        }
    }

    /// Adds the notes without a link from a file reference whose titles are like the name of `file`.
    fn add_titled(&self, file: &String, disk: &Disk, out: &mut Table<String, bool>)
        requires
            self.wf(),
            disk.wf(),
            old(out).wf(),
            forall|k: Seq<char>| #[trigger]
                self@.vault_notes.has(k) && matching::exact_links(
                    self@,
                    self@.vault_notes.at(k),
                    disk@,
                ).len() == 0 ==> matching::file_scorable(self@.vault_notes.at(k).title, file@),
        ensures
            final(out).wf(),
            final(out)@.entries.dom() == old(out)@.entries.dom().union(
                Set::new(titled_like(self@, file@, disk@)),
            ),
    {
        let ghost v = self@;
        let ghost first = out@.entries.dom();
        let ghost keys = v.vault_notes.order;
        let ghost like = titled_like(v, file@, disk@);
        let found = paths::file_stem(file.as_str());
        let stem = match found {
            Some(stem) => stem,
            None => {
                assert(found.deep_view() == paths::stem_of(file@));
                assert(Set::new(like) =~= Set::empty());
                assert(out@.entries.dom() =~= first.union(Set::new(like)));
                return;
            },
        };
        assert(paths::stem_of(file@) == Some(stem@));
        let mut matcher = fuzzy::new_matcher();
        let n: usize = self.vault_notes.len();
        proof {
            reveal(Seq::filter);
            assert(first =~= first.union(keys.take(0).filter(like).to_set()));
        }
        for i in 0..n
            invariant
                self.wf(),
                disk.wf(),
                forall|k: Seq<char>| #[trigger]
                    v.vault_notes.has(k) && matching::exact_links(v, v.vault_notes.at(k), disk@).len()
                        == 0 ==> matching::file_scorable(v.vault_notes.at(k).title, file@),
                paths::stem_of(file@) == Some(stem@),
                v == self@,
                n == keys.len(),
                keys == v.vault_notes.order,
                like == titled_like(v, file@, disk@),
                out.wf(),
                out@.entries.dom() == first.union(keys.take(i as int).filter(like).to_set()),
        {
            proof {
                gather::lemma_filter_step(keys, like, i as int);
                gather::lemma_push_set(keys.take(i as int).filter(like), keys[i as int]);
            }
            let note = self.vault_notes.value_at(i);
            let mut enough: bool = false;
            if !matching::has_exact(self, note, disk) {
                assert(v.vault_notes.has(keys[i as int]));
                let score = fuzzy::score_stem(&mut matcher, note.title.as_str(), stem.as_str());
                enough = match score {
                    Some(score) => score >= matching::FUZZY_SCORE_THRESHOLD,
                    None => false,
                };
            }
            if enough {
                out.insert(self.vault_notes.key_at(i).clone(), true);
            }
            assert(out@.entries.dom() =~= first.union(keys.take(i + 1).filter(like).to_set()));
        }
        proof {
            assert(keys.take(n as int) =~= keys);
            self.vault_notes.lemma_listing();
            assert forall|k: Seq<char>| keys.filter(like).to_set().contains(k) <==> like(k) by {
                gather::lemma_filter_contains(keys, like, k);
                assert(v.vault_notes.has(k) <==> keys.contains(k));
            }
            assert(keys.filter(like).to_set() =~= Set::new(like));
        }
    }

    /// Recompute links for the notes that a change of `file` can touch, where `speaking` are those
    /// that spoke of it before the change, and `known` says whether the file is or was indexed.
    fn relink_notes_for_file(
        &mut self,
        file: &String,
        speaking: Table<String, bool>,
        known: bool,
        was: Ghost<index::IndexView>,
        disk: &Disk,
    )
        requires
            old(self).wf(),
            disk.wf(),
            old(self)@.code_symbols.wf(),
            relinkable(was@, old(self)@, file@, disk@),
            speaking.wf(),
            speaking@.entries.dom() == Set::new(speaks_of(was@, file@, disk@)),
            known == (was@.code_symbols.has(file@) || old(self)@.code_symbols.has(file@)),
        ensures
            final(self).wf(),
            final(self)@ == relinked(was@, old(self)@, file@, disk@),
    {
        let ghost v = self@;
        let mut touched = speaking;
        self.add_linked(file, &mut touched);
        self.add_speaking(file, disk, &mut touched);
        if known {
            assert forall|k: Seq<char>| #[trigger]
                v.vault_notes.has(k) && matching::exact_links(v, v.vault_notes.at(k), disk@).len()
                    == 0 implies matching::file_scorable(v.vault_notes.at(k).title, file@) by {
                if v.code_symbols.has(file@) {
                    let order = v.code_symbols.order;
                    assert(v.code_symbols.entries.contains_key(file@) <==> order.contains(file@));
                    assert(matching::file_scorable(
                        v.vault_notes.at(k).title,
                        order[order.index_of(file@)],
                    ));
                }
            }
            self.add_titled(file, disk, &mut touched);
        }
        assert(touched@.entries.dom() =~= affected(was@, v, file@, disk@));
        let ghost set = touched@.entries.dom();
        let ghost keys = touched@.order;
        let n: usize = touched.len();
        proof {
            assert(keys.take(0).to_set() =~= Set::empty());
            lemma_unlink_none(v);
        }
        for i in 0..n
            invariant
                self.wf(),
                touched.wf(),
                keys == touched@.order,
                n == keys.len(),
                self@ == unlinked(v, keys.take(i as int).to_set()),
        {
            self.unlink_key(touched.key_at(i));
            proof {
                let done = keys.take(i as int);
                assert(keys.take(i + 1) =~= done.push(keys[i as int]));
                gather::lemma_push_set(done, keys[i as int]);
                lemma_unlink_more(v, done.to_set(), keys[i as int]);
            }
        }
        let ghost mid = self@;
        proof {
            touched.lemma_listing();
            assert(keys.take(n as int) =~= keys);
            assert(keys.to_set() =~= set);
            assert(mid == unlinked(v, set));
        }
        let ghost order = v.vault_notes.order;
        let m: usize = self.vault_notes.len();
        proof {
            reveal(Seq::filter);
            assert(order.take(0).filter(member(set)) =~= Seq::empty());
        }
        for i in 0..m
            invariant
                self.wf(),
                disk.wf(),
                touched.wf(),
                set == touched@.entries.dom(),
                order == mid.vault_notes.order,
                m == order.len(),
                mid == unlinked(v, set),
                relinkable(was@, v, file@, disk@),
                self@ == matching::linked_each(mid, order.take(i as int).filter(member(set)), disk@),
        {
            let ghost done = order.take(i as int).filter(member(set));
            proof {
                matching::lemma_linked_frame(mid, done, disk@);
                gather::lemma_filter_step(order, member(set), i as int);
                assert(done.push(order[i as int]).drop_last() =~= done);
            }
            if touched.get(self.vault_notes.key_at(i)).is_some() {
                let note = self.vault_notes.value_at(i).clone();
                proof {
                    matching::lemma_same_due(v, self@, note.deep_view(), disk@);
                    assert(v.vault_notes.has(order[i as int]));
                }
                matching::link_note(self, &note, disk);
            }
        }
        assert(order.take(m as int) =~= order);
    }
}

/// Unlinking no note changes nothing.
proof fn lemma_unlink_none(v: index::IndexView)
    ensures
        unlinked(v, Set::empty()) == v,
{
    let u = unlinked(v, Set::empty());
    assert forall|s: (Seq<char>, Seq<char>)| v.sym_to_docs.contains_key(s) implies staying(
        v,
        Set::empty(),
        s,
    ) == v.sym_to_docs[s] by {
        gather::lemma_filter_all(v.sym_to_docs[s], stays(v, Set::empty(), s));
    }
    assert(u.sym_to_docs =~= v.sym_to_docs);
    assert(u.doc_to_syms =~= v.doc_to_syms);
}

/// The index after `note` was read anew.
pub open spec fn with_note(v: index::IndexView, note: vault::NoteView, disk: Set<Seq<char>>) -> index::IndexView {
    let key = paths::normal(note.path);
    let bare = unlinked(v, set![key]);
    matching::linked(
        index::IndexView { vault_notes: bare.vault_notes.put(key, note), ..bare },
        note,
        disk,
    )
}

/// The index after the note at `path` was deleted.
pub open spec fn without_note_at(v: index::IndexView, path: Seq<char>) -> index::IndexView {
    let bare = unlinked(v, set![path]);
    index::IndexView { vault_notes: bare.vault_notes.drop(path), ..bare }
}

/// The index after `file` was found to define `list`, with the links that this changes.
pub open spec fn with_code(
    v: index::IndexView,
    file: Seq<char>,
    list: Seq<symbols::SymbolView>,
    disk: Set<Seq<char>>,
) -> index::IndexView {
    relinked(v, with_symbols(v, file, list), file, disk)
}

/// The symbols of a file that was taken in are known, and the notes and the lookup table stay.
pub proof fn law_code_change_keeps_rest(
    v: index::IndexView,
    file: Seq<char>,
    list: Seq<symbols::SymbolView>,
    disk: Set<Seq<char>>,
)
    ensures
        with_code(v, file, list, disk).code_symbols.at(file) == list,
        with_code(v, file, list, disk).vault_notes == v.vault_notes,
        with_code(v, file, list, disk).file_lookup == v.file_lookup,
{
    let w = with_symbols(v, file, list);
    let touched = affected(v, w, file, disk);
    matching::lemma_linked_frame(
        unlinked(w, touched),
        w.vault_notes.order.filter(member(touched)),
        disk,
    );
}

/// The index without `file`, its symbols and the links to them. The file is found by none of its names.
pub open spec fn without_file(v: index::IndexView, file: Seq<char>) -> index::IndexView {
    let bare = with_symbols(v, file, Seq::empty());
    index::IndexView {
        code_symbols: bare.code_symbols.cut(file),
        removed: bare.removed.insert(file),
        ..bare
    }
}

/// `file` can be taken in, whatever symbols it has: every note can be linked then.
pub open spec fn takes(v: index::IndexView, file: Seq<char>, disk: Set<Seq<char>>) -> bool {
    forall|list: Seq<symbols::SymbolView>| matching::all_linkable(#[trigger] with_symbols(v, file, list), disk)
}

/// Where every note can be linked, notes can be linked anew after a file was taken in.
proof fn lemma_linkable_is_relinkable(
    v: index::IndexView,
    w: index::IndexView,
    file: Seq<char>,
    disk: Set<Seq<char>>,
)
    requires
        matching::all_linkable(w, disk),
        w.code_symbols.wf(),
        w.code_symbols.has(file),
    ensures
        relinkable(v, w, file, disk),
{
    let order = w.code_symbols.order;
    assert(w.code_symbols.entries.contains_key(file) <==> order.contains(file));
    assert forall|k: Seq<char>| #[trigger] w.vault_notes.has(k) implies matching::linkable(
        w,
        w.vault_notes.at(k),
        disk,
    ) && (matching::exact_links(w, w.vault_notes.at(k), disk).len() == 0 && v.code_symbols.has(file)
        ==> matching::file_scorable(w.vault_notes.at(k).title, file)) by {
        if matching::title_scorable(w, w.vault_notes.at(k).title) {
            assert(matching::file_scorable(w.vault_notes.at(k).title, order[order.index_of(file)]));
        }
    }
}

/// The index after `file` was deleted, with the links that this changes.
pub open spec fn without_code(v: index::IndexView, file: Seq<char>, disk: Set<Seq<char>>) -> index::IndexView {
    relinked(v, without_file(v, file), file, disk)
}

/// A link that is traceable to something the note says.
pub open spec fn traceable() -> spec_fn(index::DocView) -> bool {
    |d: index::DocView| index::is_traceable(d.confidence)
}

/// The symbols that `note` is linked to.
pub open spec fn refs_from(v: index::IndexView, note: Seq<char>) -> Seq<index::RefView> {
    if v.doc_to_syms.contains_key(note) {
        v.doc_to_syms[note]
    } else {
        Seq::empty()
    }
}

impl Index {
    /// Re-index a vault note that is new or has changed and says `source`, rebuilding its links.
    pub fn reindex_note(&mut self, path: &str, source: &str, disk: &Disk)
        requires
            old(self).wf(),
            disk.wf(),
            matching::linkable(old(self)@, notes::note_in(path@, source@), disk@),
        ensures
            final(self).wf(),
            final(self)@ == with_note(old(self)@, notes::note_in(path@, source@), disk@),
    {
        self.update_note(notes::parse_note(path, source), disk);
    }

    /// Take in a vault note that is new or has changed, rebuilding its links.
    pub fn update_note(&mut self, note: VaultNote, disk: &Disk)
        requires
            old(self).wf(),
            disk.wf(),
            matching::linkable(old(self)@, note.deep_view(), disk@),
        ensures
            final(self).wf(),
            final(self)@ == with_note(old(self)@, note.deep_view(), disk@),
    {
        let ghost v = self@;
        let key = paths::normalize(note.path.as_str());
        self.unlink_key(&key);
        let kept = note.clone();
        self.vault_notes.insert(key, kept);
        proof {
            matching::lemma_same_due(v, self@, note.deep_view(), disk@);
        }
        matching::link_note(self, &note, disk);
    }

    /// Forget a vault note entirely.
    pub fn remove_note(&mut self, path: &str)
        requires
            old(self).wf(),
        ensures
            final(self).wf(),
            final(self)@ == without_note_at(old(self)@, paths::normal(path@)),
    {
        let key = paths::normalize(path);
        self.unlink_key(&key);
        self.vault_notes.remove(&key);
    }

    /// Take in the symbols of a code file that is new or has changed, rebuilding the links of every
    /// note that they could affect.
    pub fn update_code_file(&mut self, path: &str, list: Vec<CodeSymbol>, disk: &Disk)
        requires
            old(self).wf(),
            disk.wf(),
            matching::all_linkable(
                with_symbols(old(self)@, paths::normal(path@), list.deep_view()),
                disk@,
            ),
        ensures
            final(self).wf(),
            final(self)@ == with_code(old(self)@, paths::normal(path@), list.deep_view(), disk@),
    {
        let ghost v = self@;
        let key = paths::normalize(path);
        let mut speaking: Table<String, bool> = Table::new();
        self.add_speaking(&key, disk, &mut speaking);
        assert(speaking@.entries.dom() =~= Set::new(speaks_of(v, key@, disk@)));
        self.set_symbols(path, list);
        proof {
            self.code_symbols.lemma_listing();
            lemma_linkable_is_relinkable(v, self@, key@, disk@);
        }
        self.relink_notes_for_file(&key, speaking, true, Ghost(v), disk);
    }

    /// Re-index a code file that is new or has changed, rebuilding the links of every note that its
    /// symbols could affect. A file that cannot be parsed leaves the index as it is.
    pub fn reindex_code_file(&mut self, path: &str, source: &str, disk: &Disk) -> (r: Result<
        (),
        ExtractError,
    >)
        requires
            old(self).wf(),
            disk.wf(),
            symbols::supported(path@) ==> vstd::utf8::encode_utf8(source@).len() < u32::MAX && takes(
                old(self)@,
                paths::normal(path@),
                disk@,
            ),
        ensures
            final(self).wf(),
            match symbols::refused(path@, source@) {
                None => {
                    let list = final(self)@.code_symbols.at(paths::normal(path@));
                    &&& r is Ok
                    &&& symbols::yields(path@, source@, list)
                    &&& final(self)@ == with_code(old(self)@, paths::normal(path@), list, disk@)
                },
                Some(e) => r matches Err(found) && found.deep_view() == e && final(self)@ == old(self)@,
            },
    {
        proof {
            symbols::law_extracts_supported(path@, source@, Seq::empty());
        }
        match symbols::extract_symbols(path, source) {
            Ok(list) => {
                proof {
                    law_code_change_keeps_rest(self@, paths::normal(path@), list.deep_view(), disk@);
                }
                self.update_code_file(path, list, disk);
                Ok(())
            },
            Err(e) => Err(e),
        }
    }

    /// Forget a code file entirely.
    pub fn remove_code_file(&mut self, path: &str, disk: &Disk)
        requires
            old(self).wf(),
            disk.wf(),
            relinkable(old(self)@, without_file(old(self)@, paths::normal(path@)), paths::normal(path@), disk@),
        ensures
            final(self).wf(),
            final(self)@ == without_code(old(self)@, paths::normal(path@), disk@),
    {
        let ghost v = self@;
        let key = paths::normalize(path);
        let mut speaking: Table<String, bool> = Table::new();
        self.add_speaking(&key, disk, &mut speaking);
        assert(speaking@.entries.dom() =~= Set::new(speaks_of(v, key@, disk@)));
        let known: bool = self.code_symbols.get(&key).is_some();
        let none: Vec<CodeSymbol> = Vec::new();
        assert(none.deep_view() =~= Seq::empty());
        self.set_symbols(path, none);
        let ghost mid = self@;
        self.code_symbols.remove_in_order(&key);
        self.removed.insert(key.clone(), true);
        proof {
            assert(self@.removed =~= mid.removed.insert(key@));
            assert(self@ == without_file(v, key@));
            self.code_symbols.lemma_listing();
        }
        self.relink_notes_for_file(&key, speaking, known, Ghost(v), disk);
    }

    /// Look up all documentation links for a given symbol.
    pub fn docs_for_symbol(&self, file: &str, name: &str) -> (r: Vec<DocLink>)
        requires
            self.wf(),
        ensures
            r.deep_view() == matching::docs_of(self@.sym_to_docs, (paths::normal(file@), name@)),
    {
        let id = SymbolId { file: paths::normalize(file), name: name.to_string() };
        match self.sym_to_docs.get(&id) {
            Some(docs) => {
                let r = docs.clone();
                assert(r.deep_view() =~= docs.deep_view());
                r
            },
            None => {
                let r: Vec<DocLink> = Vec::new();
                assert(r.deep_view() =~= Seq::empty());
                r
            },
        }
    }

    /// Documentation links for a symbol, excluding fuzzy title guesses.
    pub fn verified_docs_for_symbol(&self, file: &str, name: &str) -> (r: Vec<DocLink>)
        requires
            self.wf(),
        ensures
            r.deep_view() == matching::docs_of(self@.sym_to_docs, (paths::normal(file@), name@)).filter(
                traceable(),
            ),
    {
        let docs = self.docs_for_symbol(file, name);
        let ghost all = docs.deep_view();
        let mut out: Vec<DocLink> = Vec::new();
        let n: usize = docs.len();
        assert(out.deep_view() =~= all.take(0).filter(traceable())) by {
            reveal(Seq::filter);
        }
        for i in 0..n
            invariant
                n == docs@.len(),
                all == docs.deep_view(),
                out.deep_view() == all.take(i as int).filter(traceable()),
        {
            let ghost before = out.deep_view();
            proof {
                assert(all[i as int] == docs@[i as int].deep_view());
                gather::lemma_filter_step(all, traceable(), i as int);
            }
            if docs[i].confidence.is_verified() {
                out.push(docs[i].clone());
                assert(out.deep_view() =~= before.push(all[i as int]));
            }
        }
        assert(all.take(n as int) =~= all);
        out
    }

    /// Look up all symbol references for a given vault note.
    pub fn symbols_for_note(&self, note_path: &str) -> (r: Vec<SymbolRef>)
        requires
            self.wf(),
        ensures
            r.deep_view() == refs_from(self@, paths::normal(note_path@)),
    {
        let key = paths::normalize(note_path);
        match self.doc_to_syms.get(&key) {
            Some(refs) => {
                let r = refs.clone();
                assert(r.deep_view() =~= refs.deep_view());
                r
            },
            None => {
                let r: Vec<SymbolRef> = Vec::new();
                assert(r.deep_view() =~= Seq::empty());
                r
            },
        }
    }
}

} // verus!
