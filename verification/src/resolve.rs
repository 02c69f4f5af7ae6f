//! Which files a reference in a note means.
use crate::gather;
use crate::index;
use crate::index::{Disk, Index};
use crate::paths;
use crate::table;
use crate::text;
use crate::vault;
use crate::vault::FileRef;
use vstd::prelude::*;
use vstd::string::*;

verus! {

/// The mark that stands for directories left out of a path.
pub open spec fn ellipsis() -> Seq<char> {
    "..."@
}

/// The path `p` leaves directories out.
pub open spec fn is_abbreviated(p: Seq<char>) -> bool {
    text::occurs_in("/..."@, p) || text::occurs_in(".../"@, p)
}

/// The mark stands at `i` and nowhere else in `p`, where marks do not overlap and are told apart
/// from left to right.
pub open spec fn sole_mark(p: Seq<char>, i: int) -> bool {
    &&& text::occurs_at(p, ellipsis(), i)
    &&& forall|k: int| 0 <= k < i ==> !text::occurs_at(p, ellipsis(), k)
    &&& forall|k: int| i + 3 <= k ==> !text::occurs_at(p, ellipsis(), k)
}

/// `s` without separators at its end.
pub open spec fn trim_end(s: Seq<char>) -> Seq<char>
    decreases s.len(),
{
    if s.len() > 0 && s.last() == '/' {
        trim_end(s.drop_last())
    } else {
        s
    }
}

/// `s` without separators at its beginning.
pub open spec fn trim_start(s: Seq<char>) -> Seq<char>
    decreases s.len(),
{
    if s.len() > 0 && s[0] == '/' {
        trim_start(s.skip(1))
    } else {
        s
    }
}

/// Every file of the lookup table, name after name.
pub open spec fn listed_files(l: table::Listing<Seq<char>, Seq<Seq<char>>>) -> Seq<Seq<char>> {
    gather::gather(l.order, files_named(l))
}

/// The files of a name.
pub open spec fn files_named(l: table::Listing<Seq<char>, Seq<Seq<char>>>) -> spec_fn(
    Seq<char>,
) -> Seq<Seq<char>> {
    |name: Seq<char>| l.at(name)
}

/// The file was not deleted.
pub open spec fn present(v: index::IndexView) -> spec_fn(Seq<char>) -> bool {
    |full: Seq<char>| !v.removed.contains(full)
}

/// The file was not deleted, and its path below the project root begins with the names of `prefix`
/// and ends in those of `suffix`.
pub open spec fn framed(v: index::IndexView, prefix: Seq<char>, suffix: Seq<char>) -> spec_fn(
    Seq<char>,
) -> bool {
    |full: Seq<char>| present(v)(full) && paths::is_framed(full, v.root, prefix, suffix)
}

/// The files that an abbreviated path means: those that agree with what stands before and behind
/// the mark. A path with more than one mark means nothing.
pub open spec fn abbreviated(v: index::IndexView, p: Seq<char>) -> Seq<Seq<char>> {
    if exists|i: int| sole_mark(p, i) {
        let i = choose|i: int| sole_mark(p, i);
        listed_files(v.file_lookup).filter(
            framed(v, trim_end(p.take(i)), trim_start(p.skip(i + 3))),
        )
    } else {
        Seq::empty()
    }
}

/// The path that a reference means when it is taken from the project root.
pub open spec fn from_root(v: index::IndexView, p: Seq<char>) -> Seq<char> {
    paths::normal(paths::path_join(v.root, p))
}

/// The path whose presence on disk decides what the reference means, where one does.
pub open spec fn probed(v: index::IndexView, fr: vault::FileRefView) -> Option<Seq<char>> {
    if is_abbreviated(fr.path) || fr.is_bare_filename {
        None
    } else {
        Some(from_root(v, fr.path))
    }
}

/// The file can be meant by a path that ends as `p` does.
pub open spec fn ends_as(p: Seq<char>) -> spec_fn(Seq<char>) -> bool {
    |full: Seq<char>| paths::is_tail_of(p, full)
}

/// The files of a name that were not deleted.
pub open spec fn named(v: index::IndexView, name: Seq<char>) -> Seq<Seq<char>> {
    v.file_lookup.at(name).filter(present(v))
}

/// The files named as the last component of `p`.
pub open spec fn namesakes(v: index::IndexView, p: Seq<char>) -> Seq<Seq<char>> {
    match paths::file_name_of(p) {
        Some(name) => if v.file_lookup.has(name) {
            named(v, name)
        } else {
            Seq::empty()
        },
        None => Seq::empty(),
    }
}

/// The files that a reference means, where `disk` holds the paths that exist: an abbreviated path
/// means what agrees with it; a bare file name means every file so named; any other path means the
/// file at that place under the root, or else the files whose paths end in it. A file that was
/// deleted is found by none of its names.
pub open spec fn resolved(
    v: index::IndexView,
    fr: vault::FileRefView,
    disk: Set<Seq<char>>,
) -> Seq<Seq<char>> {
    if is_abbreviated(fr.path) {
        abbreviated(v, fr.path)
    } else if fr.is_bare_filename {
        if v.file_lookup.has(fr.path) {
            named(v, fr.path)
        } else {
            namesakes(v, fr.path)
        }
    } else if disk.contains(from_root(v, fr.path)) {
        seq![from_root(v, fr.path)]
    } else {
        namesakes(v, fr.path).filter(ends_as(fr.path))
    }
}

pub proof fn lemma_mark_len()
    ensures
        ellipsis().len() == 3,
{
    reveal_strlit("...");
}

pub proof fn lemma_sole_mark_unique(p: Seq<char>, i: int, j: int)
    requires
        sole_mark(p, i),
        sole_mark(p, j),
    ensures
        i == j,
{
    if i < j {
        assert(text::occurs_at(p, ellipsis(), i));
    }
    if j < i {
        assert(text::occurs_at(p, ellipsis(), j));
    }
}

/// The part of `p` before position `i`, without separators at its end.
fn before_mark(p: &str, c: &Vec<char>, i: usize) -> (r: String)
    requires
        c@ == p@,
        i <= c@.len(),
    ensures
        r@ == trim_end(p@.take(i as int)),
{
    let mut n: usize = i;
    while n > 0 && c[n - 1] == '/'
        invariant
            c@ == p@,
            n <= i <= c@.len(),
            trim_end(p@.take(i as int)) == trim_end(p@.take(n as int)),
        decreases n,
    {
        assert(p@.take(n as int).last() == p@[n - 1]);
        assert(p@.take(n as int).drop_last() =~= p@.take(n - 1));
        n = n - 1;
    }
    assert(n > 0 ==> p@.take(n as int).last() == p@[n - 1]);
    assert(p@.subrange(0, n as int) =~= p@.take(n as int));
    p.substring_char(0, n).to_string()
}

/// The part of `p` from position `i` on, without separators at its beginning.
fn behind_mark(p: &str, c: &Vec<char>, i: usize) -> (r: String)
    requires
        c@ == p@,
        i <= c@.len(),
    ensures
        r@ == trim_start(p@.skip(i as int)),
{
    let mut n: usize = i;
    while n < c.len() && c[n] == '/'
        invariant
            c@ == p@,
            i <= n <= c@.len(),
            trim_start(p@.skip(i as int)) == trim_start(p@.skip(n as int)),
        decreases c@.len() - n,
    {
        assert(p@.skip(n as int)[0] == p@[n as int]);
        assert(p@.skip(n as int).skip(1) =~= p@.skip(n + 1));
        n = n + 1;
    }
    assert(n < p@.len() ==> p@.skip(n as int)[0] == p@[n as int]);
    assert(p@.subrange(n as int, p@.len() as int) =~= p@.skip(n as int));
    p.substring_char(n, c.len()).to_string()
}

impl Index {
    /// The files that were not deleted.
    fn keep_present(&self, files: &Vec<String>) -> (r: Vec<String>)
        requires
            self.wf(),
        ensures
            r.deep_view() == files.deep_view().filter(present(self@)),
    {
        let ghost all = files.deep_view();
        let mut out: Vec<String> = Vec::new();
        let n: usize = files.len();
        assert(out.deep_view() =~= all.take(0).filter(present(self@))) by {
            reveal(Seq::filter);
        }
        for i in 0..n
            invariant
                self.wf(),
                n == files@.len(),
                all == files.deep_view(),
                out.deep_view() == all.take(i as int).filter(present(self@)),
        {
            let ghost before = out.deep_view();
            proof {
                assert(all[i as int] == files@[i as int]@);
                gather::lemma_filter_step(all, present(self@), i as int);
            }
            if self.removed.get(&files[i]).is_none() {
                out.push(files[i].clone());
                assert(out.deep_view() =~= before.push(all[i as int]));
            }
        }
        assert(all.take(n as int) =~= all);
        out
    }

    /// Resolve an abbreviated path, in which `...` stands for directories left out.
    ///
    /// For example `reporting/src/main/.../config/Properties.java` means every file whose path
    /// below the root begins and ends that way, name by name.
    fn resolve_abbreviated_path(&self, path: &str) -> (r: Vec<String>)
        requires
            self.wf(),
        ensures
            r.deep_view() == abbreviated(self@, path@),
    {
        let c = text::chars_of(path);
        let mark = text::chars_of("...");
        let mut out: Vec<String> = Vec::new();
        proof {
            lemma_mark_len();
        }
        let at: usize = match text::find_from(&c, &mark, 0) {
            Some(at) => at,
            None => {
                assert(!exists|i: int| sole_mark(path@, i));
                assert(out.deep_view() =~= Seq::<Seq<char>>::empty());
                return out;
            },
        };
        assert(at + 3 <= c.len());
        match text::find_from(&c, &mark, at + 3) {
            Some(again) => {
                assert(!exists|i: int| sole_mark(path@, i)) by {
                    if exists|i: int| sole_mark(path@, i) {
                        let i = choose|i: int| sole_mark(path@, i);
                        assert(text::occurs_at(path@, ellipsis(), at as int));
                        assert(i == at) by {
                            if i < at {
                                assert(text::occurs_at(path@, ellipsis(), i));
                            }
                        }
                        assert(text::occurs_at(path@, ellipsis(), again as int));
                    }
                }
                assert(out.deep_view() =~= Seq::<Seq<char>>::empty());
                return out;
            },
            None => {},
        }
        proof {
            assert(sole_mark(path@, at as int));
            lemma_sole_mark_unique(path@, at as int, choose|i: int| sole_mark(path@, i));
            self.file_lookup.lemma_listing();
        }
        let prefix = before_mark(path, &c, at);
        let suffix = behind_mark(path, &c, at + 3);
        let ghost agrees = framed(self@, prefix@, suffix@);
        let ghost l = self@.file_lookup;
        let n: usize = self.file_lookup.len();
        assert(l.order.take(0) =~= Seq::<Seq<char>>::empty());
        reveal(Seq::filter);
        assert(out.deep_view() =~= Seq::<Seq<char>>::empty());
        for i in 0..n
            invariant
                self.wf(),
                l == self@.file_lookup,
                n == l.order.len(),
                agrees == framed(self@, prefix@, suffix@),
                out.deep_view() == gather::gather(l.order.take(i as int), files_named(l)).filter(agrees),
        {
            let ghost head = gather::gather(l.order.take(i as int), files_named(l));
            let files = self.file_lookup.value_at(i);
            let ghost more = l.at(l.order[i as int]);
            let m: usize = files.len();
            assert(head + more.take(0) =~= head);
            for j in 0..m
                invariant
                    self.wf(),
                    m == files@.len(),
                    files.deep_view() == more,
                    agrees == framed(self@, prefix@, suffix@),
                    out.deep_view() == (head + more.take(j as int)).filter(agrees),
            {
                let ghost before = out.deep_view();
                let full = &files[j];
                assert(more[j as int] == full@);
                proof {
                    reveal(Seq::filter);
                    assert((head + more.take(j + 1)).drop_last() =~= head + more.take(j as int));
                    assert((head + more.take(j + 1)).last() == full@);
                }
                if self.removed.get(full).is_none() && paths::frames(
                    full.as_str(),
                    self.root.as_str(),
                    prefix.as_str(),
                    suffix.as_str(),
                ) {
                    out.push(full.clone());
                    assert(out.deep_view() =~= before.push(full@));
                }
            }
            proof {
                assert(more.take(m as int) =~= more);
                gather::lemma_gather_step(l.order, files_named(l), i as int);
            }
        }
        assert(l.order.take(n as int) =~= l.order);
        out
    }

    /// The files named as the last component of `path`.
    fn same_named(&self, path: &str) -> (r: Vec<String>)
        requires
            self.wf(),
        ensures
            r.deep_view() == namesakes(self@, path@),
    {
        match paths::file_name(path) {
            Some(name) => match self.file_lookup.get(&name) {
                Some(found) => self.keep_present(found),
                None => {
                    let r: Vec<String> = Vec::new();
                    assert(r.deep_view() =~= Seq::<Seq<char>>::empty());
                    r
                },
            },
            None => {
                let r: Vec<String> = Vec::new();
                assert(r.deep_view() =~= Seq::<Seq<char>>::empty());
                r
            },
        }
    }

    /// The path whose presence on disk decides what the reference means, where one does.
    pub fn probe(&self, file_ref: &FileRef) -> (r: Option<String>)
        requires
            self.wf(),
        ensures
            r.deep_view() == probed(self@, file_ref.deep_view()),
    {
        let path = file_ref.path.as_str();
        if text::contains_text(path, "/...") || text::contains_text(path, ".../") {
            return None;
        }
        if file_ref.is_bare_filename {
            return None;
        }
        Some(paths::normalize(paths::join(self.root.as_str(), path).as_str()))
    }

    /// Resolve a file reference to the paths it means. Handles relative paths, bare file names and
    /// abbreviated `...` paths. `disk` holds the paths that exist.
    pub fn resolve_file_ref(&self, file_ref: &FileRef, disk: &Disk) -> (r: Vec<String>)
        requires
            self.wf(),
            disk.wf(),
        ensures
            r.deep_view() == resolved(self@, file_ref.deep_view(), disk@),
    {
        let path = file_ref.path.as_str();
        // Paths that leave directories out, such as `src/main/.../config/Foo.java`.
        if text::contains_text(path, "/...") || text::contains_text(path, ".../") {
            return self.resolve_abbreviated_path(path);
        }
        if file_ref.is_bare_filename {
            // A bare name such as `CertificateInfo.java` is searched in the lookup table.
            if let Some(found) = self.file_lookup.get(&file_ref.path) {
                return self.keep_present(found);
            }
            // Only its last component counts where it has a shallow prefix.
            return self.same_named(path);
        }
        let abs = paths::normalize(paths::join(self.root.as_str(), path).as_str());
        if disk.has(&abs) {
            let mut r: Vec<String> = Vec::new();
            r.push(abs);
            assert(r.deep_view() =~= seq![from_root(self@, path@)]);
            return r;
        }
        // The path may be partial, such as `dto/ListenerInfo.java`. It always ends in the file
        // name, so the search starts from the files of that name.
        let candidates = self.same_named(path);
        let ghost all = candidates.deep_view();
        let n: usize = candidates.len();
        let mut out: Vec<String> = Vec::new();
        assert(out.deep_view() =~= all.take(0).filter(ends_as(path@))) by {
            reveal(Seq::filter);
        }
        for i in 0..n
            invariant
                n == candidates@.len(),
                all == candidates.deep_view(),
                out.deep_view() == all.take(i as int).filter(ends_as(path@)),
        {
            let ghost before = out.deep_view();
            assert(all[i as int] == candidates@[i as int]@);
            proof {
                gather::lemma_filter_step(all, ends_as(path@), i as int);
            }
            if vault::ref_matches_path(path, candidates[i].as_str()) {
                out.push(candidates[i].clone());
                assert(out.deep_view() =~= before.push(all[i as int]));
            }
        }
        assert(all.take(n as int) =~= all);
        out
    }
}

/// An abbreviated path means files that agree with it name by name, so that `src/.../session.rs`
/// does not stand for `src/auth/mysession.rs`.
pub proof fn law_abbreviated_means_whole_names(
    v: index::IndexView,
    p: Seq<char>,
    i: int,
    found: Seq<char>,
)
    requires
        sole_mark(p, i),
    ensures
        abbreviated(v, p).contains(found) <==> listed_files(v.file_lookup).contains(found)
            && !v.removed.contains(found) && paths::is_framed(found, v.root, trim_end(p.take(i)), trim_start(p.skip(i + 3))),
{
    lemma_sole_mark_unique(p, i, choose|i: int| sole_mark(p, i));
    gather::lemma_filter_contains(
        listed_files(v.file_lookup),
        framed(v, trim_end(p.take(i)), trim_start(p.skip(i + 3))),
        found,
    );
}

/// A path with directories means the file at that place, or files that end in it name by name, so
/// that `auth.rs` does not stand for `oauth.rs`.
pub proof fn law_path_means_whole_names(
    v: index::IndexView,
    fr: vault::FileRefView,
    disk: Set<Seq<char>>,
    found: Seq<char>,
)
    requires
        !is_abbreviated(fr.path),
        !fr.is_bare_filename,
        resolved(v, fr, disk).contains(found),
    ensures
        found == from_root(v, fr.path) || paths::is_tail_of(fr.path, found),
{
    gather::lemma_filter_contains(namesakes(v, fr.path), ends_as(fr.path), found);
}

} // verus!
