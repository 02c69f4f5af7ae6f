//! Which files a reference means, said of the components of their paths.
use crate::gather;
use crate::index;
use crate::laws;
use crate::paths;
use crate::resolve;
use crate::spelling;
use crate::table;
use crate::text;
use crate::vault;
use vstd::prelude::*;

verus! {

/// The file is listed under some name, and was not deleted.
pub open spec fn is_there(v: index::IndexView, file: Seq<char>) -> bool {
    !v.removed.contains(file) && exists|name: Seq<char>| #[trigger]
        v.file_lookup.entries.contains_key(name) && v.file_lookup.entries[name].contains(file)
}

/// Three dots stand in a row in `s`.
pub open spec fn has_dots(s: Seq<char>) -> bool {
    exists|k: int| dots_at(s, k)
}

/// Three dots stand in a row at `k`.
pub open spec fn dots_at(s: Seq<char>, k: int) -> bool {
    0 <= k && k + 3 <= s.len() && s[k] == '.' && s[k + 1] == '.' && s[k + 2] == '.'
}

/// The file lies below the root, and between the components of `prefix`, which come first there, and
/// those of `suffix`, which come last, stand any others.
pub open spec fn lies_between(
    v: index::IndexView,
    prefix: Seq<char>,
    suffix: Seq<char>,
    file: Seq<char>,
) -> bool {
    exists|mid: Seq<Seq<char>>|
        paths::components(file) == #[trigger] (paths::components(v.root) + paths::components(prefix) + mid
            + paths::components(suffix))
}

pub proof fn lemma_listed(l: table::Listing<Seq<char>, Seq<Seq<char>>>, file: Seq<char>)
    requires
        l.wf(),
    ensures
        resolve::listed_files(l).contains(file) <==> exists|name: Seq<char>| #[trigger]
            l.entries.contains_key(name) && l.entries[name].contains(file),
{
    let f = resolve::files_named(l);
    gather::lemma_gather_source(l.order, f, file);
    if resolve::listed_files(l).contains(file) {
        let i = choose|i: int| 0 <= i < l.order.len() && f(#[trigger] l.order[i]).contains(file);
        assert(l.order.contains(l.order[i]));
        assert(l.entries.contains_key(l.order[i]));
    }
    assert forall|name: Seq<char>| #[trigger]
        l.entries.contains_key(name) && l.entries[name].contains(file) implies resolve::listed_files(
        l,
    ).contains(file) by {
        assert(l.order.contains(name));
        let i = l.order.index_of(name);
        assert(f(l.order[i]).contains(file));
    }
}

proof fn lemma_dots(s: Seq<char>, k: int)
    ensures
        text::occurs_at(s, resolve::ellipsis(), k) <==> dots_at(s, k),
{
    reveal_strlit("...");
    let e = resolve::ellipsis();
    if text::occurs_at(s, e, k) {
        let part = s.subrange(k, k + 3);
        assert(part == e);
        assert(part[0] == s[k] && part[1] == s[k + 1] && part[2] == s[k + 2]);
    }
    if dots_at(s, k) {
        assert(s.subrange(k, k + 3) =~= e);
    }
}

/// What a path with the mark between `a` and `b` means.
proof fn lemma_abbreviated(v: index::IndexView, a: Seq<char>, b: Seq<char>, found: Seq<char>)
    requires
        v.file_lookup.wf(),
        !has_dots(a),
        a.len() > 0 ==> a.last() != '.',
        !has_dots(b),
    ensures
        resolve::abbreviated(v, a + "..."@ + b).contains(found) <==> is_there(v, found) && lies_between(
            v,
            resolve::trim_end(a),
            resolve::trim_start(b),
            found,
        ),
{
    reveal_strlit("...");
    let p = a + "..."@ + b;
    let i = a.len() as int;
    lemma_dots(p, i);
    assert(dots_at(p, i));
    assert forall|k: int| 0 <= k < i implies !text::occurs_at(p, resolve::ellipsis(), k) by {
        lemma_dots(p, k);
        if dots_at(p, k) {
            if k + 3 <= i {
                assert(p[k] == a[k] && p[k + 1] == a[k + 1] && p[k + 2] == a[k + 2]);
                assert(dots_at(a, k));
            } else {
                assert(p[i - 1] == a.last());
                assert(i - 1 == k || i - 1 == k + 1);
            }
        }
    }
    assert forall|k: int| i + 3 <= k implies !text::occurs_at(p, resolve::ellipsis(), k) by {
        lemma_dots(p, k);
        if dots_at(p, k) {
            assert(p[k] == b[k - i - 3] && p[k + 1] == b[k - i - 2] && p[k + 2] == b[k - i - 1]);
            assert(dots_at(b, k - i - 3));
        }
    }
    assert(resolve::sole_mark(p, i));
    assert(p.take(i) =~= a);
    assert(p.skip(i + 3) =~= b);
    resolve::law_abbreviated_means_whole_names(v, p, i, found);
    lemma_listed(v.file_lookup, found);
    spelling::law_framed_leaves_any_middle(found, v.root, resolve::trim_end(a), resolve::trim_start(b));
}

proof fn lemma_trims(s: Seq<char>)
    ensures
        s.len() == 0 || s.last() != '/' ==> resolve::trim_end(s) == s && resolve::trim_end(s + seq!['/']) == s,
        s.len() == 0 || s[0] != '/' ==> resolve::trim_start(s) == s && resolve::trim_start(seq!['/'] + s) == s,
{
    assert((s + seq!['/']).drop_last() =~= s);
    assert((seq!['/'] + s).skip(1) =~= s);
    reveal_with_fuel(resolve::trim_end, 2);
    reveal_with_fuel(resolve::trim_start, 2);
}

proof fn lemma_mark_is_seen(a: Seq<char>, b: Seq<char>)
    ensures
        a.len() > 0 && a.last() == '/' ==> resolve::is_abbreviated(a + "..."@ + b),
        b.len() > 0 && b[0] == '/' ==> resolve::is_abbreviated(a + "..."@ + b),
{
    reveal_strlit("...");
    reveal_strlit("/...");
    reveal_strlit(".../");
    let p = a + "..."@ + b;
    if a.len() > 0 && a.last() == '/' {
        assert(p[a.len() - 1] == a.last());
        assert(p.subrange(a.len() - 1, a.len() as int + 3) =~= "/..."@);
        assert(text::occurs_at(p, "/..."@, a.len() - 1));
    }
    if b.len() > 0 && b[0] == '/' {
        let i = a.len() as int;
        assert(p[i + 3] == b[0]);
        assert(p.subrange(i, i + 4) =~= ".../"@);
        assert(text::occurs_at(p, ".../"@, i));
    }
}

proof fn lemma_dots_and_slash(s: Seq<char>)
    requires
        !has_dots(s),
    ensures
        !has_dots(s + seq!['/']),
        !has_dots(seq!['/'] + s),
{
    let e = s + seq!['/'];
    let f = seq!['/'] + s;
    assert forall|k: int| !dots_at(e, k) by {
        if dots_at(e, k) {
            assert(e[s.len() as int] == '/');
            assert(k + 3 <= s.len());
            assert(dots_at(s, k));
        }
    }
    assert forall|k: int| !dots_at(f, k) by {
        if dots_at(f, k) {
            assert(f[0] == '/');
            assert(k > 0);
            assert(f[k] == s[k - 1] && f[k + 1] == s[k] && f[k + 2] == s[k + 1]);
            assert(dots_at(s, k - 1));
        }
    }
}

/// `prefix/.../suffix` means every file that is there whose path below the root begins with the
/// components of the prefix and ends in those of the suffix, with any number of directories between
/// them; `.../suffix` and `prefix/...` leave one of the two open.
pub proof fn law_abbreviated_finds_any_depth(
    v: index::IndexView,
    fr: vault::FileRefView,
    disk: Set<Seq<char>>,
    prefix: Seq<char>,
    suffix: Seq<char>,
    found: Seq<char>,
)
    requires
        v.file_lookup.wf(),
        !has_dots(prefix),
        !has_dots(suffix),
        prefix.len() > 0 ==> prefix.last() != '/',
        suffix.len() > 0 ==> suffix[0] != '/',
    ensures
        fr.path == prefix + "/.../"@ + suffix ==> (resolve::resolved(v, fr, disk).contains(found) <==> is_there(
            v,
            found,
        ) && lies_between(v, prefix, suffix, found)),
        fr.path == ".../"@ + suffix ==> (resolve::resolved(v, fr, disk).contains(found) <==> is_there(v, found)
            && lies_between(v, Seq::empty(), suffix, found)),
        fr.path == prefix + "/..."@ ==> (resolve::resolved(v, fr, disk).contains(found) <==> is_there(v, found)
            && lies_between(v, prefix, Seq::empty(), found)),
{
    reveal_strlit("...");
    reveal_strlit("/...");
    reveal_strlit(".../");
    reveal_strlit("/.../");
    let none = Seq::<char>::empty();
    let a = prefix + seq!['/'];
    let b = seq!['/'] + suffix;
    lemma_trims(prefix);
    lemma_trims(suffix);
    lemma_trims(none);
    lemma_dots_and_slash(prefix);
    lemma_dots_and_slash(suffix);
    assert(!has_dots(none));
    assert(a.last() == '/');
    assert(b[0] == '/');
    assert(prefix + "/.../"@ + suffix =~= a + "..."@ + b);
    assert(".../"@ + suffix =~= none + "..."@ + b);
    assert(prefix + "/..."@ =~= a + "..."@ + none);
    lemma_mark_is_seen(a, b);
    lemma_mark_is_seen(none, b);
    lemma_mark_is_seen(a, none);
    lemma_abbreviated(v, a, b, found);
    lemma_abbreviated(v, none, b, found);
    lemma_abbreviated(v, a, none, found);
}

/// A path with the mark in two places means nothing.
pub proof fn law_two_marks_mean_nothing(
    v: index::IndexView,
    fr: vault::FileRefView,
    disk: Set<Seq<char>>,
    i: int,
    j: int,
)
    requires
        dots_at(fr.path, i),
        dots_at(fr.path, j),
        i + 3 <= j,
        (i > 0 && fr.path[i - 1] == '/') || fr.path[i + 3] == '/',
    ensures
        resolve::resolved(v, fr, disk).len() == 0,
{
    let p = fr.path;
    let a = p.take(i);
    let b = p.skip(i + 3);
    reveal_strlit("...");
    assert(p =~= a + "..."@ + b);
    lemma_mark_is_seen(a, b);
    assert forall|k: int| !resolve::sole_mark(p, k) by {
        lemma_dots(p, i);
        lemma_dots(p, j);
        if resolve::sole_mark(p, k) {
            assert(!(0 <= i < k));
            assert(!(k + 3 <= j));
        }
    }
}

proof fn lemma_bare_is_whole(p: Seq<char>)
    requires
        forall|k: int| 0 <= k < p.len() ==> p[k] != '/',
    ensures
        !resolve::is_abbreviated(p),
{
    reveal_strlit("/...");
    reveal_strlit(".../");
    assert forall|k: int| !text::occurs_at(p, "/..."@, k) by {
        if text::occurs_at(p, "/..."@, k) {
            let part = p.subrange(k, k + 4);
            assert(part == "/..."@);
            assert(part[0] == p[k]);
        }
    }
    assert forall|k: int| !text::occurs_at(p, ".../"@, k) by {
        if text::occurs_at(p, ".../"@, k) {
            let part = p.subrange(k, k + 4);
            assert(part == ".../"@);
            assert(part[3] == p[k + 3]);
        }
    }
}

/// A bare file name means every file of that name that is there, in whatever directory, and no
/// other.
pub proof fn law_bare_name_means_all_so_named(
    v: index::IndexView,
    fr: vault::FileRefView,
    disk: Set<Seq<char>>,
    found: Seq<char>,
)
    requires
        laws::files_keyed(v.file_lookup),
        fr.is_bare_filename,
        forall|k: int| 0 <= k < fr.path.len() ==> fr.path[k] != '/',
    ensures
        resolve::resolved(v, fr, disk).contains(found) <==> is_there(v, found) && paths::file_name_of(found)
            == Some(fr.path),
{
    let l = v.file_lookup;
    lemma_bare_is_whole(fr.path);
    spelling::law_name_is_one_component(fr.path);
    if fr.path.len() > 0 {
        assert(paths::components(fr.path).last() == fr.path);
    }
    gather::lemma_filter_contains(l.at(fr.path), resolve::present(v), found);
    if l.has(fr.path) && l.at(fr.path).contains(found) {
        let i = l.at(fr.path).index_of(found);
        assert(paths::file_name_of(l.at(fr.path)[i]) == Some(fr.path));
    }
    if is_there(v, found) {
        let name = choose|name: Seq<char>| #[trigger]
            l.entries.contains_key(name) && l.entries[name].contains(found);
        assert(l.has(name));
        let i = l.at(name).index_of(found);
        assert(paths::file_name_of(l.at(name)[i]) == Some(name));
    }
}

/// The components of the place that a path means when it is taken from the directory `root`.
pub open spec fn place(root: Seq<char>, p: Seq<char>) -> Seq<Seq<char>> {
    if root.len() == 0 || (p.len() > 0 && p[0] == '/') {
        paths::components(p)
    } else {
        paths::components(root) + spelling::added(p)
    }
}

/// The file stands at the place that a path means when it is taken from the directory `root`.
pub open spec fn stands_at(root: Seq<char>, p: Seq<char>, file: Seq<char>) -> bool {
    paths::normal(file) == file && paths::components(file) == place(root, p)
}

/// One file stands at each place.
pub proof fn lemma_stands_at(root: Seq<char>, p: Seq<char>, file: Seq<char>)
    ensures
        stands_at(root, p, file) <==> file == paths::normal(paths::path_join(root, p)),
{
    let full = paths::path_join(root, p);
    spelling::law_join_goes_below(root, p);
    paths::law_normal_identifies_paths(file, full);
    paths::law_normal_identifies_paths(full, full);
    paths::law_normal_keeps_components(full);
}

/// Some file of the disk stands at the place that the path means.
pub open spec fn on_disk(v: index::IndexView, p: Seq<char>, disk: Set<Seq<char>>, file: Seq<char>) -> bool {
    disk.contains(file) && stands_at(v.root, p, file)
}

/// A path with directories means the file at that place below the root where the disk has one, and
/// that file alone. Otherwise it means every file that is there whose path ends in it, and no other.
pub proof fn law_path_means_its_place_or_ending(
    v: index::IndexView,
    fr: vault::FileRefView,
    disk: Set<Seq<char>>,
    found: Seq<char>,
)
    requires
        laws::files_keyed(v.file_lookup),
        !fr.is_bare_filename,
        !text::occurs_in("/..."@, fr.path),
        !text::occurs_in(".../"@, fr.path),
    ensures
        on_disk(v, fr.path, disk, found) ==> resolve::resolved(v, fr, disk) == seq![found],
        (forall|f: Seq<char>| !#[trigger] on_disk(v, fr.path, disk, f)) ==> (resolve::resolved(
            v,
            fr,
            disk,
        ).contains(found) <==> is_there(v, found) && paths::file_name_of(fr.path) is Some && exists|
            head: Seq<Seq<char>>,
        | paths::components(found) == #[trigger] (head + paths::components(fr.path))),
{
    let p = fr.path;
    let l = v.file_lookup;
    let at = resolve::from_root(v, p);
    lemma_stands_at(v.root, p, at);
    lemma_stands_at(v.root, p, found);
    if disk.contains(at) {
        assert(on_disk(v, p, disk, at));
    } else {
        spelling::law_tail_is_an_ending(p, found);
        gather::lemma_filter_contains(resolve::namesakes(v, p), resolve::ends_as(p), found);
        if let Some(name) = paths::file_name_of(p) {
            gather::lemma_filter_contains(l.at(name), resolve::present(v), found);
            assert(l.has(name) <==> l.entries.contains_key(name));
            if is_there(v, found) && paths::is_tail_of(p, found) {
                let other = choose|other: Seq<char>| #[trigger]
                    l.entries.contains_key(other) && l.entries[other].contains(found);
                assert(l.has(other));
                let i = l.at(other).index_of(found);
                assert(paths::file_name_of(l.at(other)[i]) == Some(other));
                let c = paths::components(found);
                let q = paths::components(p);
                assert(c.subrange(c.len() - q.len(), c.len() as int).last() == c.last());
                assert(other == name);
            }
        }
    }
}

/// Each file is listed once.
pub open spec fn lists_once(l: table::Listing<Seq<char>, Seq<Seq<char>>>) -> bool {
    forall|name: Seq<char>| #[trigger] l.entries.contains_key(name) ==> l.entries[name].no_duplicates()
}

proof fn lemma_listed_once(l: table::Listing<Seq<char>, Seq<Seq<char>>>, n: int)
    requires
        laws::files_keyed(l),
        lists_once(l),
        0 <= n <= l.order.len(),
    ensures
        gather::gather(l.order.take(n), resolve::files_named(l)).no_duplicates(),
    decreases n,
{
    let f = resolve::files_named(l);
    if n == 0 {
        assert(gather::gather(l.order.take(0), f) =~= Seq::empty());
    } else {
        lemma_listed_once(l, n - 1);
        gather::lemma_gather_step(l.order, f, n - 1);
        let before = gather::gather(l.order.take(n - 1), f);
        let name = l.order[n - 1];
        let own = l.at(name);
        assert(l.order.contains(name));
        assert(l.entries.contains_key(name));
        assert(l.has(name));
        assert forall|i: int, j: int| 0 <= i < before.len() && 0 <= j < own.len() implies before[i] != own[j] by {
            if before[i] == own[j] {
                assert(before.contains(before[i]));
                gather::lemma_gather_source(l.order.take(n - 1), f, before[i]);
                let a = choose|a: int|
                    0 <= a < l.order.take(n - 1).len() && f(#[trigger] l.order.take(n - 1)[a]).contains(before[i]);
                let other = l.order.take(n - 1)[a];
                assert(other == l.order[a]);
                assert(l.order.contains(other));
                assert(l.entries.contains_key(other));
                assert(l.has(other));
                let k = l.at(other).index_of(before[i]);
                assert(paths::file_name_of(l.at(other)[k]) == Some(other));
                assert(paths::file_name_of(l.at(name)[j]) == Some(name));
                assert(l.order[a] == l.order[n - 1]);
            }
        }
        let all = before + own;
        assert forall|i: int, j: int| 0 <= i < all.len() && 0 <= j < all.len() && i != j implies all[i]
            != all[j] by {
            if i < before.len() && j < before.len() {
                assert(all[i] == before[i] && all[j] == before[j]);
            } else if i >= before.len() && j >= before.len() {
                assert(all[i] == own[i - before.len()] && all[j] == own[j - before.len()]);
            }
        }
    }
}

/// Where each file is listed once, a reference means each file that it means once, so that it is
/// ambiguous only where it means two different files.
pub proof fn law_each_file_is_meant_once(v: index::IndexView, fr: vault::FileRefView, disk: Set<Seq<char>>)
    requires
        laws::files_keyed(v.file_lookup),
        lists_once(v.file_lookup),
    ensures
        resolve::resolved(v, fr, disk).no_duplicates(),
{
    let l = v.file_lookup;
    lemma_listed_once(l, l.order.len() as int);
    assert(l.order.take(l.order.len() as int) =~= l.order);
    if resolve::is_abbreviated(fr.path) {
        if exists|i: int| resolve::sole_mark(fr.path, i) {
            let i = choose|i: int| resolve::sole_mark(fr.path, i);
            laws::lemma_filter_no_duplicates(
                resolve::listed_files(l),
                resolve::framed(
                    v,
                    resolve::trim_end(fr.path.take(i)),
                    resolve::trim_start(fr.path.skip(i + 3)),
                ),
            );
        }
    } else {
        if l.has(fr.path) {
            assert(l.entries.contains_key(fr.path));
            laws::lemma_filter_no_duplicates(l.at(fr.path), resolve::present(v));
        }
        if let Some(name) = paths::file_name_of(fr.path) {
            if l.has(name) {
                assert(l.entries.contains_key(name));
                laws::lemma_filter_no_duplicates(l.at(name), resolve::present(v));
            }
        }
        laws::lemma_filter_no_duplicates(resolve::namesakes(v, fr.path), resolve::ends_as(fr.path));
    }
}

} // verus!
