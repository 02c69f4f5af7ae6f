//! What the text of a path says of its components, its name and its place.
use crate::paths;
use vstd::prelude::*;

verus! {

/// The components that a path adds when it is written behind another.
pub open spec fn added(s: Seq<char>) -> Seq<Seq<char>> {
    let c = paths::components(s);
    if c.len() > 0 && (c[0] == seq!['/'] || c[0] == seq!['.']) {
        c.skip(1)
    } else {
        c
    }
}

proof fn lemma_added(s: Seq<char>)
    ensures
        added(s) == paths::parts(s),
{
    paths::lemma_slash_bound(s);
    paths::lemma_parts_are_parts(s);
    let p = paths::parts(s);
    let c = paths::components(s);
    if paths::lead(s).len() == 0 {
        assert(c =~= p);
        if p.len() > 0 {
            assert(paths::is_part(p[0]));
            if p[0] == seq!['/'] {
                assert(p[0][0] == '/');
            }
        }
    } else {
        assert(c.skip(1) =~= p);
    }
}

proof fn lemma_parts_of_two(a: Seq<char>, b: Seq<char>)
    ensures
        paths::parts(a + seq!['/'] + b) == paths::parts(a) + paths::parts(b),
    decreases a.len(),
{
    let s = a + seq!['/'] + b;
    paths::lemma_slash_bound(a);
    let i = paths::first_slash(a) as int;
    assert forall|j: int| 0 <= j < i implies s[j] != '/' by {
        assert(s[j] == a[j]);
    }
    if i < a.len() {
        assert(s[i] == a[i]);
    }
    paths::lemma_first_slash(s, i);
    assert(s.take(i) =~= a.take(i));
    if i < a.len() {
        assert(s.skip(i + 1) =~= a.skip(i + 1) + seq!['/'] + b);
        lemma_parts_of_two(a.skip(i + 1), b);
        assert(paths::parts(s) =~= paths::parts(a) + paths::parts(b));
    } else {
        assert(a.take(i) =~= a);
        assert(s.skip(i + 1) =~= b);
    }
}

/// A path without a separator has one component, the text itself; the empty path has none.
pub proof fn law_name_is_one_component(name: Seq<char>)
    requires
        forall|j: int| 0 <= j < name.len() ==> name[j] != '/',
    ensures
        name.len() > 0 ==> paths::components(name) == seq![name],
        name.len() == 0 ==> paths::components(name).len() == 0,
{
    paths::lemma_first_slash(name, name.len() as int);
    assert(name.take(name.len() as int) =~= name);
    if name == paths::here_part() {
        assert(paths::components(name) =~= seq![name]);
    } else {
        assert(paths::components(name) =~= paths::parts(name));
    }
}

/// Two paths with a separator between them have the components of the first, then those that the
/// second adds: all but the root or the current directory that it may begin with. So a separator
/// too many changes nothing.
pub proof fn law_components_of_two(a: Seq<char>, b: Seq<char>)
    requires
        a.len() > 0,
    ensures
        paths::components(a + seq!['/'] + b) == paths::components(a) + added(b),
{
    let s = a + seq!['/'] + b;
    lemma_parts_of_two(a, b);
    lemma_added(b);
    paths::lemma_slash_bound(a);
    let i = paths::first_slash(a) as int;
    assert forall|j: int| 0 <= j < i implies s[j] != '/' by {
        assert(s[j] == a[j]);
    }
    if i < a.len() {
        assert(s[i] == a[i]);
    }
    paths::lemma_first_slash(s, i);
    assert(s.take(i) =~= a.take(i));
    assert(s[0] == a[0]);
    assert(paths::lead(s) == paths::lead(a));
    assert(paths::components(s) =~= paths::components(a) + added(b));
}

/// A path with a separator in front is absolute: its first component is the root.
pub proof fn law_components_from_root(s: Seq<char>)
    ensures
        paths::components(seq!['/'] + s) == seq![seq!['/']] + added(s),
{
    let t = seq!['/'] + s;
    lemma_added(s);
    assert(t[0] == '/');
    paths::lemma_first_slash(t, 0);
    assert(t.take(0).len() == 0);
    assert(t.skip(1) =~= s);
    assert(paths::parts(t) =~= paths::parts(s));
    assert(paths::components(t) =~= seq![seq!['/']] + added(s));
}

/// A path seen from a directory is that path below the directory, unless it is absolute.
pub proof fn law_join_goes_below(base: Seq<char>, s: Seq<char>)
    ensures
        s.len() > 0 && s[0] == '/' ==> paths::path_join(base, s) == s,
        base.len() == 0 ==> paths::components(paths::path_join(base, s)) == paths::components(s),
        base.len() > 0 && !(s.len() > 0 && s[0] == '/') ==> paths::components(paths::path_join(base, s))
            == paths::components(base) + added(s),
{
    if base.len() == 0 {
        assert(base + s =~= s);
    } else if !(s.len() > 0 && s[0] == '/') {
        if base.last() == '/' {
            let a = base.drop_last();
            assert(base + s =~= a + seq!['/'] + s);
            assert(base =~= a + seq!['/'] + Seq::<char>::empty());
            lemma_added(Seq::empty());
            paths::lemma_first_slash(Seq::empty(), 0);
            assert(added(Seq::empty()) =~= Seq::empty());
            if a.len() == 0 {
                assert(a + seq!['/'] + s =~= seq!['/'] + s);
                assert(base =~= seq!['/'] + Seq::<char>::empty());
                law_components_from_root(s);
                law_components_from_root(Seq::empty());
                assert(paths::components(base) =~= seq![seq!['/']]);
            } else {
                law_components_of_two(a, s);
                law_components_of_two(a, Seq::empty());
                assert(paths::components(base) =~= paths::components(a));
            }
        } else {
            law_components_of_two(base, s);
        }
    }
}

/// The name of the file that a path leads to is its last component, which is neither the root nor
/// the current or the parent directory.
pub proof fn law_file_name_is_last(s: Seq<char>, name: Seq<char>)
    ensures
        paths::file_name_of(s) == Some(name) <==> (exists|dir: Seq<Seq<char>>|
            paths::components(s) == #[trigger] dir.push(name)) && name != seq!['/'] && name != seq!['.']
            && name != seq!['.', '.'],
{
    let c = paths::components(s);
    if c.len() > 0 {
        assert(c =~= c.drop_last().push(c.last()));
    }
    assert forall|dir: Seq<Seq<char>>| c == #[trigger] dir.push(name) implies c.last() == name by {
        assert(dir.push(name).last() == name);
    }
}

proof fn lemma_last_dot(s: Seq<char>)
    ensures
        -1 <= paths::last_dot(s) < s.len(),
        paths::last_dot(s) >= 0 ==> s[paths::last_dot(s)] == '.',
        forall|j: int| paths::last_dot(s) < j < s.len() ==> s[j] != '.',
    decreases s.len(),
{
    if s.len() > 0 && s.last() != '.' {
        lemma_last_dot(s.drop_last());
        assert forall|j: int| paths::last_dot(s) < j < s.len() implies s[j] != '.' by {
            if j < s.len() - 1 {
                assert(s.drop_last()[j] == s[j]);
            }
        }
    }
}

/// `name` is `stem`, a dot and `ext`, which has no dot, and `stem` is not empty.
pub open spec fn splits_as(name: Seq<char>, stem: Seq<char>, ext: Seq<char>) -> bool {
    &&& stem.len() > 0
    &&& forall|j: int| 0 <= j < ext.len() ==> ext[j] != '.'
    &&& name == stem + seq!['.'] + ext
}

/// The name of a file is its stem, a dot and its extension, where it has one: the extension has no
/// dot, and the stem is not empty. Without an extension the stem is the whole name.
pub proof fn law_name_is_stem_and_extension(s: Seq<char>, stem: Seq<char>, ext: Seq<char>)
    ensures
        paths::file_name_of(s) is None ==> paths::extension_of(s) is None && paths::stem_of(s) is None,
        paths::file_name_of(s) matches Some(name) ==> {
            &&& splits_as(name, stem, ext) <==> paths::extension_of(s) == Some(ext) && paths::stem_of(s) == Some(
                stem,
            )
            &&& paths::extension_of(s) is None ==> paths::stem_of(s) == Some(name) && !splits_as(name, stem, ext)
        },
{
    if let Some(name) = paths::file_name_of(s) {
        lemma_last_dot(name);
        let d = paths::last_dot(name);
        if splits_as(name, stem, ext) {
            assert(name[stem.len() as int] == '.');
            assert forall|j: int| stem.len() < j < name.len() implies name[j] != '.' by {
                assert(name[j] == ext[j - stem.len() - 1]);
            }
            assert(d == stem.len());
            assert(name.take(d) =~= stem);
            assert(name.skip(d + 1) =~= ext);
        }
        if d > 0 {
            assert(name =~= name.take(d) + seq!['.'] + name.skip(d + 1));
            let end = name.skip(d + 1);
            assert forall|j: int| 0 <= j < end.len() implies end[j] != '.' by {
                assert(end[j] == name[d + 1 + j]);
            }
        }
    }
}

/// A path ends in another when its components are some components followed by those of the other.
pub proof fn law_tail_is_an_ending(s: Seq<char>, full: Seq<char>)
    ensures
        paths::is_tail_of(s, full) <==> exists|head: Seq<Seq<char>>|
            paths::components(full) == #[trigger] (head + paths::components(s)),
{
    let a = paths::components(s);
    let b = paths::components(full);
    if paths::is_tail_of(s, full) {
        let head = b.take(b.len() - a.len());
        assert(b =~= head + a);
    }
    assert forall|head: Seq<Seq<char>>| b == #[trigger] (head + a) implies a.is_suffix_of(b) by {
        assert(b.subrange(b.len() - a.len(), b.len() as int) =~= a);
    }
}

/// A path lies under another when its components are those of the other followed by some.
pub proof fn law_under_is_a_beginning(s: Seq<char>, base: Seq<char>)
    ensures
        paths::lies_under(s, base) <==> exists|rest: Seq<Seq<char>>|
            paths::components(s) == #[trigger] (paths::components(base) + rest),
{
    let a = paths::components(base);
    let b = paths::components(s);
    if paths::lies_under(s, base) {
        let rest = b.skip(a.len() as int);
        assert(b =~= a + rest);
    }
    assert forall|rest: Seq<Seq<char>>| b == #[trigger] (a + rest) implies a.is_prefix_of(b) by {
        assert(b.subrange(0, a.len() as int) =~= a);
    }
}

/// A path is framed by a beginning and an ending below a directory when any number of components,
/// or none, stand between the two.
pub proof fn law_framed_leaves_any_middle(s: Seq<char>, base: Seq<char>, prefix: Seq<char>, suffix: Seq<char>)
    ensures
        paths::is_framed(s, base, prefix, suffix) <==> exists|mid: Seq<Seq<char>>|
            paths::components(s) == #[trigger] (paths::components(base) + paths::components(prefix) + mid
                + paths::components(suffix)),
{
    let b = paths::components(base);
    let p = paths::components(prefix);
    let q = paths::components(suffix);
    let c = paths::components(s);
    let rest = c.skip(b.len() as int);
    if paths::is_framed(s, base, prefix, suffix) {
        let mid = rest.subrange(p.len() as int, rest.len() - q.len());
        assert(c =~= b + rest);
        assert(rest =~= p + mid + q);
        assert(c =~= b + p + mid + q);
    }
    assert forall|mid: Seq<Seq<char>>| c == #[trigger] (b + p + mid + q) implies paths::is_framed(
        s,
        base,
        prefix,
        suffix,
    ) by {
        assert(c.subrange(0, b.len() as int) =~= b);
        assert(rest =~= p + mid + q);
        assert(rest.subrange(0, p.len() as int) =~= p);
        assert(rest.subrange(rest.len() - q.len(), rest.len() as int) =~= q);
    }
}

} // verus!
