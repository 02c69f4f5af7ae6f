//! Paths as texts whose components are parted by `/`.
//!
//! A path is compared by its components: repeated separators, a separator at the end and a `.`
//! that is not the first component play no part. [`normalize`] writes the components out again, so
//! two texts name the same path exactly when they normalise to the same text.
use crate::text;
use vstd::prelude::*;
use vstd::string::*;

verus! {

/// The component that stands for the root of an absolute path.
pub open spec fn root_part() -> Seq<char> {
    seq!['/']
}

/// The component that stands for the current directory.
pub open spec fn here_part() -> Seq<char> {
    seq!['.']
}

/// The component that stands for the parent directory.
pub open spec fn up_part() -> Seq<char> {
    seq!['.', '.']
}

/// The position of the first separator of `s`, or its length when it has none.
pub open spec fn first_slash(s: Seq<char>) -> nat
    decreases s.len(),
{
    if s.len() == 0 || s[0] == '/' {
        0
    } else {
        1 + first_slash(s.skip(1))
    }
}

/// A piece between separators, unless it is empty or the current directory.
pub open spec fn kept(piece: Seq<char>) -> Seq<Seq<char>> {
    if piece.len() == 0 || piece == here_part() {
        seq![]
    } else {
        seq![piece]
    }
}

/// The pieces of `s` between separators that count as components wherever they stand.
pub open spec fn parts(s: Seq<char>) -> Seq<Seq<char>>
    decreases s.len(),
{
    let i = first_slash(s);
    if i >= s.len() {
        kept(s)
    } else {
        kept(s.take(i as int)) + parts(s.skip(i as int + 1))
    }
}

/// The component that only the beginning of a path can have: the root, or the current directory.
pub open spec fn lead(s: Seq<char>) -> Seq<Seq<char>> {
    if s.len() > 0 && s[0] == '/' {
        seq![root_part()]
    } else if s.take(first_slash(s) as int) == here_part() {
        seq![here_part()]
    } else {
        seq![]
    }
}

/// The components of the path `s`.
pub open spec fn components(s: Seq<char>) -> Seq<Seq<char>> {
    lead(s) + parts(s)
}

/// Each component with a separator in front.
pub open spec fn trail(c: Seq<Seq<char>>) -> Seq<char>
    decreases c.len(),
{
    if c.len() == 0 {
        seq![]
    } else {
        seq!['/'] + c[0] + trail(c.skip(1))
    }
}

/// The components with separators between them.
pub open spec fn joined(c: Seq<Seq<char>>) -> Seq<char> {
    if c.len() == 0 {
        seq![]
    } else {
        c[0] + trail(c.skip(1))
    }
}

/// The components written out as a path.
pub open spec fn written(c: Seq<Seq<char>>) -> Seq<char> {
    if c.len() > 0 && c[0] == root_part() {
        seq!['/'] + joined(c.skip(1))
    } else {
        joined(c)
    }
}

/// The path `s`, written out from its components.
pub open spec fn normal(s: Seq<char>) -> Seq<char> {
    written(components(s))
}

/// A component that names a file or directory.
pub open spec fn is_name(part: Seq<char>) -> bool {
    part != root_part() && part != here_part() && part != up_part()
}

/// The name of the file that the path `s` leads to.
pub open spec fn file_name_of(s: Seq<char>) -> Option<Seq<char>> {
    let c = components(s);
    if c.len() > 0 && is_name(c.last()) {
        Some(c.last())
    } else {
        None
    }
}

/// The position of the last dot of `s`, or -1 when it has none.
pub open spec fn last_dot(s: Seq<char>) -> int
    decreases s.len(),
{
    if s.len() == 0 {
        -1
    } else if s.last() == '.' {
        s.len() - 1
    } else {
        last_dot(s.drop_last())
    }
}

/// The extension of the file that the path `s` leads to: what follows the last dot of its name,
/// where that dot is not the first character.
pub open spec fn extension_of(s: Seq<char>) -> Option<Seq<char>> {
    match file_name_of(s) {
        Some(name) => if last_dot(name) > 0 {
            Some(name.skip(last_dot(name) + 1))
        } else {
            None
        },
        None => None,
    }
}

/// The name of the file that the path `s` leads to, without its extension.
pub open spec fn stem_of(s: Seq<char>) -> Option<Seq<char>> {
    match file_name_of(s) {
        Some(name) => if last_dot(name) > 0 {
            Some(name.take(last_dot(name)))
        } else {
            Some(name)
        },
        None => None,
    }
}

/// The path `s`, seen from the directory `base`.
pub open spec fn path_join(base: Seq<char>, s: Seq<char>) -> Seq<char> {
    if s.len() > 0 && s[0] == '/' {
        s
    } else if base.len() == 0 || base.last() == '/' {
        base + s
    } else {
        base + seq!['/'] + s
    }
}

/// The path `s` lies at or below `base`.
pub open spec fn lies_under(s: Seq<char>, base: Seq<char>) -> bool {
    components(base).is_prefix_of(components(s))
}

/// The components of `s` are the last components of `full`.
pub open spec fn is_tail_of(s: Seq<char>, full: Seq<char>) -> bool {
    components(s).is_suffix_of(components(full))
}

/// Seen from `base`, the path `s` begins with the components of `prefix` and ends in those of
/// `suffix`, which do not overlap.
pub open spec fn is_framed(s: Seq<char>, base: Seq<char>, prefix: Seq<char>, suffix: Seq<char>) -> bool {
    let rest = components(s).skip(components(base).len() as int);
    &&& lies_under(s, base)
    &&& components(prefix).is_prefix_of(rest)
    &&& components(suffix).is_suffix_of(rest)
    &&& components(prefix).len() + components(suffix).len() <= rest.len()
}

pub proof fn lemma_first_slash(s: Seq<char>, i: int)
    requires
        0 <= i <= s.len(),
        forall|j: int| 0 <= j < i ==> s[j] != '/',
        i == s.len() || s[i] == '/',
    ensures
        first_slash(s) == i,
    decreases s.len(),
{
    if i > 0 {
        assert forall|j: int| 0 <= j < i - 1 implies s.skip(1)[j] != '/' by {
            assert(s.skip(1)[j] == s[j + 1]);
        }
        lemma_first_slash(s.skip(1), i - 1);
    }
}

pub proof fn lemma_slash_bound(s: Seq<char>)
    ensures
        first_slash(s) <= s.len(),
        forall|j: int| 0 <= j < first_slash(s) ==> s[j] != '/',
        first_slash(s) < s.len() ==> s[first_slash(s) as int] == '/',
    decreases s.len(),
{
    if s.len() > 0 && s[0] != '/' {
        lemma_slash_bound(s.skip(1));
        assert forall|j: int| 0 <= j < first_slash(s) implies s[j] != '/' by {
            if j > 0 {
                assert(s[j] == s.skip(1)[j - 1]);
            }
        }
    }
}

/// The components of a path.
pub fn components_of(p: &str) -> (r: Vec<String>)
    ensures
        r.deep_view() == components(p@),
{
    let c = text::chars_of(p);
    let n: usize = c.len();
    let mut out: Vec<String> = Vec::new();
    proof {
        lemma_slash_bound(p@);
        reveal_strlit("/");
        reveal_strlit(".");
        assert("/"@ =~= root_part());
        assert("."@ =~= here_part());
        if n == 1 {
            lemma_first_slash(p@, if p@[0] == '/' { 0 } else { 1 });
        }
        if n >= 2 && p@[0] != '/' && p@[1] == '/' {
            lemma_first_slash(p@, 1);
        }
    }
    if n > 0 && c[0] == '/' {
        out.push("/".to_string());
    } else if n > 0 && c[0] == '.' && (n == 1 || c[1] == '/') {
        out.push(".".to_string());
        assert(p@.take(1) =~= here_part());
    } else {
        if n >= 1 {
            let ghost k = first_slash(p@);
            assert(p@.take(k as int) != here_part()) by {
                if p@.take(k as int) == here_part() {
                    assert(p@.take(k as int).len() == 1);
                    assert(p@.take(k as int)[0] == p@[0]);
                }
            }
        } else {
            assert(p@.take(0).len() == 0);
        }
    }
    assert(out.deep_view() =~= lead(p@));
    let mut start: usize = 0;
    let mut i: usize = 0;
    assert(p@.skip(0) =~= p@);
    while i < n
        invariant
            c@ == p@,
            n == c@.len(),
            start <= i <= n,
            forall|j: int| start <= j < i ==> p@[j] != '/',
            out.deep_view() + parts(p@.skip(start as int)) == components(p@),
        decreases n - i,
    {
        if c[i] == '/' {
            let ghost rest = p@.skip(start as int);
            let ghost piece = p@.subrange(start as int, i as int);
            proof {
                assert forall|j: int| 0 <= j < i - start implies rest[j] != '/' by {
                    assert(rest[j] == p@[start + j]);
                }
                lemma_first_slash(rest, i - start);
                assert(rest.take(i - start) =~= piece);
                assert(rest.skip(i - start + 1) =~= p@.skip(i + 1));
            }
            let ghost before = out.deep_view();
            if i > start && !(i == start + 1 && c[start] == '.') {
                out.push(p.substring_char(start, i).to_string());
                assert(piece != here_part()) by {
                    if piece == here_part() {
                        assert(piece.len() == 1);
                        assert(piece[0] == p@[start as int]);
                    }
                }
                assert(out.deep_view() =~= before.push(piece));
                assert(kept(piece) =~= seq![piece]);
            } else {
                if i > start {
                    assert(piece =~= here_part());
                }
                assert(kept(piece) =~= seq![]);
            }
            assert(out.deep_view() =~= before + kept(piece));
            start = i + 1;
            assert(out.deep_view() + parts(p@.skip(start as int)) =~= before + (kept(piece) + parts(
                p@.skip(start as int),
            )));
        }
        i = i + 1;
    }
    let ghost rest = p@.skip(start as int);
    let ghost before = out.deep_view();
    proof {
        assert forall|j: int| 0 <= j < rest.len() implies rest[j] != '/' by {
            assert(rest[j] == p@[start + j]);
        }
        lemma_first_slash(rest, rest.len() as int);
    }
    if n > start && !(n == start + 1 && c[start] == '.') {
        out.push(p.substring_char(start, n).to_string());
        assert(p@.subrange(start as int, n as int) =~= rest);
        assert(rest != here_part()) by {
            if rest == here_part() {
                assert(rest.len() == 1);
                assert(rest[0] == p@[start as int]);
            }
        }
        assert(out.deep_view() =~= before.push(rest));
        assert(kept(rest) =~= seq![rest]);
    } else {
        if n > start {
            assert(rest =~= here_part());
        }
        assert(kept(rest) =~= seq![]);
    }
    assert(out.deep_view() =~= components(p@));
    out
}

/// Writes out the components of `c` from position `from` on.
fn write_from(c: &Vec<String>, from: usize) -> (r: String)
    requires
        from <= c@.len(),
    ensures
        r@ == joined(c.deep_view().skip(from as int)),
{
    let n: usize = c.len();
    let ghost all = c.deep_view().skip(from as int);
    let mut out = String::new();
    if from == n {
        assert(out@ =~= joined(all));
        return out;
    }
    out.append(c[from].as_str());
    assert(all[0] == c@[from as int]@);
    assert(all.skip(1) =~= c.deep_view().skip(from + 1));
    assert(out@ =~= all[0]);
    let mut i: usize = from + 1;
    while i < n
        invariant
            n == c@.len(),
            from < i <= n,
            all == c.deep_view().skip(from as int),
            out@ + trail(c.deep_view().skip(i as int)) == joined(all),
        decreases n - i,
    {
        let ghost before = out@;
        let ghost tail = c.deep_view().skip(i as int);
        proof {
            reveal_strlit("/");
            assert("/"@ =~= seq!['/']);
            assert(tail[0] == c@[i as int]@);
            assert(tail.skip(1) =~= c.deep_view().skip(i + 1));
        }
        out.append("/");
        out.append(c[i].as_str());
        assert(out@ + trail(tail.skip(1)) =~= before + (seq!['/'] + tail[0] + trail(tail.skip(1))));
        i = i + 1;
    }
    assert(c.deep_view().skip(n as int).len() == 0);
    assert(out@ + trail(c.deep_view().skip(n as int)) =~= out@);
    out
}

/// The path `p`, written out from its components.
pub fn normalize(p: &str) -> (r: String)
    ensures
        r@ == normal(p@),
{
    let c = components_of(p);
    proof {
        reveal_strlit("/");
        assert("/"@ =~= root_part());
        assert(c.deep_view().skip(0) =~= c.deep_view());
    }
    if c.len() > 0 && text::same(c[0].as_str(), "/") {
        assert(c.deep_view()[0] == c@[0]@);
        let rest = write_from(&c, 1);
        let mut out = "/".to_string();
        out.append(rest.as_str());
        out
    } else {
        assert(c.len() > 0 ==> c.deep_view()[0] == c@[0]@);
        write_from(&c, 0)
    }
}

/// The name of the file that `p` leads to.
pub fn file_name(p: &str) -> (r: Option<String>)
    ensures
        r.deep_view() == file_name_of(p@),
{
    let c = components_of(p);
    proof {
        reveal_strlit("/");
        reveal_strlit(".");
        reveal_strlit("..");
        assert("/"@ =~= root_part());
        assert("."@ =~= here_part());
        assert(".."@ =~= up_part());
    }
    if c.len() == 0 {
        return None;
    }
    let last = c[c.len() - 1].clone();
    assert(components(p@).last() == last@);
    if text::same(last.as_str(), "/") || text::same(last.as_str(), ".") || text::same(
        last.as_str(),
        "..",
    ) {
        None
    } else {
        Some(last)
    }
}

/// The position of the last dot of `c`, where it is not the first character.
fn inner_dot(c: &Vec<char>) -> (r: Option<usize>)
    ensures
        match r {
            Some(i) => i > 0 && i < c@.len() && last_dot(c@) == i,
            None => last_dot(c@) <= 0,
        },
{
    let mut i: usize = c.len();
    assert(c@.take(i as int) =~= c@);
    while i > 1
        invariant
            i <= c@.len(),
            last_dot(c@) == last_dot(c@.take(i as int)),
        decreases i,
    {
        assert(c@.take(i as int).last() == c@[i - 1]);
        assert(c@.take(i as int).drop_last() =~= c@.take(i - 1));
        if c[i - 1] == '.' {
            return Some(i - 1);
        }
        i = i - 1;
    }
    assert(last_dot(c@.take(i as int)) <= 0) by {
        reveal_with_fuel(last_dot, 3);
    }
    None
}

/// The extension of the file that `p` leads to.
pub fn extension(p: &str) -> (r: Option<String>)
    ensures
        r.deep_view() == extension_of(p@),
{
    match file_name(p) {
        None => None,
        Some(name) => {
            let c = text::chars_of(name.as_str());
            match inner_dot(&c) {
                None => None,
                Some(i) => {
                    assert(name@.subrange(i + 1, name@.len() as int) =~= name@.skip(i + 1));
                    Some(name.as_str().substring_char(i + 1, c.len()).to_string())
                },
            }
        },
    }
}

/// The name of the file that `p` leads to, without its extension.
pub fn file_stem(p: &str) -> (r: Option<String>)
    ensures
        r.deep_view() == stem_of(p@),
{
    match file_name(p) {
        None => None,
        Some(name) => {
            let c = text::chars_of(name.as_str());
            match inner_dot(&c) {
                None => Some(name),
                Some(i) => {
                    assert(name@.subrange(0, i as int) =~= name@.take(i as int));
                    Some(name.as_str().substring_char(0, i).to_string())
                },
            }
        },
    }
}

/// The path `p`, seen from the directory `base`.
pub fn join(base: &str, p: &str) -> (r: String)
    ensures
        r@ == path_join(base@, p@),
{
    let b = text::chars_of(base);
    let c = text::chars_of(p);
    if c.len() > 0 && c[0] == '/' {
        return p.to_string();
    }
    let mut out = base.to_string();
    if b.len() > 0 && b[b.len() - 1] != '/' {
        proof {
            reveal_strlit("/");
            assert("/"@ =~= seq!['/']);
        }
        out.append("/");
    }
    out.append(p);
    out
}

/// Whether the components of `part` occur in those of `whole` from position `at` on.
fn parts_here(whole: &Vec<String>, part: &Vec<String>, at: usize) -> (r: bool)
    requires
        at + part.len() <= whole.len(),
    ensures
        r == (whole.deep_view().subrange(at as int, at + part@.len()) == part.deep_view()),
{
    let n: usize = part.len();
    let ghost span = whole.deep_view().subrange(at as int, at + n);
    for i in 0..n
        invariant
            n == part@.len(),
            at + n <= whole.len(),
            span == whole.deep_view().subrange(at as int, at + n),
            forall|j: int| 0 <= j < i ==> span[j] == part.deep_view()[j],
    {
        assert(span[i as int] == whole@[at + i]@);
        assert(part.deep_view()[i as int] == part@[i as int]@);
        if !text::same(whole[at + i].as_str(), part[i].as_str()) {
            return false;
        }
    }
    assert(span =~= part.deep_view());
    true
}

/// Whether `p` lies at or below `base`.
pub fn starts_with(p: &str, base: &str) -> (r: bool)
    ensures
        r == lies_under(p@, base@),
{
    let c = components_of(p);
    let b = components_of(base);
    if b.len() > c.len() {
        return false;
    }
    parts_here(&c, &b, 0)
}

/// Whether the components of `p` are the last components of `full`.
pub fn ends_with(full: &str, p: &str) -> (r: bool)
    ensures
        r == is_tail_of(p@, full@),
{
    let c = components_of(full);
    let b = components_of(p);
    if b.len() > c.len() {
        return false;
    }
    parts_here(&c, &b, c.len() - b.len())
}

/// Whether `p`, seen from `base`, begins with the components of `prefix` and ends in those of
/// `suffix`, which do not overlap.
pub fn frames(p: &str, base: &str, prefix: &str, suffix: &str) -> (r: bool)
    ensures
        r == is_framed(p@, base@, prefix@, suffix@),
{
    let c = components_of(p);
    let b = components_of(base);
    let head = components_of(prefix);
    let tail = components_of(suffix);
    let ghost all = c.deep_view();
    if b.len() > c.len() || !parts_here(&c, &b, 0) {
        return false;
    }
    let ghost rest = all.skip(b@.len() as int);
    let room: usize = c.len() - b.len();
    if head.len() > room || tail.len() > room - head.len() {
        return false;
    }
    assert(rest.subrange(0, head@.len() as int) =~= all.subrange(b@.len() as int, b@.len() as int + head@.len()));
    assert(rest.subrange(rest.len() - tail@.len(), rest.len() as int) =~= all.subrange(
        all.len() - tail@.len(),
        all.len() as int,
    ));
    parts_here(&c, &head, b.len()) && parts_here(&c, &tail, c.len() - tail.len())
}

/// A component that can stand anywhere in a path.
pub open spec fn is_part(part: Seq<char>) -> bool {
    part.len() > 0 && part != here_part() && forall|j: int| 0 <= j < part.len() ==> part[j] != '/'
}

pub proof fn lemma_parts_are_parts(s: Seq<char>)
    ensures
        forall|k: int| 0 <= k < parts(s).len() ==> is_part(#[trigger] parts(s)[k]),
    decreases s.len(),
{
    lemma_slash_bound(s);
    let i = first_slash(s);
    if i < s.len() {
        let rest = s.skip(i as int + 1);
        lemma_parts_are_parts(rest);
        assert forall|k: int| 0 <= k < parts(s).len() implies is_part(#[trigger] parts(s)[k]) by {
            let head = kept(s.take(i as int));
            if k < head.len() {
                assert(parts(s)[k] == s.take(i as int));
            } else {
                assert(parts(s)[k] == parts(rest)[k - head.len()]);
            }
        }
    }
}

proof fn lemma_parts_of_trail(head: Seq<char>, c: Seq<Seq<char>>)
    requires
        forall|j: int| 0 <= j < head.len() ==> head[j] != '/',
        forall|k: int| 0 <= k < c.len() ==> is_part(#[trigger] c[k]),
    ensures
        parts(head + trail(c)) == kept(head) + c,
        c.len() > 0 ==> first_slash(head + trail(c)) == head.len(),
        c.len() == 0 ==> first_slash(head + trail(c)) >= (head + trail(c)).len(),
    decreases c.len(),
{
    let s = head + trail(c);
    if c.len() == 0 {
        assert(s =~= head);
        lemma_first_slash(s, s.len() as int);
        assert(kept(head) + c =~= kept(head));
    } else {
        assert(s[head.len() as int] == '/');
        assert forall|j: int| 0 <= j < head.len() implies s[j] != '/' by {
            assert(s[j] == head[j]);
        }
        lemma_first_slash(s, head.len() as int);
        assert(s.take(head.len() as int) =~= head);
        assert(s.skip(head.len() as int + 1) =~= c[0] + trail(c.skip(1)));
        assert forall|k: int| 0 <= k < c.skip(1).len() implies is_part(#[trigger] c.skip(1)[k]) by {
            assert(c.skip(1)[k] == c[k + 1]);
        }
        assert(is_part(c[0]));
        lemma_parts_of_trail(c[0], c.skip(1));
        assert(kept(c[0]) + c.skip(1) =~= c);
    }
}

/// Writing a path out anew keeps its components.
pub proof fn law_normal_keeps_components(s: Seq<char>)
    ensures
        components(normal(s)) == components(s),
{
    let c = components(s);
    let p = parts(s);
    lemma_parts_are_parts(s);
    lemma_slash_bound(s);
    let t = normal(s);
    if lead(s).len() == 0 {
        assert(c =~= p);
        if p.len() == 0 {
            assert(t =~= seq![]);
            assert(t.take(0).len() == 0);
            assert(components(t) =~= c);
        } else {
            let head = p[0];
            assert(is_part(head));
            assert(head != root_part()) by {
                if head == root_part() {
                    assert(head[0] == '/');
                }
            }
            assert forall|k: int| 0 <= k < p.skip(1).len() implies is_part(#[trigger] p.skip(1)[k]) by {
                assert(p.skip(1)[k] == p[k + 1]);
            }
            lemma_parts_of_trail(head, p.skip(1));
            assert(t =~= head + trail(p.skip(1)));
            assert(t[0] == head[0]);
            if p.skip(1).len() == 0 {
                lemma_slash_bound(t);
                assert(t =~= head);
            }
            assert(t.take(first_slash(t) as int) =~= head);
            assert(kept(head) + p.skip(1) =~= p);
            assert(components(t) =~= c);
        }
    } else {
        assert(c[0] == lead(s)[0]);
        assert(c.skip(1) =~= p);
        if lead(s)[0] == root_part() {
            assert(t =~= seq!['/'] + joined(p));
            if p.len() == 0 {
                assert(t =~= seq!['/']);
                lemma_first_slash(t, 0);
                assert(t.take(0).len() == 0);
                assert(t.skip(1).len() == 0);
                lemma_first_slash(t.skip(1), 0);
                reveal_with_fuel(parts, 2);
                assert(components(t) =~= c);
            } else {
                assert(t =~= seq![] + trail(p));
                lemma_parts_of_trail(seq![], p);
                assert(kept(seq![]) + p =~= p);
                assert(components(t) =~= c);
            }
        } else {
            assert(here_part()[0] != root_part()[0]);
            assert(t =~= here_part() + trail(p));
            lemma_parts_of_trail(here_part(), p);
            assert(kept(here_part()) + p =~= p);
            assert(t[0] == '.');
            if p.len() == 0 {
                lemma_slash_bound(t);
                assert(t =~= here_part());
            }
            assert(t.take(first_slash(t) as int) =~= here_part());
            assert(components(t) =~= c);
        }
    }
}

/// Two texts name the same path exactly when they normalise to the same text; a text in normal
/// form is left as it is.
pub proof fn law_normal_identifies_paths(a: Seq<char>, b: Seq<char>)
    ensures
        normal(a) == normal(b) <==> components(a) == components(b),
        normal(normal(a)) == normal(a),
{
    law_normal_keeps_components(a);
    law_normal_keeps_components(b);
}

} // verus!
