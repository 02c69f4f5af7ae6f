//! The likeness of a note's title and a file's name, as the `nucleo-matcher` crate scores it.
use crate::text;
use vstd::prelude::*;

verus! {

/// The longest title that can be scored, in characters. A title has at most half as many words as
/// characters, each adds a 16-bit score, and the sum is kept in 32 bits.
pub const MAX_TITLE: usize = 131_073;

/// The longest file name that can be scored, in characters. Each matched character adds at most 26
/// to a score that is kept in 16 bits.
pub const MAX_STEM: usize = 2_520;

/// A lower-case letter that simple case folding turns into another letter. Whether `nucleo_matcher`
/// takes the two for the same differs between its two passes over a text, so that the second may
/// not find what the first has found.
pub open spec fn folds_twice(c: char) -> bool {
    let n = c as u32;
    ||| n == 0xb5
    ||| n == 0x17f
    ||| n == 0x345
    ||| n == 0x3c2
    ||| 0x3d0 <= n <= 0x3d1
    ||| 0x3d5 <= n <= 0x3d6
    ||| 0x3f0 <= n <= 0x3f1
    ||| n == 0x3f5
    ||| 0x13f8 <= n <= 0x13fd
    ||| 0x1c80 <= n <= 0x1c88
    ||| n == 0x1e9b
    ||| n == 0x1fbe
    ||| 0xab70 <= n <= 0xabbf
}

/// A letter that is, or that case folding turns into, a variant of a plain Latin letter stands in one
/// of these ranges. A word of a pattern that holds one is matched without regard for variants.
pub open spec fn is_accented(c: char) -> bool {
    let n = c as u32;
    ||| 0xc0 <= n <= 0x36f
    ||| 0x1d00 <= n <= 0x1eff
    ||| 0x2071 <= n <= 0x2184
    ||| 0x2c62 <= n <= 0x2c7f
    ||| 0xa78d <= n <= 0xa7c5
}

/// No accented letter stands in `s`.
pub open spec fn is_plain(s: Seq<char>) -> bool {
    forall|i: int| 0 <= i < s.len() ==> !is_accented(#[trigger] s[i])
}

/// No letter of `s` folds twice.
pub open spec fn folds_once(s: Seq<char>) -> bool {
    forall|i: int| 0 <= i < s.len() ==> !folds_twice(#[trigger] s[i])
}

/// The file name `stem` can be scored for `title`. Where the title is plain, the two passes agree on
/// every letter.
pub open spec fn is_scorable(title: Seq<char>, stem: Seq<char>) -> bool {
    &&& title.len() <= MAX_TITLE
    &&& stem.len() <= MAX_STEM
    &&& is_plain(title) || folds_once(stem)
}

fn plain(c: &Vec<char>) -> (r: bool)
    ensures
        r == is_plain(c@),
{
    let n: usize = c.len();
    for i in 0..n
        invariant
            n == c@.len(),
            forall|k: int| 0 <= k < i ==> !is_accented(#[trigger] c@[k]),
    {
        let code: u32 = c[i] as u32;
        if (0xc0 <= code && code <= 0x36f) || (0x1d00 <= code && code <= 0x1eff) || (0x2071 <= code && code
            <= 0x2184) || (0x2c62 <= code && code <= 0x2c7f) || (0xa78d <= code && code <= 0xa7c5) {
            assert(is_accented(c@[i as int]));
            return false;
        }
    }
    true
}

fn folded(c: &Vec<char>) -> (r: bool)
    ensures
        r == folds_once(c@),
{
    let n: usize = c.len();
    for i in 0..n
        invariant
            n == c@.len(),
            forall|k: int| 0 <= k < i ==> !folds_twice(#[trigger] c@[k]),
    {
        let code: u32 = c[i] as u32;
        if code == 0xb5 || code == 0x17f || code == 0x345 || code == 0x3c2 || (0x3d0 <= code && code <= 0x3d1)
            || (0x3d5 <= code && code <= 0x3d6) || (0x3f0 <= code && code <= 0x3f1) || code == 0x3f5 || (
        0x13f8 <= code && code <= 0x13fd) || (0x1c80 <= code && code <= 0x1c88) || code == 0x1e9b || code
            == 0x1fbe || (0xab70 <= code && code <= 0xabbf) {
            assert(folds_twice(c@[i as int]));
            return false;
        }
    }
    true
}

/// Whether the file name `stem` can be scored for `title`.
pub fn scorable(title: &str, stem: &str) -> (r: bool)
    ensures
        r == is_scorable(title@, stem@),
{
    let t = text::chars_of(title);
    let s = text::chars_of(stem);
    t.len() <= MAX_TITLE && s.len() <= MAX_STEM && (plain(&t) || folded(&s))
}

/// The score that `nucleo_matcher` gives the pattern `title` on the text `stem`, or nothing where
/// the pattern does not match.
pub uninterp spec fn title_score(title: Seq<char>, stem: Seq<char>) -> Option<u32>;

/// A matcher of `nucleo_matcher`: its settings, and scratch memory.
#[verifier::external_type_specification]
#[verifier::external_body]
pub struct ExMatcher(nucleo_matcher::Matcher);

/// `Matcher::new` of `nucleo_matcher`, with the default settings. Nothing is claimed of the matcher.
#[verifier::external_body]
pub(crate) fn new_matcher() -> nucleo_matcher::Matcher {
    nucleo_matcher::Matcher::new(nucleo_matcher::Config::DEFAULT)
}

/// `Pattern::score` of `nucleo_matcher`, for a pattern that `Pattern::parse` reads from `title`
/// with case ignored and smart normalisation, on the text `stem`, with a matcher set up for paths.
/// The score depends on the title and the stem alone: the matcher's settings are set by the call,
/// and all else that it keeps is scratch memory. On Windows a backslash in the stem counts as a
/// separator too. What the score is for given texts is left unsaid. Texts on which an assertion or an
/// overflow check inside may fail are left out.
#[verifier::external_body]
pub(crate) fn score_stem(matcher: &mut nucleo_matcher::Matcher, title: &str, stem: &str) -> (r: Option<u32>)
    requires
        is_scorable(title@, stem@),
    ensures
        r == title_score(title@, stem@),
{
    matcher.config = nucleo_matcher::Config::DEFAULT.match_paths();
    let pattern = nucleo_matcher::pattern::Pattern::parse(
        title,
        nucleo_matcher::pattern::CaseMatching::Ignore,
        nucleo_matcher::pattern::Normalization::Smart,
    );
    let mut buf = Vec::new();
    pattern.score(nucleo_matcher::Utf32Str::new(stem, &mut buf), matcher)
}

} // verus!
