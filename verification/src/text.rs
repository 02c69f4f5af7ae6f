//! Text helpers: searching, comparing and numbers written out in decimal.
use vstd::prelude::*;
use vstd::string::*;

verus! {

/// `part` occurs in `whole` at character position `at`.
pub open spec fn occurs_at(whole: Seq<char>, part: Seq<char>, at: int) -> bool {
    &&& 0 <= at
    &&& at + part.len() <= whole.len()
    &&& whole.subrange(at, at + part.len()) == part
}

/// `part` occurs somewhere in `whole`.
pub open spec fn occurs_in(part: Seq<char>, whole: Seq<char>) -> bool {
    exists|at: int| occurs_at(whole, part, at)
}

/// `whole` begins with `part`.
pub open spec fn begins_with(whole: Seq<char>, part: Seq<char>) -> bool {
    part.len() <= whole.len() && whole.take(part.len() as int) == part
}

/// `whole` ends in `part`.
pub open spec fn ends_in(whole: Seq<char>, part: Seq<char>) -> bool {
    part.len() <= whole.len() && whole.skip(whole.len() - part.len()) == part
}

/// The characters of `s`, one by one.
pub fn chars_of(s: &str) -> (r: Vec<char>)
    ensures
        r@ == s@,
{
    let mut out: Vec<char> = Vec::new();
    for c in it: s.chars()
        invariant
            out@ == it.seq().take(it.index()),
            it.seq() == s@,
    {
        out.push(c);
        assert(it.seq().take(it.index() + 1) == it.seq().take(it.index()).push(c));
    }
    assert(out@ =~= s@);
    out
}

/// Whether two texts are the same.
pub fn same(a: &str, b: &str) -> (r: bool)
    ensures
        r == (a@ == b@),
{
    let x = a.as_bytes();
    let y = b.as_bytes();
    proof {
        vstd::utf8::encode_utf8_decode_utf8(a@);
        vstd::utf8::encode_utf8_decode_utf8(b@);
    }
    if x.len() != y.len() {
        return false;
    }
    let n: usize = x.len();
    for i in 0..n
        invariant
            n == x@.len() == y@.len(),
            x@ == a.spec_bytes(),
            y@ == b.spec_bytes(),
            forall|j: int| 0 <= j < i ==> x@[j] == y@[j],
    {
        if x[i] != y[i] {
            return false;
        }
    }
    assert(x@ =~= y@);
    true
}

/// Whether `part` occurs in `whole` at position `at`.
pub fn occurs_here(whole: &Vec<char>, part: &Vec<char>, at: usize) -> (r: bool)
    ensures
        r == occurs_at(whole@, part@, at as int),
{
    if part.len() > whole.len() || at > whole.len() - part.len() {
        return false;
    }
    let n: usize = part.len();
    for i in 0..n
        invariant
            n == part@.len(),
            at + n <= whole.len(),
            forall|j: int| 0 <= j < i ==> whole@[at + j] == part@[j],
    {
        if whole[at + i] != part[i] {
            proof {
                assert(whole@.subrange(at as int, at + n)[i as int] == whole@[at + i]);
            }
            return false;
        }
    }
    assert(whole@.subrange(at as int, at + n) =~= part@);
    true
}

/// The first position from `from` on at which `part` occurs in `whole`.
pub fn find_from(whole: &Vec<char>, part: &Vec<char>, from: usize) -> (r: Option<usize>)
    ensures
        match r {
            Some(at) => from <= at && occurs_at(whole@, part@, at as int) && forall|k: int|
                from <= k < at ==> !occurs_at(whole@, part@, k),
            None => forall|k: int| from <= k ==> !occurs_at(whole@, part@, k),
        },
{
    let mut at: usize = from;
    while at <= whole.len()
        invariant
            from <= at,
            forall|k: int| from <= k < at ==> !occurs_at(whole@, part@, k),
        decreases whole@.len() + 1 - at,
    {
        if occurs_here(whole, part, at) {
            return Some(at);
        }
        if at == whole.len() {
            return None;
        }
        at = at + 1;
    }
    None
}

/// Whether `part` occurs in `whole`.
pub fn contains_text(whole: &str, part: &str) -> (r: bool)
    ensures
        r == occurs_in(part@, whole@),
{
    let w = chars_of(whole);
    let p = chars_of(part);
    match find_from(&w, &p, 0) {
        Some(at) => {
            assert(occurs_at(whole@, part@, at as int));
            true
        },
        None => false,
    }
}

/// Whether `whole` begins with `part`.
pub fn starts_with_text(whole: &str, part: &str) -> (r: bool)
    ensures
        r == begins_with(whole@, part@),
{
    let w = chars_of(whole);
    let p = chars_of(part);
    assert(part@.len() <= whole@.len() ==> whole@.subrange(0, part@.len() as int) =~= whole@.take(
        part@.len() as int,
    ));
    occurs_here(&w, &p, 0)
}

/// Whether `whole` ends in `part`.
pub fn ends_with_text(whole: &str, part: &str) -> (r: bool)
    ensures
        r == ends_in(whole@, part@),
{
    let w = chars_of(whole);
    let p = chars_of(part);
    if p.len() > w.len() {
        return false;
    }
    let at: usize = w.len() - p.len();
    assert(whole@.subrange(at as int, at + part@.len()) =~= whole@.skip(at as int));
    occurs_here(&w, &p, at)
}

/// The lower-case form of an ASCII letter; any other character as it is.
pub open spec fn ascii_lower(c: char) -> char {
    if 'A' <= c <= 'Z' {
        (c as u32 + 32) as char
    } else {
        c
    }
}

/// Two texts are the same but for the case of ASCII letters.
pub open spec fn same_but_case(a: Seq<char>, b: Seq<char>) -> bool {
    a.len() == b.len() && forall|i: int|
        0 <= i < a.len() ==> ascii_lower(#[trigger] a[i]) == ascii_lower(b[i])
}

fn lower(c: char) -> (r: char)
    ensures
        r == ascii_lower(c),
{
    if 'A' <= c && c <= 'Z' {
        let code: u8 = c as u8;
        let low: u8 = code + 32;
        low as char
    } else {
        c
    }
}

/// Whether two texts are the same but for the case of ASCII letters.
pub fn eq_ignore_case(a: &str, b: &str) -> (r: bool)
    ensures
        r == same_but_case(a@, b@),
{
    let x = chars_of(a);
    let y = chars_of(b);
    if x.len() != y.len() {
        return false;
    }
    let n: usize = x.len();
    for i in 0..n
        invariant
            n == x@.len() == y@.len(),
            x@ == a@,
            y@ == b@,
            forall|j: int| 0 <= j < i ==> ascii_lower(#[trigger] a@[j]) == ascii_lower(b@[j]),
    {
        if lower(x[i]) != lower(y[i]) {
            assert(ascii_lower(a@[i as int]) != ascii_lower(b@[i as int]));
            return false;
        }
    }
    true
}

/// The decimal digit of value `d`.
pub open spec fn digit(d: nat) -> char {
    if d == 0 {
        '0'
    } else if d == 1 {
        '1'
    } else if d == 2 {
        '2'
    } else if d == 3 {
        '3'
    } else if d == 4 {
        '4'
    } else if d == 5 {
        '5'
    } else if d == 6 {
        '6'
    } else if d == 7 {
        '7'
    } else if d == 8 {
        '8'
    } else {
        '9'
    }
}

/// `n` written in decimal, without leading zeros.
pub open spec fn decimal(n: nat) -> Seq<char>
    decreases n,
{
    if n < 10 {
        seq![digit(n)]
    } else {
        decimal(n / 10).push(digit(n % 10))
    }
}

fn digit_text(d: u64) -> (r: &'static str)
    requires
        d < 10,
    ensures
        r@ == seq![digit(d as nat)],
{
    proof {
        reveal_strlit("0");
        reveal_strlit("1");
        reveal_strlit("2");
        reveal_strlit("3");
        reveal_strlit("4");
        reveal_strlit("5");
        reveal_strlit("6");
        reveal_strlit("7");
        reveal_strlit("8");
        reveal_strlit("9");
    }
    let r = if d == 0 {
        "0"
    } else if d == 1 {
        "1"
    } else if d == 2 {
        "2"
    } else if d == 3 {
        "3"
    } else if d == 4 {
        "4"
    } else if d == 5 {
        "5"
    } else if d == 6 {
        "6"
    } else if d == 7 {
        "7"
    } else if d == 8 {
        "8"
    } else {
        "9"
    };
    assert(r@ =~= seq![digit(d as nat)]);
    r
}

/// `n` written in decimal.
pub fn decimal_text(n: u64) -> (r: String)
    ensures
        r@ == decimal(n as nat),
    decreases n,
{
    if n < 10 {
        digit_text(n).to_string()
    } else {
        let mut r = decimal_text(n / 10);
        r.append(digit_text(n % 10));
        assert(r@ =~= decimal((n / 10) as nat).push(digit((n % 10) as nat)));
        r
    }
}

/// `c` is a decimal digit.
pub open spec fn is_digit(c: char) -> bool {
    '0' <= c <= '9'
}

/// The number that a row of decimal digits stands for.
pub open spec fn digits_value(s: Seq<char>) -> nat
    decreases s.len(),
{
    if s.len() == 0 {
        0
    } else {
        digits_value(s.drop_last()) * 10 + (s.last() as u32 - '0' as u32) as nat
    }
}

/// Every character of `s` is a decimal digit.
pub open spec fn all_digits(s: Seq<char>) -> bool {
    forall|i: int| 0 <= i < s.len() ==> is_digit(#[trigger] s[i])
}

/// `s` without a plus sign in front.
pub open spec fn unsigned(s: Seq<char>) -> Seq<char> {
    if s.len() > 0 && s[0] == '+' {
        s.skip(1)
    } else {
        s
    }
}

/// The number that `s` denotes: decimal digits, with or without a plus sign in front.
pub open spec fn number_in(s: Seq<char>) -> Option<nat> {
    if unsigned(s).len() > 0 && all_digits(unsigned(s)) {
        Some(digits_value(unsigned(s)))
    } else {
        None
    }
}

/// A longer row of digits stands for a number at least as large.
proof fn lemma_digits_grow(s: Seq<char>, i: int)
    requires
        0 <= i <= s.len(),
    ensures
        digits_value(s.take(i)) <= digits_value(s),
    decreases s.len(),
{
    if i < s.len() {
        assert(s.drop_last().take(i) =~= s.take(i));
        lemma_digits_grow(s.drop_last(), i);
    } else {
        assert(s.take(i) =~= s);
    }
}

/// Reads a decimal number that fits in a `usize`.
pub fn parse_number(s: &str) -> (r: Option<usize>)
    ensures
        match number_in(s@) {
            Some(n) => if n <= usize::MAX {
                r == Some(n as usize)
            } else {
                r is None
            },
            None => r is None,
        },
{
    let c = chars_of(s);
    let from: usize = if c.len() > 0 && c[0] == '+' {
        1
    } else {
        0
    };
    if from == c.len() {
        return None;
    }
    let ghost digits = s@.skip(from as int);
    assert(from == 0 ==> digits =~= s@);
    let n: usize = c.len();
    let mut value: usize = 0;
    let mut fits: bool = true;
    for i in from..n
        invariant
            c@ == s@,
            n == c@.len(),
            from <= n,
            digits == s@.skip(from as int),
            digits == unsigned(s@),
            forall|j: int| 0 <= j < i - from ==> is_digit(#[trigger] digits[j]),
            fits ==> value == digits_value(digits.take(i - from)),
            !fits ==> digits_value(digits) > usize::MAX,
    {
        assert(c@[i as int] == digits[i - from]);
        if !('0' <= c[i] && c[i] <= '9') {
            assert(!is_digit(digits[i - from]));
            return None;
        }
        let d: usize = (c[i] as u32 - '0' as u32) as usize;
        assert(digits.take(i + 1 - from).drop_last() =~= digits.take(i - from));
        proof {
            lemma_digits_grow(digits, i + 1 - from);
        }
        if fits {
            if value > (usize::MAX - d) / 10 {
                fits = false;
            } else {
                value = value * 10 + d;
            }
        }
    }
    assert(digits.take(n - from) =~= digits);
    if fits {
        Some(value)
    } else {
        None
    }
}

/// White space, as Unicode has it.
pub open spec fn is_space(c: char) -> bool {
    let n = c as u32;
    ||| 0x09 <= n <= 0x0d
    ||| n == 0x20
    ||| n == 0x85
    ||| n == 0xa0
    ||| n == 0x1680
    ||| 0x2000 <= n <= 0x200a
    ||| n == 0x2028
    ||| n == 0x2029
    ||| n == 0x202f
    ||| n == 0x205f
    ||| n == 0x3000
}

/// White space alone, or nothing.
pub open spec fn is_blank(s: Seq<char>) -> bool {
    forall|i: int| 0 <= i < s.len() ==> is_space(#[trigger] s[i])
}

/// Whether the text is white space alone, or nothing.
pub fn blank(s: &str) -> (r: bool)
    ensures
        r == is_blank(s@),
{
    let c = chars_of(s);
    let n: usize = c.len();
    for i in 0..n
        invariant
            n == c@.len(),
            c@ == s@,
            forall|k: int| 0 <= k < i ==> is_space(#[trigger] c@[k]),
    {
        if !space(c[i]) {
            assert(!is_space(s@[i as int]));
            return false;
        }
    }
    true
}

/// The pieces of `s` between the characters `c`.
pub open spec fn pieces(s: Seq<char>, c: char) -> Seq<Seq<char>>
    decreases s.len(),
{
    if s.len() == 0 {
        seq![s]
    } else {
        let before = pieces(s.drop_last(), c);
        if s.last() == c {
            before.push(seq![])
        } else {
            before.drop_last().push(before.last().push(s.last()))
        }
    }
}

/// The pieces of `s` between the characters `c`.
pub fn split(s: &str, c: char) -> (r: Vec<String>)
    ensures
        r.deep_view() == pieces(s@, c),
{
    let chars = chars_of(s);
    let n: usize = chars.len();
    let mut out: Vec<String> = Vec::new();
    let mut start: usize = 0;
    assert(out.deep_view().push(s@.subrange(0, 0)) =~= pieces(s@.take(0), c)) by {
        assert(s@.subrange(0, 0) =~= s@.take(0));
    }
    for i in 0..n
        invariant
            n == s@.len(),
            chars@ == s@,
            start <= i,
            out.deep_view().push(s@.subrange(start as int, i as int)) == pieces(s@.take(i as int), c),
    {
        let ghost done = out.deep_view();
        let ghost open = s@.subrange(start as int, i as int);
        proof {
            assert(s@.take(i + 1).drop_last() =~= s@.take(i as int));
            assert(s@.take(i + 1).last() == s@[i as int]);
            assert(done.push(open).drop_last() =~= done);
        }
        if chars[i] == c {
            out.push(s.substring_char(start, i).to_string());
            start = i + 1;
            assert(out.deep_view() =~= done.push(open));
            assert(s@.subrange(i + 1, i + 1) =~= seq![]);
        } else {
            assert(s@.subrange(start as int, i + 1) =~= open.push(s@[i as int]));
        }
    }
    let ghost done = out.deep_view();
    out.push(s.substring_char(start, n).to_string());
    assert(out.deep_view() =~= done.push(s@.subrange(start as int, n as int)));
    assert(s@.take(n as int) =~= s@);
    out
}

/// `s` without the white space that it begins with.
pub open spec fn trim_front(s: Seq<char>) -> Seq<char>
    decreases s.len(),
{
    if s.len() > 0 && is_space(s[0]) {
        trim_front(s.skip(1))
    } else {
        s
    }
}

/// `s` without the white space that it ends in.
pub open spec fn trim_back(s: Seq<char>) -> Seq<char>
    decreases s.len(),
{
    if s.len() > 0 && is_space(s.last()) {
        trim_back(s.drop_last())
    } else {
        s
    }
}

/// `s` without the white space around it.
pub open spec fn trimmed(s: Seq<char>) -> Seq<char> {
    trim_back(trim_front(s))
}

/// Whether the character is white space.
pub fn space(c: char) -> (r: bool)
    ensures
        r == is_space(c),
{
    let code: u32 = c as u32;
    (0x09 <= code && code <= 0x0d) || code == 0x20 || code == 0x85 || code == 0xa0 || code == 0x1680 || (
    0x2000 <= code && code <= 0x200a) || code == 0x2028 || code == 0x2029 || code == 0x202f || code
        == 0x205f || code == 0x3000
}

/// `s` without the white space around it.
pub fn trim(s: &str) -> (r: String)
    ensures
        r@ == trimmed(s@),
{
    let c = chars_of(s);
    let n: usize = c.len();
    let mut a: usize = 0;
    assert(s@.skip(0) =~= s@);
    while a < n && space(c[a])
        invariant
            a <= n == s@.len(),
            c@ == s@,
            trim_front(s@.skip(a as int)) == trim_front(s@),
        decreases n - a,
    {
        assert(s@.skip(a as int).skip(1) =~= s@.skip(a + 1));
        a = a + 1;
    }
    assert(trim_front(s@) == s@.skip(a as int));
    let mut b: usize = n;
    assert(s@.subrange(a as int, n as int) =~= s@.skip(a as int));
    while b > a && space(c[b - 1])
        invariant
            a <= b <= n == s@.len(),
            c@ == s@,
            trim_back(s@.subrange(a as int, b as int)) == trim_back(s@.skip(a as int)),
        decreases b,
    {
        assert(s@.subrange(a as int, b as int).drop_last() =~= s@.subrange(a as int, b - 1));
        assert(s@.subrange(a as int, b as int).last() == s@[b - 1]);
        b = b - 1;
    }
    assert(b > a ==> s@.subrange(a as int, b as int).last() == s@[b - 1]);
    s.substring_char(a, b).to_string()
}

/// The first position from `at` on at which `part` occurs.
pub open spec fn next_at(s: Seq<char>, part: Seq<char>, at: int) -> Option<int>
    decreases s.len() + 1 - at,
{
    if at < 0 || at + part.len() > s.len() {
        None
    } else if occurs_at(s, part, at) {
        Some(at)
    } else {
        next_at(s, part, at + 1)
    }
}

/// The first position is the first one at which `part` occurs.
pub proof fn lemma_next_at(s: Seq<char>, part: Seq<char>, at: int, found: int)
    requires
        0 <= at <= found,
        occurs_at(s, part, found),
        forall|k: int| at <= k < found ==> !occurs_at(s, part, k),
    ensures
        next_at(s, part, at) == Some(found),
    decreases found - at,
{
    if at < found {
        lemma_next_at(s, part, at + 1, found);
    }
}

/// Where `part` does not occur there is no position.
pub proof fn lemma_next_none(s: Seq<char>, part: Seq<char>, at: int)
    requires
        forall|k: int| at <= k ==> !occurs_at(s, part, k),
    ensures
        next_at(s, part, at) is None,
    decreases s.len() + 1 - at,
{
    if 0 <= at && at + part.len() <= s.len() {
        assert(!occurs_at(s, part, at));
        lemma_next_none(s, part, at + 1);
    }
}

/// The first position from `at` on at which `part` occurs.
pub fn find_next(s: &Vec<char>, part: &Vec<char>, at: usize) -> (r: Option<usize>)
    ensures
        match r {
            Some(found) => next_at(s@, part@, at as int) == Some(found as int) && at <= found && found
                + part@.len() <= s@.len(),
            None => next_at(s@, part@, at as int) is None,
        },
{
    match find_from(s, part, at) {
        Some(found) => {
            proof {
                lemma_next_at(s@, part@, at as int, found as int);
            }
            Some(found)
        },
        None => {
            proof {
                lemma_next_none(s@, part@, at as int);
            }
            None
        },
    }
}

/// The stretches of `s`, from `at` on, between `open` and the `close` that comes next.
pub open spec fn spans(s: Seq<char>, open: Seq<char>, close: Seq<char>, at: int) -> Seq<Seq<char>>
    decreases s.len() - at,
{
    match next_at(s, open, at) {
        Some(i) => match next_at(s, close, i + open.len()) {
            Some(j) => if j + close.len() > at && j + close.len() <= s.len() {
                seq![s.subrange(i + open.len(), j)] + spans(s, open, close, j + close.len() as int)
            } else {
                seq![]
            },
            None => seq![],
        },
        None => seq![],
    }
}

/// The stretches of `s` between `open` and the `close` that comes next.
pub fn between(s: &str, open: &str, close: &str) -> (r: Vec<String>)
    requires
        open@.len() > 0,
        close@.len() > 0,
    ensures
        r.deep_view() == spans(s@, open@, close@, 0),
{
    let c = chars_of(s);
    let a = chars_of(open);
    let b = chars_of(close);
    let mut out: Vec<String> = Vec::new();
    let mut at: usize = 0;
    assert(out.deep_view() + spans(s@, open@, close@, 0) =~= spans(s@, open@, close@, 0));
    loop
        invariant
            c@ == s@,
            a@ == open@,
            b@ == close@,
            open@.len() > 0,
            close@.len() > 0,
            at <= s@.len(),
            out.deep_view() + spans(s@, open@, close@, at as int) == spans(s@, open@, close@, 0),
        decreases s@.len() - at,
    {
        let i: usize = match find_next(&c, &a, at) {
            Some(i) => i,
            None => {
                assert(spans(s@, open@, close@, at as int) =~= seq![]);
                assert(out.deep_view() + seq![] =~= out.deep_view());
                return out;
            },
        };
        assert(i + a@.len() <= c.len());
        let from: usize = i + a.len();
        let j: usize = match find_next(&c, &b, from) {
            Some(j) => j,
            None => {
                assert(spans(s@, open@, close@, at as int) =~= seq![]);
                assert(out.deep_view() + seq![] =~= out.deep_view());
                return out;
            },
        };
        let ghost before = out.deep_view();
        let ghost found = s@.subrange(from as int, j as int);
        out.push(s.substring_char(from, j).to_string());
        assert(out.deep_view() =~= before.push(found));
        assert(before + (seq![found] + spans(s@, open@, close@, j + close@.len() as int)) =~= before.push(
            found,
        ) + spans(s@, open@, close@, j + close@.len() as int));
        assert(j + b@.len() <= c.len());
        at = j + b.len();
    }
}

/// Whether `s` is among `list`.
pub fn lists(list: &Vec<String>, s: &String) -> (r: bool)
    ensures
        r == list.deep_view().contains(s@),
{
    let n: usize = list.len();
    for i in 0..n
        invariant
            n == list@.len(),
            forall|k: int| 0 <= k < i ==> list.deep_view()[k] != s@,
    {
        assert(list.deep_view()[i as int] == list@[i as int]@);
        if same(list[i].as_str(), s.as_str()) {
            return true;
        }
    }
    false
}

/// The texts, without those that stood before.
pub open spec fn distinct(list: Seq<Seq<char>>) -> Seq<Seq<char>>
    decreases list.len(),
{
    if list.len() == 0 {
        Seq::empty()
    } else {
        let head = distinct(list.drop_last());
        if head.contains(list.last()) {
            head
        } else {
            head.push(list.last())
        }
    }
}

/// The texts, without those that stood before.
pub fn without_repeats(list: &Vec<String>) -> (r: Vec<String>)
    ensures
        r.deep_view() == distinct(list.deep_view()),
{
    let ghost all = list.deep_view();
    let mut out: Vec<String> = Vec::new();
    let n: usize = list.len();
    assert(out.deep_view() =~= distinct(all.take(0)));
    for i in 0..n
        invariant
            n == list@.len(),
            all == list.deep_view(),
            out.deep_view() == distinct(all.take(i as int)),
    {
        let ghost before = out.deep_view();
        proof {
            assert(all[i as int] == list@[i as int]@);
            assert(all.take(i + 1).drop_last() =~= all.take(i as int));
            assert(all.take(i + 1).last() == all[i as int]);
        }
        if !lists(&out, &list[i]) {
            out.push(list[i].clone());
            assert(out.deep_view() =~= before.push(all[i as int]));
        }
    }
    assert(all.take(n as int) =~= all);
    out
}

} // verus!
