//! Text as sequences of characters: comparison, search, trimming, splitting,
//! case folding and joining.
use vstd::prelude::*;

verus! {

/// `String::push` appends one character to the string.
pub assume_specification[ String::push ](s: &mut String, c: char)
    ensures
        final(s)@ == old(s)@.push(c),
;

/// The contents of a list of strings.
pub open spec fn views(v: Seq<String>) -> Seq<Seq<char>> {
    Seq::new(v.len(), |i: int| v[i]@)
}

/// The contents of an optional string.
pub open spec fn opt_view(s: Option<String>) -> Option<Seq<char>> {
    match s {
        Some(s) => Some(s@),
        None => None,
    }
}

/// The contents of an optional string slice.
pub open spec fn opt_str(s: Option<&str>) -> Option<Seq<char>> {
    match s {
        Some(s) => Some(s@),
        None => None,
    }
}

/// The white-space characters of Unicode.
pub open spec fn is_space(c: char) -> bool {
    let n = c as u32;
    ||| 0x09 <= n <= 0x0d
    ||| n == 0x20
    ||| n == 0x85
    ||| n == 0xa0
    ||| n == 0x1680
    ||| 0x2000 <= n <= 0x200a
    ||| n == 0x2028
    ||| n == 0x2029
    ||| n == 0x202f
    ||| n == 0x205f
    ||| n == 0x3000
}

/// `s` without its leading white space.
pub open spec fn trim_start(s: Seq<char>) -> Seq<char>
    decreases s.len(),
{
    if s.len() > 0 && is_space(s[0]) {
        trim_start(s.skip(1))
    } else {
        s
    }
}

/// `s` without its trailing white space.
pub open spec fn trim_end(s: Seq<char>) -> Seq<char>
    decreases s.len(),
{
    if s.len() > 0 && is_space(s.last()) {
        trim_end(s.drop_last())
    } else {
        s
    }
}

/// `s` without its leading and trailing white space.
pub open spec fn trimmed(s: Seq<char>) -> Seq<char> {
    trim_end(trim_start(s))
}

pub open spec fn has_prefix(s: Seq<char>, p: Seq<char>) -> bool {
    p.len() <= s.len() && s.take(p.len() as int) == p
}

pub open spec fn has_suffix(s: Seq<char>, p: Seq<char>) -> bool {
    p.len() <= s.len() && s.skip(s.len() - p.len()) == p
}

/// `p` stands in `s` from position `i` on.
pub open spec fn occurs_at(s: Seq<char>, p: Seq<char>, i: int) -> bool {
    0 <= i && i + p.len() <= s.len() && s.subrange(i, i + p.len()) == p
}

/// `p` stands somewhere in `s`.
pub open spec fn has_substring(s: Seq<char>, p: Seq<char>) -> bool {
    exists|i: int| #[trigger] occurs_at(s, p, i)
}

/// The position of the first `c` in `s`, or the length of `s` without one.
pub open spec fn find(s: Seq<char>, c: char) -> int
    decreases s.len(),
{
    if s.len() == 0 || s[0] == c {
        0
    } else {
        1 + find(s.skip(1), c)
    }
}

/// The parts of `s` between the occurrences of `c`.
pub open spec fn split_on(s: Seq<char>, c: char) -> Seq<Seq<char>>
    decreases s.len(),
    via split_on_decreases
{
    let i = find(s, c);
    if i >= s.len() {
        seq![s]
    } else {
        seq![s.take(i)] + split_on(s.skip(i + 1), c)
    }
}

#[via_fn]
proof fn split_on_decreases(s: Seq<char>, c: char) {
    lemma_find(s, c);
}

/// What stands before and after the first `c` of `s`.
pub open spec fn split_first(s: Seq<char>, c: char) -> Option<(Seq<char>, Seq<char>)> {
    let i = find(s, c);
    if i >= s.len() {
        None
    } else {
        Some((s.take(i), s.skip(i + 1)))
    }
}

/// `s` without one trailing carriage return.
pub open spec fn without_cr(s: Seq<char>) -> Seq<char> {
    if s.len() > 0 && s.last() == '\r' {
        s.drop_last()
    } else {
        s
    }
}

/// The lines of `s`. A line ends with a line feed or a carriage return and a
/// line feed; the ending of the last line is optional.
pub open spec fn lines_of(s: Seq<char>) -> Seq<Seq<char>>
    decreases s.len(),
    via lines_of_decreases
{
    let i = find(s, '\n');
    if s.len() == 0 {
        Seq::empty()
    } else if i >= s.len() {
        seq![s]
    } else {
        seq![without_cr(s.take(i))] + lines_of(s.skip(i + 1))
    }
}

#[via_fn]
proof fn lines_of_decreases(s: Seq<char>) {
    lemma_find(s, '\n');
}

/// The position of the first white space in `s`, or the length of `s`.
pub open spec fn find_space(s: Seq<char>) -> int
    decreases s.len(),
{
    if s.len() == 0 || is_space(s[0]) {
        0
    } else {
        1 + find_space(s.skip(1))
    }
}

/// The words of `s`, parted by white space.
pub open spec fn words_of(s: Seq<char>) -> Seq<Seq<char>>
    decreases s.len(),
    via words_of_decreases
{
    let t = trim_start(s);
    if t.len() == 0 {
        Seq::empty()
    } else {
        seq![t.take(find_space(t))] + words_of(t.skip(find_space(t)))
    }
}

#[via_fn]
proof fn words_of_decreases(s: Seq<char>) {
    lemma_trim_start(s);
    lemma_find_space(trim_start(s));
}

pub open spec fn ascii_lower_char(c: char) -> char {
    if 'A' <= c <= 'Z' {
        (c as u32 + 32) as char
    } else {
        c
    }
}

/// `s` with its ASCII letters in lower case.
pub open spec fn ascii_lower(s: Seq<char>) -> Seq<char> {
    Seq::new(s.len(), |i: int| ascii_lower_char(s[i]))
}

/// The lower case of `c` as far as it holds ASCII letters: besides the ASCII
/// capitals, the capital I with a dot above lowers to an `i` and a combining
/// dot, and the Kelvin sign to a `k`. No other character lowers to one that is
/// in ASCII; such characters stand for themselves.
pub open spec fn fold_char(c: char) -> Seq<char> {
    if c == '\u{130}' {
        seq!['i', '\u{307}']
    } else if c == '\u{212a}' {
        seq!['k']
    } else {
        seq![ascii_lower_char(c)]
    }
}

/// `s` folded to lower case for a comparison with ASCII text.
pub open spec fn folded(s: Seq<char>) -> Seq<char>
    decreases s.len(),
{
    if s.len() == 0 {
        Seq::empty()
    } else {
        folded(s.drop_last()) + fold_char(s.last())
    }
}

/// The elements of `parts` with `sep` between them.
pub open spec fn joined(parts: Seq<Seq<char>>, sep: Seq<char>) -> Seq<char>
    decreases parts.len(),
{
    if parts.len() == 0 {
        Seq::empty()
    } else if parts.len() == 1 {
        parts[0]
    } else {
        joined(parts.drop_last(), sep) + sep + parts.last()
    }
}

/// The first `c` of a text: it lies inside the text unless the text has none,
/// and nothing before it is a `c`.
pub proof fn lemma_find(s: Seq<char>, c: char)
    ensures
        0 <= find(s, c) <= s.len(),
        find(s, c) < s.len() ==> s[find(s, c)] == c,
        forall|i: int| 0 <= i < find(s, c) ==> s[i] != c,
    decreases s.len(),
{
    if s.len() == 0 || s[0] == c {
    } else {
        let t = s.skip(1);
        lemma_find(t, c);
        assert forall|i: int| 0 <= i < find(s, c) implies s[i] != c by {
            if i > 0 {
                assert(t[i - 1] == s[i]);
            }
        }
        if find(s, c) < s.len() {
            assert(t[find(t, c)] == s[find(s, c)]);
        }
    }
}

/// The first `c` is where its two properties say.
pub proof fn lemma_find_is(s: Seq<char>, c: char, n: int)
    requires
        0 <= n <= s.len(),
        forall|i: int| 0 <= i < n ==> s[i] != c,
        n < s.len() ==> s[n] == c,
    ensures
        find(s, c) == n,
{
    lemma_find(s, c);
    if find(s, c) < n {
        assert(s[find(s, c)] != c);
    }
}

/// A part without the separator, the separator and the rest split into that
/// part and the parts of the rest.
pub proof fn lemma_split_part(a: Seq<char>, c: char, b: Seq<char>)
    requires
        forall|i: int| 0 <= i < a.len() ==> a[i] != c,
    ensures
        split_on(a + seq![c] + b, c) == seq![a] + split_on(b, c),
{
    let s = a + seq![c] + b;
    lemma_find_is(s, c, a.len() as int);
    assert(s.take(a.len() as int) =~= a);
    assert(s.skip(a.len() as int + 1) =~= b);
}

/// A text without the separator is its only part.
pub proof fn lemma_split_whole(a: Seq<char>, c: char)
    requires
        forall|i: int| 0 <= i < a.len() ==> a[i] != c,
    ensures
        split_on(a, c) == seq![a],
{
    lemma_find_is(a, c, a.len() as int);
}

pub proof fn lemma_find_space(s: Seq<char>)
    ensures
        0 <= find_space(s) <= s.len(),
        find_space(s) < s.len() ==> is_space(s[find_space(s)]),
        forall|i: int| 0 <= i < find_space(s) ==> !is_space(#[trigger] s[i]),
        s.len() > 0 && !is_space(s[0]) ==> find_space(s) > 0,
    decreases s.len(),
{
    if s.len() == 0 || is_space(s[0]) {
    } else {
        let t = s.skip(1);
        lemma_find_space(t);
        assert forall|i: int| 0 <= i < find_space(s) implies !is_space(#[trigger] s[i]) by {
            if i > 0 {
                assert(t[i - 1] == s[i]);
            }
        }
        if find_space(s) < s.len() {
            assert(t[find_space(t)] == s[find_space(s)]);
        }
    }
}

pub proof fn lemma_find_space_is(s: Seq<char>, n: int)
    requires
        0 <= n <= s.len(),
        forall|i: int| 0 <= i < n ==> !is_space(#[trigger] s[i]),
        n < s.len() ==> is_space(s[n]),
    ensures
        find_space(s) == n,
{
    lemma_find_space(s);
    if find_space(s) < n {
        assert(!is_space(s[find_space(s)]));
    }
}

pub proof fn lemma_trim_start(s: Seq<char>)
    ensures
        trim_start(s).len() <= s.len(),
        trim_start(s) == s.skip(s.len() - trim_start(s).len()),
        trim_start(s).len() > 0 ==> !is_space(trim_start(s)[0]),
    decreases s.len(),
{
    if s.len() > 0 && is_space(s[0]) {
        let t = s.skip(1);
        lemma_trim_start(t);
        assert(trim_start(s) =~= s.skip(s.len() - trim_start(s).len()));
    } else {
        assert(s =~= s.skip(0));
    }
}

/// The characters of a string as a vector.
pub fn to_chars(s: &str) -> (r: Vec<char>)
    ensures
        r@ == s@,
{
    let mut r: Vec<char> = Vec::new();
    for c in it: s.chars()
        invariant
            r@ == s@.take(it.index() as int),
            it.seq() == s@,
    {
        r.push(c);
    }
    r
}

/// The characters `from..to` as a string.
pub fn from_chars(chars: &Vec<char>, from: usize, to: usize) -> (r: String)
    requires
        from <= to <= chars@.len(),
    ensures
        r@ == chars@.subrange(from as int, to as int),
{
    let mut r = String::new();
    let mut i: usize = from;
    while i < to
        invariant
            from <= i <= to <= chars@.len(),
            r@ == chars@.subrange(from as int, i as int),
        decreases to - i,
    {
        r.push(chars[i]);
        i += 1;
    }
    r
}

/// Equality of two strings.
pub fn str_eq(a: &str, b: &str) -> (r: bool)
    ensures
        r == (a@ == b@),
{
    let x: String = a.to_owned();
    let y: String = b.to_owned();
    x == y
}

/// A copy of an optional string.
pub fn clone_opt(s: &Option<String>) -> (r: Option<String>)
    ensures
        opt_view(r) == opt_view(*s),
{
    match s {
        Some(s) => Some(s.clone()),
        None => None,
    }
}

/// The optional string as a slice.
pub fn as_opt_str(s: &Option<String>) -> (r: Option<&str>)
    ensures
        opt_str(r) == opt_view(*s),
{
    match s {
        Some(s) => Some(s.as_str()),
        None => None,
    }
}

pub fn char_is_space(c: char) -> (r: bool)
    ensures
        r == is_space(c),
{
    let n: u32 = c as u32;
    (0x09 <= n && n <= 0x0d) || n == 0x20 || n == 0x85 || n == 0xa0 || n == 0x1680 || (0x2000 <= n
        && n <= 0x200a) || n == 0x2028 || n == 0x2029 || n == 0x202f || n == 0x205f || n == 0x3000
}

/// Where `chars[from..to]` starts without its leading white space.
fn skip_space(chars: &Vec<char>, from: usize, to: usize) -> (r: usize)
    requires
        from <= to <= chars@.len(),
    ensures
        from <= r <= to,
        chars@.subrange(r as int, to as int) == trim_start(
            chars@.subrange(from as int, to as int),
        ),
{
    let mut i: usize = from;
    while i < to && char_is_space(chars[i])
        invariant
            from <= i <= to <= chars@.len(),
            trim_start(chars@.subrange(i as int, to as int)) == trim_start(
                chars@.subrange(from as int, to as int),
            ),
        decreases to - i,
    {
        let ghost rest = chars@.subrange(i as int, to as int);
        assert(rest[0] == chars@[i as int]);
        assert(rest.skip(1) =~= chars@.subrange(i + 1, to as int));
        i += 1;
    }
    assert(i < to ==> chars@.subrange(i as int, to as int)[0] == chars@[i as int]);
    i
}

/// Where `chars[from..to]` ends without its trailing white space.
fn skip_space_back(chars: &Vec<char>, from: usize, to: usize) -> (r: usize)
    requires
        from <= to <= chars@.len(),
    ensures
        from <= r <= to,
        chars@.subrange(from as int, r as int) == trim_end(
            chars@.subrange(from as int, to as int),
        ),
{
    let mut i: usize = to;
    while i > from && char_is_space(chars[i - 1])
        invariant
            from <= i <= to <= chars@.len(),
            trim_end(chars@.subrange(from as int, i as int)) == trim_end(
                chars@.subrange(from as int, to as int),
            ),
        decreases i,
    {
        let ghost rest = chars@.subrange(from as int, i as int);
        assert(rest.last() == chars@[i - 1]);
        assert(rest.drop_last() =~= chars@.subrange(from as int, i - 1));
        i -= 1;
    }
    assert(i > from ==> chars@.subrange(from as int, i as int).last() == chars@[i - 1]);
    i
}

/// `s` without its leading and trailing white space.
pub fn trim(s: &str) -> (r: String)
    ensures
        r@ == trimmed(s@),
{
    let chars = to_chars(s);
    let end: usize = chars.len();
    let a: usize = skip_space(&chars, 0, end);
    let b: usize = skip_space_back(&chars, a, end);
    assert(chars@.subrange(0, end as int) =~= s@);
    from_chars(&chars, a, b)
}

pub fn starts_with(s: &str, p: &str) -> (r: bool)
    ensures
        r == has_prefix(s@, p@),
{
    let a = to_chars(s);
    let b = to_chars(p);
    if b.len() > a.len() {
        return false;
    }
    assert(s@.take(p@.len() as int) =~= s@.subrange(0, p@.len() as int));
    matches_at(&a, &b, 0)
}

pub fn ends_with(s: &str, p: &str) -> (r: bool)
    ensures
        r == has_suffix(s@, p@),
{
    let a = to_chars(s);
    let b = to_chars(p);
    if b.len() > a.len() {
        return false;
    }
    assert(s@.skip(s@.len() - p@.len()) =~= s@.subrange(s@.len() - p@.len(), s@.len() as int));
    matches_at(&a, &b, a.len() - b.len())
}

/// True when `needle` stands in `hay` from position `at` on.
fn matches_at(hay: &Vec<char>, needle: &Vec<char>, at: usize) -> (r: bool)
    requires
        at + needle@.len() <= hay@.len(),
    ensures
        r == occurs_at(hay@, needle@, at as int),
{
    let end: usize = hay.len();
    let mut j: usize = 0;
    let ghost window = hay@.subrange(at as int, at + needle@.len());
    while j < needle.len()
        invariant
            at + needle@.len() <= hay@.len(),
            end == hay@.len(),
            j <= needle@.len(),
            window == hay@.subrange(at as int, at + needle@.len()),
            forall|k: int| 0 <= k < j ==> window[k] == needle@[k],
        decreases needle@.len() - j,
    {
        if hay[at + j] != needle[j] {
            assert(window[j as int] != needle@[j as int]);
            return false;
        }
        assert(window[j as int] == needle@[j as int]);
        j += 1;
    }
    assert(window =~= needle@);
    true
}

/// True when `needle` stands somewhere in `hay`.
pub fn contains(hay: &str, needle: &str) -> (r: bool)
    ensures
        r == has_substring(hay@, needle@),
{
    let a = to_chars(hay);
    let b = to_chars(needle);
    match find_chars(&a, &b) {
        Some(_) => true,
        None => false,
    }
}

/// The first position from which `needle` stands in `hay`.
pub fn find_chars(hay: &Vec<char>, needle: &Vec<char>) -> (r: Option<usize>)
    ensures
        match r {
            Some(i) => occurs_at(hay@, needle@, i as int) && forall|k: int|
                0 <= k < i ==> !occurs_at(hay@, needle@, k),
            None => !has_substring(hay@, needle@),
        },
{
    let mut i: usize = 0;
    while i <= hay.len() && needle.len() <= hay.len() - i
        invariant
            forall|k: int| 0 <= k < i ==> !occurs_at(hay@, needle@, k),
            i <= hay@.len() + 1,
        decreases hay@.len() + 1 - i,
    {
        if matches_at(hay, needle, i) {
            return Some(i);
        }
        if i == hay.len() {
            return None;
        }
        i += 1;
    }
    None
}

/// The position of the first `c` in `chars[from..]`, or the number of
/// characters without one.
fn find_from(chars: &Vec<char>, c: char, from: usize) -> (r: usize)
    requires
        from <= chars@.len(),
    ensures
        from <= r <= chars@.len(),
        r - from == find(chars@.skip(from as int), c),
{
    let ghost t = chars@.skip(from as int);
    let mut i: usize = from;
    while i < chars.len() && chars[i] != c
        invariant
            from <= i <= chars@.len(),
            t == chars@.skip(from as int),
            forall|k: int| 0 <= k < i - from ==> t[k] != c,
        decreases chars@.len() - i,
    {
        assert(t[i - from] == chars@[i as int]);
        i += 1;
    }
    proof {
        if i < chars@.len() {
            assert(t[i - from] == chars@[i as int]);
        }
        lemma_find_is(t, c, i - from);
    }
    i
}

/// The parts of `s` between the occurrences of `c`.
pub fn split(s: &str, c: char) -> (r: Vec<String>)
    ensures
        views(r@) == split_on(s@, c),
{
    let chars = to_chars(s);
    let mut r: Vec<String> = Vec::new();
    let mut from: usize = 0;
    assert(chars@.skip(0) =~= s@);
    assert(views(r@) + split_on(s@, c) =~= split_on(s@, c));
    loop
        invariant
            chars@ == s@,
            from <= chars@.len(),
            views(r@) + split_on(chars@.skip(from as int), c) == split_on(s@, c),
        decreases chars@.len() - from,
    {
        let ghost rest = chars@.skip(from as int);
        let ghost before = r@;
        let i: usize = find_from(&chars, c, from);
        let part = from_chars(&chars, from, i);
        assert(part@ =~= rest.take(i - from));
        r.push(part);
        assert(views(r@) =~= views(before) + seq![rest.take(i - from)]);
        if i == chars.len() {
            assert(rest.take(i - from) =~= rest);
            assert(views(r@) =~= views(before) + seq![rest]);
            return r;
        }
        assert(rest.skip(i - from + 1) =~= chars@.skip(i + 1));
        assert(views(r@) + split_on(chars@.skip(i + 1), c) =~= views(before) + (seq![
            rest.take(i - from),
        ] + split_on(chars@.skip(i + 1), c)));
        from = i + 1;
    }
}

/// What stands before and after the first `c` of `s`.
pub fn split_once(s: &str, c: char) -> (r: Option<(String, String)>)
    ensures
        match r {
            Some((a, b)) => split_first(s@, c) == Some((a@, b@)),
            None => split_first(s@, c) is None,
        },
{
    let chars = to_chars(s);
    assert(chars@.skip(0) =~= s@);
    let i: usize = find_from(&chars, c, 0);
    if i == chars.len() {
        None
    } else {
        let a = from_chars(&chars, 0, i);
        let b = from_chars(&chars, i + 1, chars.len());
        assert(a@ =~= s@.take(i as int));
        assert(b@ =~= s@.skip(i + 1));
        Some((a, b))
    }
}

/// The lines of `s`.
pub fn lines(s: &str) -> (r: Vec<String>)
    ensures
        views(r@) == lines_of(s@),
{
    let chars = to_chars(s);
    let mut r: Vec<String> = Vec::new();
    let mut from: usize = 0;
    assert(chars@.skip(0) =~= s@);
    assert(views(r@) + lines_of(s@) =~= lines_of(s@));
    while from < chars.len()
        invariant
            chars@ == s@,
            from <= chars@.len(),
            views(r@) + lines_of(chars@.skip(from as int)) == lines_of(s@),
        decreases chars@.len() - from,
    {
        let ghost rest = chars@.skip(from as int);
        let ghost before = r@;
        let i: usize = find_from(&chars, '\n', from);
        if i == chars.len() {
            let part = from_chars(&chars, from, i);
            assert(part@ =~= rest);
            r.push(part);
            assert(views(r@) =~= views(before) + seq![rest]);
            return r;
        }
        let mut end: usize = i;
        if end > from && chars[end - 1] == '\r' {
            end -= 1;
        }
        let part = from_chars(&chars, from, end);
        assert(rest.take(i - from) =~= chars@.subrange(from as int, i as int));
        assert(part@ =~= without_cr(rest.take(i - from)));
        r.push(part);
        assert(rest.skip(i - from + 1) =~= chars@.skip(i + 1));
        assert(views(r@) =~= views(before) + seq![without_cr(rest.take(i - from))]);
        assert(views(r@) + lines_of(chars@.skip(i + 1)) =~= views(before) + (seq![
            without_cr(rest.take(i - from)),
        ] + lines_of(chars@.skip(i + 1))));
        from = i + 1;
    }
    assert(chars@.skip(from as int) =~= Seq::<char>::empty());
    assert(views(r@) + lines_of(chars@.skip(from as int)) =~= views(r@));
    r
}

/// The words of `s`, parted by white space.
pub fn words(s: &str) -> (r: Vec<String>)
    ensures
        views(r@) == words_of(s@),
{
    let chars = to_chars(s);
    let len: usize = chars.len();
    let mut r: Vec<String> = Vec::new();
    let mut from: usize = 0;
    assert(chars@.skip(0) =~= s@);
    assert(views(r@) + words_of(s@) =~= words_of(s@));
    loop
        invariant
            chars@ == s@,
            len == chars@.len(),
            from <= len,
            views(r@) + words_of(chars@.skip(from as int)) == words_of(s@),
        decreases len - from,
    {
        let ghost before = r@;
        let ghost rest = chars@.skip(from as int);
        let start: usize = skip_space(&chars, from, len);
        let ghost t = chars@.skip(start as int);
        assert(rest =~= chars@.subrange(from as int, len as int));
        assert(t =~= chars@.subrange(start as int, len as int));
        assert(t == trim_start(rest));
        if start == len {
            assert(views(r@) + words_of(rest) =~= views(r@));
            return r;
        }
        let mut i: usize = start;
        while i < len && !char_is_space(chars[i])
            invariant
                start <= i <= len,
                len == chars@.len(),
                t == chars@.skip(start as int),
                forall|k: int| 0 <= k < i - start ==> !is_space(#[trigger] t[k]),
            decreases len - i,
        {
            assert(t[i - start] == chars@[i as int]);
            i += 1;
        }
        proof {
            if i < len {
                assert(t[i - start] == chars@[i as int]);
            }
            lemma_find_space_is(t, i - start);
            lemma_trim_start(rest);
            lemma_find_space(t);
        }
        let part = from_chars(&chars, start, i);
        assert(part@ =~= t.take(i - start));
        r.push(part);
        assert(t.skip(i - start) =~= chars@.skip(i as int));
        assert(views(r@) =~= views(before) + seq![t.take(i - start)]);
        assert(views(r@) + words_of(chars@.skip(i as int)) =~= views(before) + (seq![
            t.take(i - start),
        ] + words_of(chars@.skip(i as int))));
        from = i;
    }
}

pub fn lower_char(c: char) -> (r: char)
    ensures
        r == ascii_lower_char(c),
{
    if 'A' <= c && c <= 'Z' {
        (c as u8 + 32u8) as char
    } else {
        c
    }
}

/// `s` with its ASCII letters in lower case.
pub fn to_ascii_lower(s: &str) -> (r: String)
    ensures
        r@ == ascii_lower(s@),
{
    let chars = to_chars(s);
    let mut r = String::new();
    let mut i: usize = 0;
    while i < chars.len()
        invariant
            chars@ == s@,
            i <= chars@.len(),
            r@ == ascii_lower(s@).take(i as int),
        decreases chars@.len() - i,
    {
        r.push(lower_char(chars[i]));
        i += 1;
        assert(r@ =~= ascii_lower(s@).take(i as int));
    }
    assert(ascii_lower(s@).take(i as int) =~= ascii_lower(s@));
    r
}

/// `s` folded to lower case for a comparison with ASCII text.
pub fn fold_case(s: &str) -> (r: String)
    ensures
        r@ == folded(s@),
{
    let chars = to_chars(s);
    let mut r = String::new();
    let mut i: usize = 0;
    while i < chars.len()
        invariant
            chars@ == s@,
            i <= chars@.len(),
            r@ == folded(s@.take(i as int)),
        decreases chars@.len() - i,
    {
        let c = chars[i];
        let ghost before = r@;
        if c == '\u{130}' {
            r.push('i');
            r.push('\u{307}');
        } else if c == '\u{212a}' {
            r.push('k');
        } else {
            r.push(lower_char(c));
        }
        i += 1;
        assert(r@ =~= before + fold_char(c));
        assert(s@.take(i as int).drop_last() =~= s@.take(i - 1));
        assert(s@.take(i as int).last() == c);
    }
    assert(s@.take(i as int) =~= s@);
    r
}

/// The elements of `parts` with `sep` between them.
pub fn join(parts: &Vec<String>, sep: &str) -> (r: String)
    ensures
        r@ == joined(views(parts@), sep@),
{
    let mut r = String::new();
    let mut i: usize = 0;
    let ghost all = views(parts@);
    while i < parts.len()
        invariant
            all == views(parts@),
            i <= parts@.len(),
            r@ == joined(all.take(i as int), sep@),
        decreases parts@.len() - i,
    {
        if i > 0 {
            r.append(sep);
        }
        r.append(parts[i].as_str());
        i += 1;
        assert(all.take(i as int).drop_last() =~= all.take(i - 1));
        assert(all.take(i as int).last() == parts@[i - 1]@);
        if i == 1 {
            assert(all.take(0) =~= Seq::<Seq<char>>::empty());
            assert(r@ =~= all.take(1)[0]);
        }
    }
    assert(all.take(i as int) =~= all);
    r
}

/// `s` with `t` behind it.
pub fn plus(s: String, t: &str) -> (r: String)
    ensures
        r@ == s@ + t@,
{
    let mut r = s;
    r.append(t);
    r
}

/// Puts a copy of `s` at the end of `list`.
pub fn push_str(list: &mut Vec<String>, s: &str)
    ensures
        views(final(list)@) == views(old(list)@).push(s@),
        final(list)@.len() == old(list)@.len() + 1,
{
    list.push(s.to_owned());
    assert(views(list@) =~= views(old(list)@).push(s@));
}

/// Puts `s` at the end of `list`.
pub fn push_string(list: &mut Vec<String>, s: String)
    ensures
        views(final(list)@) == views(old(list)@).push(s@),
        final(list)@.len() == old(list)@.len() + 1,
{
    let ghost added = s@;
    list.push(s);
    assert(views(list@) =~= views(old(list)@).push(added));
}

/// Somewhere among the arguments `flag` stands with `value` directly behind it.
pub open spec fn sets(args: Seq<Seq<char>>, flag: Seq<char>, value: Seq<char>) -> bool {
    exists|i: int|
        0 <= i && i + 1 < args.len() && #[trigger] args[i] == flag && args[i + 1] == value
}

/// The same behind position `from`.
pub open spec fn sets_behind(
    args: Seq<Seq<char>>,
    from: int,
    flag: Seq<char>,
    value: Seq<char>,
) -> bool {
    exists|i: int|
        from < i && i + 1 < args.len() && #[trigger] args[i] == flag && args[i + 1] == value
}

/// What is set in the first of two lists of arguments is set in both together.
pub proof fn lemma_sets_front(
    a: Seq<Seq<char>>,
    b: Seq<Seq<char>>,
    flag: Seq<char>,
    value: Seq<char>,
)
    requires
        sets(a, flag, value),
    ensures
        sets(a + b, flag, value),
{
    let i = choose|i: int|
        0 <= i && i + 1 < a.len() && #[trigger] a[i] == flag && a[i + 1] == value;
    assert((a + b)[i] == flag && (a + b)[i + 1] == value);
}

/// What is set in the second of two lists of arguments is set in both together.
pub proof fn lemma_sets_back(
    a: Seq<Seq<char>>,
    b: Seq<Seq<char>>,
    flag: Seq<char>,
    value: Seq<char>,
)
    requires
        sets(b, flag, value),
    ensures
        sets(a + b, flag, value),
{
    let i = choose|i: int|
        0 <= i && i + 1 < b.len() && #[trigger] b[i] == flag && b[i + 1] == value;
    assert((a + b)[a.len() + i] == flag && (a + b)[a.len() + i + 1] == value);
}

proof fn lemma_trim_end(s: Seq<char>)
    ensures
        trim_end(s).len() <= s.len(),
        trim_end(s) == s.take(trim_end(s).len() as int),
        forall|i: int| trim_end(s).len() <= i < s.len() ==> is_space(#[trigger] s[i]),
        trim_end(s).len() > 0 ==> !is_space(trim_end(s).last()),
    decreases s.len(),
{
    if s.len() > 0 && is_space(s.last()) {
        let init = s.drop_last();
        lemma_trim_end(init);
        assert(s.take(trim_end(s).len() as int) =~= init.take(trim_end(s).len() as int));
        assert forall|i: int| trim_end(s).len() <= i < s.len() implies is_space(
            #[trigger] s[i],
        ) by {
            if i < init.len() {
                assert(init[i] == s[i]);
            }
        }
    } else {
        assert(s.take(s.len() as int) =~= s);
    }
}

proof fn lemma_trim_start_spaces(s: Seq<char>)
    ensures
        forall|i: int| 0 <= i < s.len() - trim_start(s).len() ==> is_space(#[trigger] s[i]),
    decreases s.len(),
{
    lemma_trim_start(s);
    if s.len() > 0 && is_space(s[0]) {
        lemma_trim_start_spaces(s.skip(1));
        assert forall|i: int| 0 <= i < s.len() - trim_start(s).len() implies is_space(
            #[trigger] s[i],
        ) by {
            if i > 0 {
                assert(s.skip(1)[i - 1] == s[i]);
            }
        }
    }
}

/// Trimming takes white space away at both ends and nothing else: what is left is a
/// part of the text that neither begins nor ends with white space.
pub proof fn trimming_takes_outer_space_alone(s: Seq<char>) -> (from: int)
    ensures
        0 <= from && from + trimmed(s).len() <= s.len(),
        trimmed(s) == s.subrange(from, from + trimmed(s).len()),
        forall|i: int| 0 <= i < from ==> is_space(#[trigger] s[i]),
        forall|i: int| from + trimmed(s).len() <= i < s.len() ==> is_space(#[trigger] s[i]),
        trimmed(s).len() > 0 ==> !is_space(trimmed(s)[0]) && !is_space(trimmed(s).last()),
{
    let t = trim_start(s);
    lemma_trim_start(s);
    lemma_trim_start_spaces(s);
    lemma_trim_end(t);
    let from = s.len() - t.len();
    assert(trimmed(s) =~= s.subrange(from, from + trimmed(s).len()));
    assert forall|i: int| from + trimmed(s).len() <= i < s.len() implies is_space(
        #[trigger] s[i],
    ) by {
        assert(t[i - from] == s[i]);
    }
    if trimmed(s).len() > 0 {
        assert(trimmed(s)[0] == t[0]);
    }
    from
}

/// A text that neither begins nor ends with white space is left alone.
pub proof fn trimmed_texts_stay(s: Seq<char>)
    requires
        s.len() > 0 ==> !is_space(s[0]) && !is_space(s.last()),
    ensures
        trimmed(s) == s,
{
}

/// The blank, the tabulator and the ends of lines are white space; what can be seen
/// in ASCII is not.
pub proof fn white_space_cannot_be_seen(c: char)
    ensures
        c == ' ' || c == '\t' || c == '\n' || c == '\r' || c == '\u{0b}' || c == '\u{0c}'
            ==> is_space(c),
        c == '\u{85}' || c == '\u{a0}' || c == '\u{1680}' || c == '\u{2028}' || c == '\u{2029}'
            || c == '\u{202f}' || c == '\u{205f}' || c == '\u{3000}' ==> is_space(c),
        '\u{2000}' <= c <= '\u{200a}' ==> is_space(c),
        '!' <= c <= '~' ==> !is_space(c),
        is_space(c) ==> c <= ' ' || c == '\u{85}' || c == '\u{a0}' || c == '\u{1680}'
            || '\u{2000}' <= c <= '\u{3000}',
{
}

proof fn lemma_joined_front(a: Seq<char>, rest: Seq<Seq<char>>, sep: Seq<char>)
    requires
        rest.len() > 0,
    ensures
        joined(seq![a] + rest, sep) == a + sep + joined(rest, sep),
    decreases rest.len(),
{
    let all = seq![a] + rest;
    assert(all.last() == rest.last());
    assert(all.drop_last() =~= seq![a] + rest.drop_last());
    if rest.len() == 1 {
        assert(all.drop_last() =~= seq![a]);
        assert(joined(all.drop_last(), sep) == a);
    } else {
        lemma_joined_front(a, rest.drop_last(), sep);
        assert(joined(all, sep) =~= a + sep + joined(rest, sep));
    }
}

/// Splitting loses nothing: the parts hold no separator, and with it between them they
/// are the text again.
pub proof fn joining_undoes_splitting(s: Seq<char>, c: char)
    ensures
        split_on(s, c).len() > 0,
        joined(split_on(s, c), seq![c]) == s,
        forall|i: int, k: int|
            0 <= i < split_on(s, c).len() && 0 <= k < split_on(s, c)[i].len() ==> #[trigger]
                split_on(s, c)[i][k] != c,
    decreases s.len(),
{
    lemma_find(s, c);
    let i = find(s, c);
    if i < s.len() {
        let rest = s.skip(i + 1);
        joining_undoes_splitting(rest, c);
        lemma_joined_front(s.take(i), split_on(rest, c), seq![c]);
        assert(s.take(i) + seq![c] + rest =~= s);
        assert forall|j: int, k: int|
            0 <= j < split_on(s, c).len() && 0 <= k < split_on(s, c)[j].len() implies #[trigger]
            split_on(s, c)[j][k] != c by {
            if j > 0 {
                assert(split_on(s, c)[j] == split_on(rest, c)[j - 1]);
                assert(split_on(rest, c)[j - 1][k] != c);
            } else {
                assert(split_on(s, c)[0] == s.take(i));
            }
        }
    } else {
        assert(split_on(s, c) =~= seq![s]);
    }
}

/// A text splits at the first separator, whatever stands behind it, and not at all
/// without one.
pub proof fn texts_split_at_the_first_separator(a: Seq<char>, c: char, b: Seq<char>)
    requires
        forall|i: int| 0 <= i < a.len() ==> a[i] != c,
    ensures
        split_first(a + seq![c] + b, c) == Some((a, b)),
        split_first(a, c) is None,
{
    let s = a + seq![c] + b;
    assert forall|i: int| 0 <= i < a.len() implies s[i] != c by {
        assert(s[i] == a[i]);
    }
    lemma_find_is(s, c, a.len() as int);
    lemma_find_is(a, c, a.len() as int);
    assert(s.take(a.len() as int) =~= a);
    assert(s.skip(a.len() as int + 1) =~= b);
}

/// A line ends at the first line feed, without the carriage return before it; the
/// other lines are those of the rest. A last line without an end is one too.
pub proof fn lines_end_at_line_feeds(a: Seq<char>, b: Seq<char>)
    requires
        forall|i: int| 0 <= i < a.len() ==> a[i] != '\n',
        a.len() > 0 ==> a.last() != '\r',
    ensures
        lines_of(a + seq!['\n'] + b) == seq![a] + lines_of(b),
        lines_of(a + seq!['\r'] + seq!['\n'] + b) == seq![a] + lines_of(b),
        a.len() > 0 ==> lines_of(a) == seq![a],
        lines_of(Seq::empty()).len() == 0,
{
    let s = a + seq!['\n'] + b;
    lemma_find_is(s, '\n', a.len() as int);
    assert(s.take(a.len() as int) =~= a);
    assert(s.skip(a.len() as int + 1) =~= b);
    let t = a + seq!['\r'] + seq!['\n'] + b;
    assert forall|i: int| 0 <= i < a.len() + 1 implies t[i] != '\n' by {
        if i < a.len() {
            assert(t[i] == a[i]);
        }
    }
    lemma_find_is(t, '\n', a.len() as int + 1);
    assert(t.take(a.len() as int + 1) =~= a.push('\r'));
    assert(a.push('\r').drop_last() =~= a);
    assert(t.skip(a.len() as int + 2) =~= b);
    lemma_find_is(a, '\n', a.len() as int);
}

/// A word ends at the first white space, and white space before a word is no part of
/// it; the other words are those of the rest.
pub proof fn words_end_at_white_space(space: char, a: Seq<char>, b: Seq<char>)
    requires
        is_space(space),
        a.len() > 0,
        forall|i: int| 0 <= i < a.len() ==> !is_space(#[trigger] a[i]),
    ensures
        words_of(a + seq![space] + b) == seq![a] + words_of(b),
        words_of(seq![space] + b) == words_of(b),
        words_of(a) == seq![a],
{
    let s = a + seq![space] + b;
    assert forall|i: int| 0 <= i < a.len() implies !is_space(#[trigger] s[i]) by {
        assert(s[i] == a[i]);
    }
    assert(s[a.len() as int] == space);
    lemma_find_space_is(s, a.len() as int);
    assert(s[0] == a[0]);
    assert(trim_start(s) == s);
    assert(s.take(a.len() as int) =~= a);
    assert(s.skip(a.len() as int) =~= seq![space] + b);
    let t = seq![space] + b;
    assert(t.skip(1) =~= b);
    assert(t[0] == space);
    assert(trim_start(t) == trim_start(b));
    assert(words_of(t) == words_of(b));
    lemma_find_space_is(a, a.len() as int);
    assert(a.take(a.len() as int) =~= a);
    assert(trim_start(a) == a);
    assert(a.skip(a.len() as int).len() == 0);
    assert(words_of(a.skip(a.len() as int)) =~= Seq::<Seq<char>>::empty());
    assert(words_of(a) =~= seq![a]);
}

/// The lower case of ASCII text has a small letter for each capital and leaves the
/// rest alone; so it does for a comparison, where the two signs that lower to an ASCII
/// letter do not occur.
pub proof fn capitals_become_small_letters(s: Seq<char>, i: int)
    requires
        0 <= i < s.len(),
        forall|k: int| 0 <= k < s.len() ==> #[trigger] s[k] != '\u{130}' && s[k] != '\u{212a}',
    ensures
        ascii_lower(s).len() == s.len(),
        'A' <= s[i] <= 'Z' ==> ascii_lower(s)[i] as u32 == s[i] as u32 + 32,
        !('A' <= s[i] <= 'Z') ==> ascii_lower(s)[i] == s[i],
        folded(s) == ascii_lower(s),
    decreases s.len(),
{
    lemma_folded(s);
    let n = (s[i] as u32 + 32) as u32;
    if 'A' <= s[i] <= 'Z' {
        assert((n as char) as u32 == n);
    }
}

proof fn lemma_folded(s: Seq<char>)
    requires
        forall|k: int| 0 <= k < s.len() ==> #[trigger] s[k] != '\u{130}' && s[k] != '\u{212a}',
    ensures
        folded(s) == ascii_lower(s),
    decreases s.len(),
{
    if s.len() > 0 {
        let init = s.drop_last();
        assert forall|k: int| 0 <= k < init.len() implies #[trigger] init[k] != '\u{130}'
            && init[k] != '\u{212a}' by {
            assert(init[k] == s[k]);
        }
        lemma_folded(init);
        assert(s[s.len() - 1] == s.last());
        assert(folded(s) =~= ascii_lower(s));
    } else {
        assert(folded(s) =~= ascii_lower(s));
    }
}

/// A text begins with what it is put behind, ends with what is put behind it, and
/// holds what stands in its middle.
pub proof fn parts_are_found(a: Seq<char>, p: Seq<char>, b: Seq<char>)
    ensures
        has_prefix(p + b, p),
        has_suffix(a + p, p),
        has_substring(a + p + b, p),
{
    assert((p + b).take(p.len() as int) =~= p);
    assert((a + p).skip(a.len() as int) =~= p);
    assert((a + p + b).subrange(a.len() as int, a.len() as int + p.len()) =~= p);
    assert(occurs_at(a + p + b, p, a.len() as int));
}

/// The two signs outside of ASCII whose lower case holds an ASCII letter are folded to
/// it, wherever they stand.
pub proof fn signs_fold_to_their_letters(s: Seq<char>)
    ensures
        folded(s.push('\u{212a}')) == folded(s).push('k'),
        folded(s.push('\u{130}')) == folded(s).push('i').push('\u{307}'),
{
    assert(s.push('\u{212a}').drop_last() =~= s);
    assert(s.push('\u{130}').drop_last() =~= s);
    assert(folded(s.push('\u{212a}')) =~= folded(s).push('k'));
    assert(folded(s.push('\u{130}')) =~= folded(s).push('i').push('\u{307}'));
}

/// The arguments keep a tool of ffmpeg quiet: no banner, and nothing but errors.
pub open spec fn quiet(args: Seq<Seq<char>>) -> bool {
    args.len() > 2 && args[0] == "-hide_banner"@ && args[1] == "-loglevel"@ && args[2] == "error"@
}

} // verus!
