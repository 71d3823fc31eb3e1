//! Paths as text: joining them, and the parts of a file name.
use vstd::prelude::*;

use crate::text::{from_chars, plus, to_chars};

verus! {

/// `name` inside the directory `base`. An absolute `name` stands for itself.
pub open spec fn joined_path(base: Seq<char>, name: Seq<char>) -> Seq<char> {
    if name.len() > 0 && name[0] == '/' {
        name
    } else if base.len() == 0 || base.last() == '/' {
        base + name
    } else {
        base + seq!['/'] + name
    }
}

pub fn join_path(base: &str, name: &str) -> (r: String)
    ensures
        r@ == joined_path(base@, name@),
{
    let b = to_chars(base);
    let n = to_chars(name);
    if n.len() > 0 && n[0] == '/' {
        return name.to_owned();
    }
    let mut r = base.to_owned();
    if b.len() > 0 && b[b.len() - 1] != '/' {
        r.push('/');
        assert(r@ =~= base@ + seq!['/']);
    }
    plus(r, name)
}

/// The position behind the last `c` of `s`, or zero.
pub open spec fn after_last(s: Seq<char>, c: char) -> int
    decreases s.len(),
{
    if s.len() == 0 || s.last() == c {
        s.len() as int
    } else {
        after_last(s.drop_last(), c)
    }
}

/// `path` without slashes at its end.
pub open spec fn without_slashes(path: Seq<char>) -> Seq<char>
    decreases path.len(),
{
    if path.len() > 0 && path.last() == '/' {
        without_slashes(path.drop_last())
    } else {
        path
    }
}

/// The last part of a path; none where the path ends in the root, or in a part
/// that only stands for another directory.
pub open spec fn file_name_of(path: Seq<char>) -> Option<Seq<char>> {
    let p = without_dot_parts(path);
    let name = p.skip(after_last(p, '/'));
    if name.len() == 0 || name == ".."@ || name == "."@ {
        None
    } else {
        Some(name)
    }
}

/// `path` without slashes and without parts that stand for the directory itself
/// at its end.
pub open spec fn without_dot_parts(path: Seq<char>) -> Seq<char>
    decreases path.len(),
    via without_dot_parts_decreases
{
    let p = without_slashes(path);
    if p.len() > 1 && p.last() == '.' && p[p.len() - 2] == '/' {
        without_dot_parts(p.drop_last())
    } else {
        p
    }
}

#[via_fn]
proof fn without_dot_parts_decreases(path: Seq<char>) {
    lemma_without_slashes(path);
}

proof fn lemma_without_slashes(path: Seq<char>)
    ensures
        without_slashes(path).len() <= path.len(),
        without_slashes(path) == path.take(without_slashes(path).len() as int),
    decreases path.len(),
{
    if path.len() > 0 && path.last() == '/' {
        lemma_without_slashes(path.drop_last());
        assert(path.drop_last().take(without_slashes(path).len() as int) =~= path.take(
            without_slashes(path).len() as int,
        ));
    } else {
        assert(path.take(path.len() as int) =~= path);
    }
}

/// A file name without its extension: the part before the last dot, unless the
/// name begins with that dot.
pub open spec fn stem_of_name(name: Seq<char>) -> Seq<char> {
    let i = after_last(name, '.');
    if i <= 1 || name == ".."@ {
        name
    } else {
        name.take(i - 1)
    }
}

/// The extension of a file name: what stands behind the last dot, unless the
/// name begins with that dot.
pub open spec fn extension_of_name(name: Seq<char>) -> Option<Seq<char>> {
    let i = after_last(name, '.');
    if i <= 1 || name == ".."@ {
        None
    } else {
        Some(name.skip(i))
    }
}

fn find_after_last(chars: &Vec<char>, end: usize, c: char) -> (r: usize)
    requires
        end <= chars@.len(),
    ensures
        r <= end,
        r == after_last(chars@.take(end as int), c),
{
    let mut i: usize = end;
    while i > 0 && chars[i - 1] != c
        invariant
            i <= end <= chars@.len(),
            after_last(chars@.take(end as int), c) == after_last(chars@.take(i as int), c),
        decreases i,
    {
        assert(chars@.take(i as int).drop_last() =~= chars@.take(i - 1));
        assert(chars@.take(i as int).last() == chars@[i - 1]);
        i -= 1;
    }
    if i > 0 {
        assert(chars@.take(i as int).last() == chars@[i - 1]);
    }
    i
}

fn end_without_slashes(chars: &Vec<char>, end: usize) -> (r: usize)
    requires
        end <= chars@.len(),
    ensures
        r <= end,
        chars@.take(r as int) == without_slashes(chars@.take(end as int)),
        r > 0 ==> chars@[r - 1] != '/',
{
    let mut i: usize = end;
    while i > 0 && chars[i - 1] == '/'
        invariant
            i <= end <= chars@.len(),
            without_slashes(chars@.take(end as int)) == without_slashes(chars@.take(i as int)),
        decreases i,
    {
        assert(chars@.take(i as int).drop_last() =~= chars@.take(i - 1));
        assert(chars@.take(i as int).last() == chars@[i - 1]);
        i -= 1;
    }
    if i > 0 {
        assert(chars@.take(i as int).last() == chars@[i - 1]);
    }
    i
}

/// The last part of a path.
pub fn file_name(path: &str) -> (r: Option<String>)
    ensures
        crate::text::opt_view(r) == file_name_of(path@),
{
    let chars = to_chars(path);
    let mut end: usize = chars.len();
    assert(chars@.take(end as int) =~= chars@);
    let mut trimmed: usize = end_without_slashes(&chars, end);
    while trimmed > 1 && chars[trimmed - 1] == '.' && chars[trimmed - 2] == '/'
        invariant
            trimmed <= end <= chars@.len(),
            chars@.take(trimmed as int) == without_slashes(chars@.take(end as int)),
            without_dot_parts(chars@) == without_dot_parts(chars@.take(end as int)),
        decreases trimmed,
    {
        let ghost p = chars@.take(trimmed as int);
        assert(p.last() == '.' && p[p.len() - 2] == '/');
        assert(p.drop_last() =~= chars@.take(trimmed - 1));
        end = trimmed - 1;
        trimmed = end_without_slashes(&chars, end);
    }
    let ghost p = chars@.take(trimmed as int);
    assert(without_dot_parts(chars@) == p) by {
        if p.len() > 1 {
            assert(p.last() == chars@[trimmed - 1]);
            assert(p[p.len() - 2] == chars@[trimmed - 2]);
        }
    }
    let from: usize = find_after_last(&chars, trimmed, '/');
    let name = from_chars(&chars, from, trimmed);
    assert(name@ =~= p.skip(from as int));
    if from == trimmed || crate::text::str_eq(name.as_str(), "..") || crate::text::str_eq(
        name.as_str(),
        ".",
    ) {
        None
    } else {
        Some(name)
    }
}

/// A file name without its extension.
pub fn name_stem(name: &str) -> (r: String)
    ensures
        r@ == stem_of_name(name@),
{
    let chars = to_chars(name);
    assert(chars@.take(chars@.len() as int) =~= chars@);
    let i: usize = find_after_last(&chars, chars.len(), '.');
    if i <= 1 || crate::text::str_eq(name, "..") {
        name.to_owned()
    } else {
        let r = from_chars(&chars, 0, i - 1);
        assert(r@ =~= name@.take(i - 1));
        r
    }
}

/// The extension of a file name.
pub fn name_extension(name: &str) -> (r: Option<String>)
    ensures
        crate::text::opt_view(r) == extension_of_name(name@),
{
    let chars = to_chars(name);
    assert(chars@.take(chars@.len() as int) =~= chars@);
    let i: usize = find_after_last(&chars, chars.len(), '.');
    if i <= 1 || crate::text::str_eq(name, "..") {
        None
    } else {
        let r = from_chars(&chars, i, chars.len());
        assert(r@ =~= name@.skip(i as int));
        Some(r)
    }
}

proof fn lemma_after_last(s: Seq<char>, c: char)
    ensures
        0 <= after_last(s, c) <= s.len(),
        after_last(s, c) > 0 ==> s[after_last(s, c) - 1] == c,
        forall|i: int| after_last(s, c) <= i < s.len() ==> #[trigger] s[i] != c,
    decreases s.len(),
{
    if s.len() > 0 && s.last() != c {
        let init = s.drop_last();
        lemma_after_last(init, c);
        assert forall|i: int| after_last(s, c) <= i < s.len() implies #[trigger] s[i] != c by {
            if i < init.len() {
                assert(init[i] == s[i]);
            }
        }
    }
}

proof fn lemma_after_last_is(s: Seq<char>, c: char, n: int)
    requires
        0 <= n <= s.len(),
        n > 0 ==> s[n - 1] == c,
        forall|i: int| n <= i < s.len() ==> #[trigger] s[i] != c,
    ensures
        after_last(s, c) == n,
{
    lemma_after_last(s, c);
    let k = after_last(s, c);
    if k < n {
        assert(s[n - 1] != c);
    }
    if k > n {
        assert(s[k - 1] != c);
    }
}

/// A file in a directory has its own name there, below the directory: with one slash
/// between the two, unless the directory brings it.
pub proof fn files_lie_in_their_directory(dir: Seq<char>, name: Seq<char>)
    requires
        name.len() > 0,
        forall|i: int| 0 <= i < name.len() ==> #[trigger] name[i] != '/',
        name != "."@,
        name != ".."@,
    ensures
        file_name_of(joined_path(dir, name)) == Some(name),
        dir.len() > 0 && dir.last() != '/' ==> joined_path(dir, name) == dir + "/"@ + name,
        dir.len() == 0 ==> joined_path(dir, name) == name,
        dir.len() > 0 && dir.last() == '/' ==> joined_path(dir, name) == dir + name,
{
    reveal_strlit("/");
    reveal_strlit(".");
    let p = joined_path(dir, name);
    assert("/"@ =~= seq!['/']);
    assert(name[0] != '/');
    let at = p.len() - name.len();
    assert forall|i: int| at <= i < p.len() implies #[trigger] p[i] != '/' by {
        assert(p[i] == name[i - at]);
    }
    assert(p.skip(at) =~= name);
    assert(p.last() != '/');
    assert(without_slashes(p) == p);
    if p.len() > 1 && p.last() == '.' && p[p.len() - 2] == '/' {
        assert(name.len() == 1) by {
            if name.len() > 1 {
                assert(p[p.len() - 2] == name[name.len() - 2]);
            }
        }
        assert(name =~= "."@);
    }
    assert(without_dot_parts(p) == p);
    lemma_after_last_is(p, '/', at);
}

/// An absolute name stands for itself, in whatever directory.
pub proof fn absolute_names_stand_for_themselves(dir: Seq<char>, name: Seq<char>)
    requires
        name.len() > 0,
        name[0] == '/',
    ensures
        joined_path(dir, name) == name,
{
}

/// A name ends in its extension, which holds no dot and stands behind one; what stands
/// before that dot is the stem. A name without an extension is its stem.
pub proof fn names_are_stem_and_extension(name: Seq<char>)
    ensures
        match extension_of_name(name) {
            Some(e) => {
                &&& name == stem_of_name(name) + "."@ + e
                &&& stem_of_name(name).len() > 0
                &&& forall|i: int| 0 <= i < e.len() ==> #[trigger] e[i] != '.'
            },
            None => stem_of_name(name) == name,
        },
{
    reveal_strlit(".");
    lemma_after_last(name, '.');
    if let Some(e) = extension_of_name(name) {
        let i = after_last(name, '.');
        assert(name =~= name.take(i - 1) + "."@ + name.skip(i));
    }
}

/// What stands behind the last dot of a name is its extension, unless the name begins
/// with that dot; a name without a dot behind its first character has none.
pub proof fn extensions_stand_behind_the_last_dot(stem: Seq<char>, e: Seq<char>)
    requires
        stem.len() > 0,
        forall|i: int| 0 <= i < e.len() ==> #[trigger] e[i] != '.',
        stem + "."@ + e != ".."@,
    ensures
        extension_of_name(stem + "."@ + e) == Some(e),
        stem_of_name(stem + "."@ + e) == stem,
        extension_of_name(e) is None,
        extension_of_name("."@ + e) is None,
{
    reveal_strlit(".");
    let name = stem + "."@ + e;
    let n = stem.len() as int + 1;
    assert forall|i: int| n <= i < name.len() implies #[trigger] name[i] != '.' by {
        assert(name[i] == e[i - n]);
    }
    lemma_after_last_is(name, '.', n);
    assert(name.skip(n) =~= e);
    assert(name.take(n - 1) =~= stem);
    lemma_after_last_is(e, '.', 0);
    let hidden = "."@ + e;
    assert forall|i: int| 1 <= i < hidden.len() implies #[trigger] hidden[i] != '.' by {
        assert(hidden[i] == e[i - 1]);
    }
    lemma_after_last_is(hidden, '.', 1);
}

} // verus!
