//! The dictionary order of text, by character codes, and sorting by it.
use vstd::prelude::*;

use crate::text::{to_chars, views};

verus! {

/// `a` comes before `b` in dictionary order, or is `b`.
pub open spec fn lex_le(a: Seq<char>, b: Seq<char>) -> bool
    decreases a.len(),
{
    if a.len() == 0 {
        true
    } else if b.len() == 0 {
        false
    } else if a[0] != b[0] {
        a[0] < b[0]
    } else {
        lex_le(a.skip(1), b.skip(1))
    }
}

/// `a` comes before `b` in dictionary order.
pub open spec fn lex_lt(a: Seq<char>, b: Seq<char>) -> bool {
    lex_le(a, b) && a != b
}

/// Every element comes before every later one.
pub open spec fn strictly_ascending(s: Seq<Seq<char>>) -> bool {
    forall|i: int, j: int| 0 <= i < j < s.len() ==> lex_lt(#[trigger] s[i], #[trigger] s[j])
}

/// No element comes after a later one.
pub open spec fn ascending(s: Seq<Seq<char>>) -> bool {
    forall|i: int, j: int| 0 <= i < j < s.len() ==> lex_le(#[trigger] s[i], #[trigger] s[j])
}

pub proof fn lemma_lex_refl(a: Seq<char>)
    ensures
        lex_le(a, a),
    decreases a.len(),
{
    if a.len() > 0 {
        lemma_lex_refl(a.skip(1));
    }
}

pub proof fn lemma_lex_total(a: Seq<char>, b: Seq<char>)
    ensures
        lex_le(a, b) || lex_le(b, a),
    decreases a.len(),
{
    if a.len() > 0 && b.len() > 0 && a[0] == b[0] {
        lemma_lex_total(a.skip(1), b.skip(1));
    }
}

pub proof fn lemma_lex_antisym(a: Seq<char>, b: Seq<char>)
    requires
        lex_le(a, b),
        lex_le(b, a),
    ensures
        a == b,
    decreases a.len(),
{
    if a.len() == 0 || b.len() == 0 {
        assert(a =~= b);
    } else {
        lemma_lex_antisym(a.skip(1), b.skip(1));
        assert(a =~= seq![a[0]] + a.skip(1));
        assert(b =~= seq![b[0]] + b.skip(1));
    }
}

pub proof fn lemma_lex_trans(a: Seq<char>, b: Seq<char>, c: Seq<char>)
    requires
        lex_le(a, b),
        lex_le(b, c),
    ensures
        lex_le(a, c),
    decreases a.len(),
{
    if a.len() > 0 && b.len() > 0 && c.len() > 0 && a[0] == b[0] && b[0] == c[0] {
        lemma_lex_trans(a.skip(1), b.skip(1), c.skip(1));
    }
}

/// A strict step before or after a weak one is a strict step.
pub proof fn lemma_lex_lt_trans(a: Seq<char>, b: Seq<char>, c: Seq<char>)
    requires
        lex_le(a, b),
        lex_le(b, c),
        a != b || b != c,
    ensures
        lex_lt(a, c),
{
    lemma_lex_trans(a, b, c);
    if a == c {
        lemma_lex_antisym(a, b);
    }
}

/// True when `a` comes before `b` in dictionary order, or is `b`.
pub fn str_le(a: &str, b: &str) -> (r: bool)
    ensures
        r == lex_le(a@, b@),
{
    let x = to_chars(a);
    let y = to_chars(b);
    let mut i: usize = 0;
    assert(x@.skip(0) =~= a@);
    assert(y@.skip(0) =~= b@);
    while i < x.len()
        invariant
            i <= x@.len(),
            i <= y@.len(),
            lex_le(x@.skip(i as int), y@.skip(i as int)) == lex_le(a@, b@),
        decreases x@.len() - i,
    {
        if i == y.len() {
            return false;
        }
        assert(x@.skip(i as int)[0] == x@[i as int]);
        assert(y@.skip(i as int)[0] == y@[i as int]);
        if x[i] != y[i] {
            return x[i] < y[i];
        }
        assert(x@.skip(i as int).skip(1) =~= x@.skip(i + 1));
        assert(y@.skip(i as int).skip(1) =~= y@.skip(i + 1));
        i += 1;
    }
    true
}

/// The strings of `v` in dictionary order.
pub fn sort_strings(v: Vec<String>) -> (r: Vec<String>)
    ensures
        ascending(views(r@)),
        views(r@).to_multiset() == views(v@).to_multiset(),
        r@.len() == v@.len(),
{
    let mut v = v;
    let ghost original = v@;
    let mut i: usize = 0;
    proof {
        broadcast use vstd::seq_lib::group_to_multiset_ensures;

    }
    while i < v.len()
        invariant
            i <= v@.len(),
            v@.len() == original.len(),
            views(v@).to_multiset() == views(original).to_multiset(),
            ascending(views(v@).take(i as int)),
        decreases v@.len() - i,
    {
        let mut j: usize = i;
        assert forall|a: int, b: int| 0 <= a < b <= i && b != j implies lex_le(
            #[trigger] views(v@)[a],
            #[trigger] views(v@)[b],
        ) by {
            assert(views(v@).take(i as int)[a] == views(v@)[a]);
            assert(views(v@).take(i as int)[b] == views(v@)[b]);
        }
        while j > 0 && !str_le(v[j - 1].as_str(), v[j].as_str())
            invariant
                j <= i < v@.len(),
                v@.len() == original.len(),
                views(v@).to_multiset() == views(original).to_multiset(),
                forall|a: int, b: int|
                    0 <= a < b <= i && b != j ==> lex_le(
                        #[trigger] views(v@)[a],
                        #[trigger] views(v@)[b],
                    ),
            decreases j,
        {
            let ghost before = v@;
            proof {
                lemma_lex_total(v@[j - 1]@, v@[j as int]@);
            }
            let upper = v[j].clone();
            let lower = v[j - 1].clone();
            v.set(j, lower);
            v.set(j - 1, upper);
            proof {
                broadcast use vstd::seq_lib::group_to_multiset_ensures;

                let old_views = views(before);
                let mid_views = old_views.update(j as int, old_views[j - 1]);
                vstd::seq_lib::to_multiset_update(old_views, j as int, old_views[j - 1]);
                vstd::seq_lib::to_multiset_update(mid_views, j - 1, old_views[j as int]);
                assert(views(v@) =~= mid_views.update(j - 1, old_views[j as int]));
                assert(views(v@).to_multiset() =~= old_views.to_multiset());
            }
            j -= 1;
            assert forall|a: int, b: int| 0 <= a < b <= i && b != j implies lex_le(
                #[trigger] views(v@)[a],
                #[trigger] views(v@)[b],
            ) by {
                let old_a = if a == j {
                    j + 1
                } else if a == j + 1 {
                    j as int
                } else {
                    a
                };
                let old_b = if b == j + 1 {
                    j as int
                } else {
                    b
                };
                assert(views(v@)[a] == views(before)[old_a]);
                assert(views(v@)[b] == views(before)[old_b]);
                if a == j && b == j + 1 {
                } else {
                    assert(lex_le(views(before)[old_a], views(before)[old_b]));
                }
            }
        }
        i += 1;
        assert forall|a: int, b: int| 0 <= a < b < i implies lex_le(
            #[trigger] views(v@).take(i as int)[a],
            #[trigger] views(v@).take(i as int)[b],
        ) by {
            if b != j {
                assert(lex_le(views(v@)[a], views(v@)[b]));
            } else {
                assert(lex_le(views(v@)[j - 1], views(v@)[j as int]));
                if a < j - 1 {
                    assert(lex_le(views(v@)[a], views(v@)[j - 1]));
                    lemma_lex_trans(views(v@)[a], views(v@)[j - 1], views(v@)[j as int]);
                }
            }
        }
    }
    assert(views(v@).take(i as int) =~= views(v@));
    v
}

/// The first character in which two texts differ decides which of them comes first, and
/// a text comes before those that go on where it ends.
pub proof fn the_first_difference_decides(
    a: Seq<char>,
    x: char,
    y: char,
    b: Seq<char>,
    c: Seq<char>,
)
    requires
        x < y,
    ensures
        lex_lt(a + (seq![x] + b), a + (seq![y] + c)),
        !lex_le(a + (seq![y] + c), a + (seq![x] + b)),
        lex_lt(a, a + (seq![x] + b)),
        !lex_le(a + (seq![x] + b), a),
    decreases a.len(),
{
    let s = a + (seq![x] + b);
    let t = a + (seq![y] + c);
    assert(s[a.len() as int] == x);
    assert(t[a.len() as int] == y);
    if a.len() == 0 {
        assert(s =~= seq![x] + b);
        assert(t =~= seq![y] + c);
    } else {
        let rest = a.skip(1);
        the_first_difference_decides(rest, x, y, b, c);
        assert(s.skip(1) =~= rest + (seq![x] + b));
        assert(t.skip(1) =~= rest + (seq![y] + c));
        assert(s[0] == a[0] && t[0] == a[0]);
    }
}

} // verus!
