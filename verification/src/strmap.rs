//! A map with text keys, kept in the dictionary order of its keys.
use vstd::prelude::*;

use crate::order::{lemma_lex_antisym, lemma_lex_lt_trans, lemma_lex_total, lex_le, lex_lt, str_le,
    strictly_ascending};
use crate::text::str_eq;

verus! {

/// A map from text to values. Its keys are in dictionary order, none twice.
#[derive(Debug)]
pub struct StrMap<V> {
    entries: Vec<(String, V)>,
}

impl<V> StrMap<V> {
    /// The keys, in dictionary order.
    pub closed spec fn keys(self) -> Seq<Seq<char>> {
        Seq::new(self.entries@.len(), |i: int| self.entries@[i].0@)
    }

    /// The values, in the order of their keys.
    pub closed spec fn values(self) -> Seq<V> {
        Seq::new(self.entries@.len(), |i: int| self.entries@[i].1)
    }

    #[verifier::type_invariant]
    spec fn keys_ascend(self) -> bool {
        strictly_ascending(self.keys())
    }
}

impl<V> View for StrMap<V> {
    type V = Map<Seq<char>, V>;

    open spec fn view(&self) -> Map<Seq<char>, V> {
        Map::new(
            |k: Seq<char>| self.keys().contains(k),
            |k: Seq<char>| self.values()[self.keys().index_of(k)],
        )
    }
}

impl<V> StrMap<V> {
    /// The keys are in dictionary order, none twice, and each has a value.
    /// This holds of every map.
    pub open spec fn well_formed(self) -> bool {
        &&& strictly_ascending(self.keys())
        &&& self.values().len() == self.keys().len()
    }

    pub fn new() -> (r: Self)
        ensures
            r.keys().len() == 0,
            r.well_formed(),
            r@ == Map::<Seq<char>, V>::empty(),
    {
        let r = StrMap { entries: Vec::new() };
        assert(r@ =~= Map::<Seq<char>, V>::empty());
        r
    }

    pub fn len(&self) -> (r: usize)
        ensures
            r == self.keys().len(),
            self.well_formed(),
    {
        proof {
            use_type_invariant(self);
        }
        self.entries.len()
    }

    pub fn is_empty(&self) -> (r: bool)
        ensures
            r == (self.keys().len() == 0),
            self.well_formed(),
    {
        self.len() == 0
    }

    /// The key at position `i` of the dictionary order.
    pub fn key_at(&self, i: usize) -> (r: &String)
        requires
            i < self.keys().len(),
        ensures
            r@ == self.keys()[i as int],
    {
        &self.entries[i].0
    }

    /// The value at position `i` of the dictionary order of the keys.
    pub fn value_at(&self, i: usize) -> (r: &V)
        requires
            i < self.keys().len(),
        ensures
            *r == self.values()[i as int],
    {
        &self.entries[i].1
    }

    /// The position of the first key that does not come before `key`.
    fn position(&self, key: &str) -> (r: usize)
        ensures
            r <= self.entries@.len(),
            forall|i: int| 0 <= i < r ==> lex_lt(#[trigger] self.keys()[i], key@),
            forall|i: int| r <= i < self.entries@.len() ==> lex_le(key@, #[trigger] self.keys()[i]),
    {
        proof {
            use_type_invariant(self);
        }
        let mut i: usize = 0;
        while i < self.entries.len() && !str_le(key, self.entries[i].0.as_str())
            invariant
                i <= self.entries@.len(),
                forall|k: int| 0 <= k < i ==> lex_lt(#[trigger] self.keys()[k], key@),
            decreases self.entries@.len() - i,
        {
            proof {
                lemma_lex_total(key@, self.entries@[i as int].0@);
                assert(self.keys()[i as int] == self.entries@[i as int].0@);
                crate::order::lemma_lex_refl(key@);
            }
            i += 1;
        }
        assert forall|k: int| i <= k < self.entries@.len() implies lex_le(
            key@,
            #[trigger] self.keys()[k],
        ) by {
            assert(self.keys()[i as int] == self.entries@[i as int].0@);
            if k > i {
                lemma_lex_lt_trans(key@, self.keys()[i as int], self.keys()[k]);
            }
        }
        i
    }

    /// The value of `key`.
    pub fn get(&self, key: &str) -> (r: Option<&V>)
        ensures
            match r {
                Some(v) => self@.contains_key(key@) && *v == self@[key@],
                None => !self@.contains_key(key@),
            },
            self.well_formed(),
    {
        proof {
            use_type_invariant(self);
        }
        let i: usize = self.position(key);
        if i < self.entries.len() && str_eq(self.entries[i].0.as_str(), key) {
            assert(self.keys()[i as int] == key@);
            proof {
                let k = self.keys().index_of(key@);
                assert(self.keys()[k] == key@);
                if k < i {
                    assert(lex_lt(self.keys()[k], self.keys()[i as int]));
                } else if k > i {
                    assert(lex_lt(self.keys()[i as int], self.keys()[k]));
                }
            }
            Some(&self.entries[i].1)
        } else {
            proof {
                if self.keys().contains(key@) {
                    let k = self.keys().index_of(key@);
                    assert(self.keys()[k] == key@);
                    if k < i {
                        assert(lex_lt(self.keys()[k], key@));
                    } else {
                        assert(self.keys()[i as int] == self.entries@[i as int].0@);
                        assert(lex_le(key@, self.keys()[i as int]));
                        if k > i {
                            lemma_lex_antisym(key@, self.keys()[i as int]);
                        }
                    }
                }
            }
            None
        }
    }

    pub fn contains_key(&self, key: &str) -> (r: bool)
        ensures
            r == self@.contains_key(key@),
            self.well_formed(),
    {
        match self.get(key) {
            Some(_) => true,
            None => false,
        }
    }

    /// Gives `key` the value `value`, in place of the one it had.
    pub fn insert(&mut self, key: String, value: V)
        ensures
            final(self)@ == old(self)@.insert(key@, value),
            final(self).well_formed(),
    {
        proof {
            use_type_invariant(&*self);
        }
        let i: usize = self.position(key.as_str());
        let ghost before = *self;
        let ghost k = key@;
        let mut entries: Vec<(String, V)> = Vec::new();
        std::mem::swap(&mut entries, &mut self.entries);
        if i < entries.len() && str_eq(entries[i].0.as_str(), key.as_str()) {
            entries.set(i, (key, value));
            proof {
                let after = StrMap { entries };
                assert(before.keys()[i as int] == k);
                assert(after.keys() =~= before.keys());
                assert(after.values() =~= before.values().update(i as int, value));
                lemma_same_keys(before.keys(), before.values(), after.values(), i as int);
            }
        } else {
            let ghost old_keys = before.keys();
            entries.insert(i, (key, value));
            proof {
                let after = StrMap { entries };
                assert(after.keys() =~= old_keys.insert(i as int, k));
                assert(after.values() =~= before.values().insert(i as int, value));
                if i < old_keys.len() {
                    assert(old_keys[i as int] == before.entries@[i as int].0@);
                }
                lemma_inserted(old_keys, before.values(), i as int, k, value);
            }
        }
        self.entries = entries;
    }
}

/// The map that lists of keys and values stand for.
spec fn as_map<V>(keys: Seq<Seq<char>>, values: Seq<V>) -> Map<Seq<char>, V> {
    Map::new(|k: Seq<char>| keys.contains(k), |k: Seq<char>| values[keys.index_of(k)])
}

/// In a strictly ascending list a key stands at one position only.
proof fn lemma_index(keys: Seq<Seq<char>>, i: int)
    requires
        strictly_ascending(keys),
        0 <= i < keys.len(),
    ensures
        keys.contains(keys[i]),
        keys.index_of(keys[i]) == i,
{
    let j = keys.index_of(keys[i]);
    assert(keys[j] == keys[i]);
    if j < i {
        assert(lex_lt(keys[j], keys[i]));
    } else if j > i {
        assert(lex_lt(keys[i], keys[j]));
    }
}

proof fn lemma_same_keys<V>(keys: Seq<Seq<char>>, before: Seq<V>, after: Seq<V>, i: int)
    requires
        strictly_ascending(keys),
        0 <= i < keys.len(),
        before.len() == keys.len(),
        after == before.update(i, after[i]),
    ensures
        as_map(keys, after) == as_map(keys, before).insert(keys[i], after[i]),
{
    let a = as_map(keys, after);
    let b = as_map(keys, before).insert(keys[i], after[i]);
    lemma_index(keys, i);
    assert forall|k: Seq<char>| keys.contains(k) implies a[k] == b[k] by {
        let j = keys.index_of(k);
        assert(keys[j] == k);
        lemma_index(keys, j);
    }
    assert(a =~= b);
}

proof fn lemma_inserted<V>(keys: Seq<Seq<char>>, values: Seq<V>, i: int, key: Seq<char>, value: V)
    requires
        strictly_ascending(keys),
        values.len() == keys.len(),
        0 <= i <= keys.len(),
        forall|j: int| 0 <= j < i ==> lex_lt(#[trigger] keys[j], key),
        forall|j: int| i <= j < keys.len() ==> lex_le(key, #[trigger] keys[j]),
        i < keys.len() ==> keys[i] != key,
    ensures
        strictly_ascending(keys.insert(i, key)),
        as_map(keys.insert(i, key), values.insert(i, value)) == as_map(keys, values).insert(
            key,
            value,
        ),
{
    let keys2 = keys.insert(i, key);
    let values2 = values.insert(i, value);
    assert forall|a: int, b: int| 0 <= a < b < keys2.len() implies lex_lt(
        #[trigger] keys2[a],
        #[trigger] keys2[b],
    ) by {
        if a == i {
            assert(keys2[b] == keys[b - 1]);
            if b - 1 > i {
                lemma_lex_lt_trans(key, keys[i], keys[b - 1]);
            }
        } else if b == i {
            assert(keys2[a] == keys[a]);
        } else {
            let x = if a < i {
                a
            } else {
                a - 1
            };
            let y = if b < i {
                b
            } else {
                b - 1
            };
            assert(keys2[a] == keys[x]);
            assert(keys2[b] == keys[y]);
        }
    }
    let m = as_map(keys2, values2);
    let n = as_map(keys, values).insert(key, value);
    assert forall|k: Seq<char>| m.contains_key(k) == #[trigger] n.contains_key(k) by {
        if keys2.contains(k) {
            let j = keys2.index_of(k);
            assert(keys2[j] == k);
            if j < i {
                assert(keys[j] == k);
            } else if j > i {
                assert(keys[j - 1] == k);
            }
        }
        if keys.contains(k) {
            let j = keys.index_of(k);
            assert(keys[j] == k);
            assert(keys2[if j < i { j } else { j + 1 }] == k);
        }
        assert(keys2[i] == key);
    }
    assert forall|k: Seq<char>| #[trigger] m.contains_key(k) implies m[k] == n[k] by {
        let j = keys2.index_of(k);
        assert(keys2[j] == k);
        lemma_index(keys2, j);
        if j == i {
        } else {
            let x = if j < i {
                j
            } else {
                j - 1
            };
            assert(keys[x] == k);
            lemma_index(keys, x);
            assert(keys2[i] == key);
            lemma_index(keys2, i);
        }
    }
    assert(m =~= n);
}

} // verus!
