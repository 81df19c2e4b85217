//! An association list keyed by strings, and the map it stands for.

use vstd::prelude::*;

verus! {

/// The map that a list of distinct keys and a list of values of the same
/// length stand for: the key at position `i` is bound to the value at `i`.
pub open spec fn assoc_map<K, T>(keys: Seq<K>, vals: Seq<T>) -> Map<K, T> {
    Map::new(|k: K| keys.contains(k), |k: K| vals[keys.index_of(k)])
}

/// With distinct keys, the position of a key is the one place where it stands.
pub proof fn lemma_index_of_unique<K>(keys: Seq<K>, i: int)
    requires
        keys.no_duplicates(),
        0 <= i < keys.len(),
    ensures
        keys.contains(keys[i]),
        keys.index_of(keys[i]) == i,
{
    let j = keys.index_of(keys[i]);
    assert(0 <= j < keys.len() && keys[j] == keys[i]);
}

/// The key at position `i` is bound to the value at position `i`.
pub proof fn lemma_assoc_at<K, T>(keys: Seq<K>, vals: Seq<T>, i: int)
    requires
        keys.no_duplicates(),
        keys.len() == vals.len(),
        0 <= i < keys.len(),
    ensures
        assoc_map(keys, vals).contains_key(keys[i]),
        assoc_map(keys, vals)[keys[i]] == vals[i],
{
    lemma_index_of_unique(keys, i);
}

/// Appending a binding for a new key inserts it into the map.
pub proof fn lemma_assoc_push<K, T>(keys: Seq<K>, vals: Seq<T>, k: K, v: T)
    requires
        keys.no_duplicates(),
        keys.len() == vals.len(),
        !keys.contains(k),
    ensures
        keys.push(k).no_duplicates(),
        assoc_map(keys.push(k), vals.push(v)) == assoc_map(keys, vals).insert(k, v),
{
    let keys2 = keys.push(k);
    let vals2 = vals.push(v);
    assert forall|i: int, j: int| 0 <= i < keys2.len() && 0 <= j < keys2.len() && i != j implies keys2[i]
        != keys2[j] by {
        if i < keys.len() && j < keys.len() {
        } else if i < keys.len() {
            assert(keys.contains(keys[i]));
        } else {
            assert(keys.contains(keys[j]));
        }
    }
    assert forall|q: K| #[trigger] keys2.contains(q) <==> (keys.contains(q) || q == k) by {
        if keys.contains(q) {
            let i = keys.index_of(q);
            assert(keys2[i] == q);
        }
        if q == k {
            assert(keys2[keys.len() as int] == k);
        }
        if keys2.contains(q) {
            let i = keys2.index_of(q);
            if i < keys.len() {
                assert(keys[i] == q);
            }
        }
    }
    assert forall|q: K| keys2.contains(q) implies #[trigger] assoc_map(keys2, vals2)[q] == assoc_map(
        keys,
        vals,
    ).insert(k, v)[q] by {
        let i = keys2.index_of(q);
        lemma_index_of_unique(keys2, i);
        if i < keys.len() {
            lemma_index_of_unique(keys, i);
        }
    }
    assert(assoc_map(keys2, vals2) =~= assoc_map(keys, vals).insert(k, v));
}

/// Replacing the value at position `i` rebinds the key at `i`.
pub proof fn lemma_assoc_update<K, T>(keys: Seq<K>, vals: Seq<T>, i: int, v: T)
    requires
        keys.no_duplicates(),
        keys.len() == vals.len(),
        0 <= i < keys.len(),
    ensures
        assoc_map(keys, vals.update(i, v)) == assoc_map(keys, vals).insert(keys[i], v),
{
    lemma_index_of_unique(keys, i);
    assert forall|q: K| keys.contains(q) implies #[trigger] assoc_map(keys, vals.update(i, v))[q]
        == assoc_map(keys, vals).insert(keys[i], v)[q] by {
        let j = keys.index_of(q);
        lemma_index_of_unique(keys, j);
    }
    assert(assoc_map(keys, vals.update(i, v)) =~= assoc_map(keys, vals).insert(keys[i], v));
}

/// Taking out position `i` removes the key at `i` from the map.
pub proof fn lemma_assoc_remove<K, T>(keys: Seq<K>, vals: Seq<T>, i: int)
    requires
        keys.no_duplicates(),
        keys.len() == vals.len(),
        0 <= i < keys.len(),
    ensures
        keys.remove(i).no_duplicates(),
        !keys.remove(i).contains(keys[i]),
        assoc_map(keys.remove(i), vals.remove(i)) == assoc_map(keys, vals).remove(keys[i]),
{
    let keys2 = keys.remove(i);
    let vals2 = vals.remove(i);
    assert forall|a: int| 0 <= a < keys2.len() implies #[trigger] keys2[a] == keys[if a < i {
        a
    } else {
        a + 1
    }] by {}
    assert forall|a: int, b: int| 0 <= a < keys2.len() && 0 <= b < keys2.len() && a != b implies keys2[a]
        != keys2[b] by {}
    if keys2.contains(keys[i]) {
        let a = keys2.index_of(keys[i]);
        assert(keys2[a] == keys[i]);
    }
    assert forall|q: K| #[trigger] keys2.contains(q) <==> (keys.contains(q) && q != keys[i]) by {
        if keys.contains(q) && q != keys[i] {
            let j = keys.index_of(q);
            if j < i {
                assert(keys2[j] == q);
            } else {
                assert(keys2[j - 1] == q);
            }
        }
        if keys2.contains(q) {
            let a = keys2.index_of(q);
            assert(keys2[a] == q);
            assert(keys[if a < i { a } else { a + 1 }] == q);
        }
    }
    assert forall|q: K| keys2.contains(q) implies #[trigger] assoc_map(keys2, vals2)[q] == assoc_map(
        keys,
        vals,
    ).remove(keys[i])[q] by {
        let a = keys2.index_of(q);
        lemma_index_of_unique(keys2, a);
        let j = if a < i { a } else { a + 1 };
        assert(keys[j] == q);
        lemma_index_of_unique(keys, j);
    }
    assert(assoc_map(keys2, vals2) =~= assoc_map(keys, vals).remove(keys[i]));
}

/// Whether two strings hold the same characters.
pub fn same_text(a: &str, b: &str) -> (same: bool)
    ensures
        same == (a@ == b@),
{
    let x = a.as_bytes();
    let y = b.as_bytes();
    if x.len() != y.len() {
        return false;
    }
    let mut i: usize = 0;
    while i < x.len()
        invariant
            0 <= i <= x.len(),
            x.len() == y.len(),
            x@ == vstd::utf8::encode_utf8(a@),
            y@ == vstd::utf8::encode_utf8(b@),
            forall|j: int| 0 <= j < i ==> x@[j] == y@[j],
        decreases x.len() - i,
    {
        if x[i] != y[i] {
            assert(x@[i as int] != y@[i as int]);
            return false;
        }
        i += 1;
    }
    proof {
        assert(x@ =~= y@);
        vstd::utf8::encode_utf8_decode_utf8(a@);
        vstd::utf8::encode_utf8_decode_utf8(b@);
    }
    true
}

/// One binding of a [`Table`].
#[derive(Clone, Debug)]
pub struct Slot<V> {
    key: String,
    value: V,
}

/// A list of bindings from strings to values, in the order of insertion.
///
/// A well-formed table binds no key twice, so it stands for a map.
#[derive(Clone, Debug)]
pub struct Table<V> {
    slots: Vec<Slot<V>>,
}

impl<V> Table<V> {
    /// The keys, in order.
    pub closed spec fn keys(&self) -> Seq<Seq<char>> {
        Seq::new(self.slots@.len(), |i: int| self.slots@[i].key@)
    }

    /// The values, in the order of their keys.
    pub closed spec fn values(&self) -> Seq<V> {
        Seq::new(self.slots@.len(), |i: int| self.slots@[i].value)
    }

    /// No key is bound twice.
    pub open spec fn wf(&self) -> bool {
        self.keys().no_duplicates()
    }

    /// There are as many values as keys.
    pub proof fn lemma_same_length(&self)
        ensures
            self.keys().len() == self.values().len(),
    {
    }

    /// The map from each key to its value.
    pub open spec fn bindings(&self) -> Map<Seq<char>, V> {
        assoc_map(self.keys(), self.values())
    }

    /// The table without bindings.
    pub fn new() -> (table: Self)
        ensures
            table.wf(),
            table.keys() == Seq::<Seq<char>>::empty(),
            table.values() == Seq::<V>::empty(),
    {
        let table = Table { slots: Vec::new() };
        assert(table.keys() =~= Seq::<Seq<char>>::empty());
        assert(table.values() =~= Seq::<V>::empty());
        table
    }

    /// The number of bindings.
    pub fn len(&self) -> (n: usize)
        ensures
            n == self.keys().len(),
            n == self.values().len(),
    {
        self.slots.len()
    }

    /// The key at position `i`.
    pub fn key_at(&self, i: usize) -> (key: &String)
        requires
            i < self.keys().len(),
        ensures
            key@ == self.keys()[i as int],
    {
        &self.slots[i].key
    }

    /// The value at position `i`.
    pub fn value_at(&self, i: usize) -> (value: &V)
        requires
            i < self.keys().len(),
        ensures
            *value == self.values()[i as int],
    {
        &self.slots[i].value
    }

    /// The position of `key`, if it is bound.
    pub fn find(&self, key: &str) -> (found: Option<usize>)
        ensures
            match found {
                Some(i) => i < self.keys().len() && self.keys()[i as int] == key@,
                None => !self.keys().contains(key@),
            },
    {
        let mut i: usize = 0;
        while i < self.slots.len()
            invariant
                0 <= i <= self.slots@.len(),
                forall|j: int| 0 <= j < i ==> self.keys()[j] != key@,
            decreases self.slots@.len() - i,
        {
            if same_text(self.slots[i].key.as_str(), key) {
                return Some(i);
            }
            i += 1;
        }
        None
    }

    /// The value bound to `key`, if there is one.
    pub fn get(&self, key: &str) -> (value: Option<&V>)
        requires
            self.wf(),
        ensures
            match value {
                Some(v) => self.bindings().contains_key(key@) && *v == self.bindings()[key@],
                None => !self.bindings().contains_key(key@),
            },
    {
        match self.find(key) {
            Some(i) => {
                proof {
                    lemma_assoc_at(self.keys(), self.values(), i as int);
                }
                Some(&self.slots[i].value)
            },
            None => None,
        }
    }

    /// Binds `key` to `value`: in place where the key is bound already, at the
    /// end where it is new.
    pub fn insert(&mut self, key: String, value: V)
        requires
            old(self).wf(),
        ensures
            final(self).wf(),
            old(self).keys().contains(key@) ==> final(self).keys() == old(self).keys()
                && final(self).values() == old(self).values().update(
                old(self).keys().index_of(key@),
                value,
            ),
            !old(self).keys().contains(key@) ==> final(self).keys() == old(self).keys().push(key@)
                && final(self).values() == old(self).values().push(value),
            final(self).bindings() == old(self).bindings().insert(key@, value),
    {
        let ghost keys = self.keys();
        let ghost vals = self.values();
        match self.find(key.as_str()) {
            Some(i) => {
                proof {
                    lemma_index_of_unique(keys, i as int);
                    lemma_assoc_update(keys, vals, i as int, value);
                }
                self.slots.set(i, Slot { key, value });
                assert(self.keys() =~= keys);
                assert(self.values() =~= vals.update(i as int, value));
            },
            None => {
                proof {
                    lemma_assoc_push(keys, vals, key@, value);
                }
                self.slots.push(Slot { key, value });
                assert(self.keys() =~= keys.push(key@));
                assert(self.values() =~= vals.push(value));
            },
        }
    }

    /// Takes out the binding at position `i` and hands back its value.
    pub fn remove_at(&mut self, i: usize) -> (value: V)
        requires
            old(self).wf(),
            i < old(self).keys().len(),
        ensures
            final(self).wf(),
            value == old(self).values()[i as int],
            final(self).keys() == old(self).keys().remove(i as int),
            final(self).values() == old(self).values().remove(i as int),
            final(self).bindings() == old(self).bindings().remove(old(self).keys()[i as int]),
    {
        let ghost keys = self.keys();
        let ghost vals = self.values();
        proof {
            lemma_assoc_remove(keys, vals, i as int);
        }
        let slot = self.slots.remove(i);
        assert(self.keys() =~= keys.remove(i as int));
        assert(self.values() =~= vals.remove(i as int));
        slot.value
    }
}

} // verus!
