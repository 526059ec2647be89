//! A map keyed by identity that keeps its entries in a fixed order.
//!
//! The model of such a map is a sequence of (key, value) pairs in which no
//! key stands twice. A key is the byte sequence of an identity.

use crate::identity::Identity;
use vstd::prelude::*;

verus! {

/// No key stands in two entries.
pub open spec fn distinct_keys<V>(entries: Seq<(Seq<u8>, V)>) -> bool {
    forall|i: int, j: int|
        0 <= i < j < entries.len() ==> (#[trigger] entries[i]).0 != (#[trigger] entries[j]).0
}

/// Some entry has this key.
pub open spec fn holds_key<V>(entries: Seq<(Seq<u8>, V)>, key: Seq<u8>) -> bool {
    exists|i: int| 0 <= i < entries.len() && (#[trigger] entries[i]).0 == key
}

/// The place of an entry with this key, where there is one.
pub open spec fn index_of_key<V>(entries: Seq<(Seq<u8>, V)>, key: Seq<u8>) -> int {
    choose|i: int| 0 <= i < entries.len() && (#[trigger] entries[i]).0 == key
}

/// The entries after a value was stored under a key: the entry with that key
/// is replaced where it stands, and a new key goes to the end.
pub open spec fn with_entry<V>(entries: Seq<(Seq<u8>, V)>, key: Seq<u8>, value: V) -> Seq<
    (Seq<u8>, V),
> {
    if holds_key(entries, key) {
        entries.update(index_of_key(entries, key), (key, value))
    } else {
        entries.push((key, value))
    }
}

/// The entries as a map from key to value.
pub open spec fn as_map<V>(entries: Seq<(Seq<u8>, V)>) -> Map<Seq<u8>, V> {
    Map::new(
        |key: Seq<u8>| holds_key(entries, key),
        |key: Seq<u8>| entries[index_of_key(entries, key)].1,
    )
}

/// The entries with each value replaced by its image under `f`.
pub open spec fn map_entry_values<V, W>(entries: Seq<(Seq<u8>, V)>, f: spec_fn(V) -> W) -> Seq<
    (Seq<u8>, W),
> {
    entries.map_values(|e: (Seq<u8>, V)| (e.0, f(e.1)))
}

/// Values stored under identities. Each identity has at most one value, and
/// the entries keep the order in which their keys first came.
pub struct IdentityMap<V> {
    entries: Vec<(Identity, V)>,
}

impl<V> IdentityMap<V> {
    /// The entries in their order, each key as its bytes.
    pub closed spec fn entries(&self) -> Seq<(Seq<u8>, V)> {
        self.entries@.map_values(|e: (Identity, V)| (e.0@, e.1))
    }

    /// The map is well formed: no identity is the key of two entries.
    pub open spec fn wf(&self) -> bool {
        distinct_keys(self.entries())
    }

    /// The map from key to value.
    pub open spec fn view(&self) -> Map<Seq<u8>, V> {
        as_map(self.entries())
    }

    /// An empty map.
    pub fn new() -> (m: IdentityMap<V>)
        ensures
            m.wf(),
            m.entries() == Seq::<(Seq<u8>, V)>::empty(),
    {
        let m = IdentityMap { entries: Vec::new() };
        assert(m.entries() =~= Seq::<(Seq<u8>, V)>::empty());
        m
    }

    /// Number of entries.
    pub fn len(&self) -> (n: usize)
        ensures
            n == self.entries().len(),
    {
        self.entries.len()
    }

    /// The place of the entry with this key.
    pub fn position(&self, key: &Identity) -> (found: Option<usize>)
        requires
            self.wf(),
        ensures
            match found {
                Some(i) => i < self.entries().len() && self.entries()[i as int].0 == key@
                    && index_of_key(self.entries(), key@) == i,
                None => !holds_key(self.entries(), key@),
            },
    {
        let mut i: usize = 0;
        while i < self.entries.len()
            invariant
                self.wf(),
                i <= self.entries.len(),
                forall|j: int| 0 <= j < i ==> (#[trigger] self.entries()[j]).0 != key@,
            decreases self.entries.len() - i,
        {
            if self.entries[i].0 == *key {
                assert(self.entries()[i as int].0 == key@);
                return Some(i);
            }
            i += 1;
        }
        None
    }

    /// The value stored under a key.
    pub fn get(&self, key: &Identity) -> (found: Option<&V>)
        requires
            self.wf(),
        ensures
            match found {
                Some(value) => self@.contains_key(key@) && self@[key@] == *value,
                None => !self@.contains_key(key@),
            },
    {
        match self.position(key) {
            Some(i) => Some(&self.entries[i].1),
            None => None,
        }
    }

    /// Whether a value is stored under a key.
    pub fn contains_key(&self, key: &Identity) -> (held: bool)
        requires
            self.wf(),
        ensures
            held == self@.contains_key(key@),
    {
        self.position(key).is_some()
    }

    /// The entry at a place in the order.
    pub fn entry_at(&self, index: usize) -> (entry: Option<&(Identity, V)>)
        ensures
            match entry {
                Some(e) => index < self.entries().len() && (e.0@, e.1)
                    == self.entries()[index as int],
                None => index >= self.entries().len(),
            },
    {
        if index < self.entries.len() {
            Some(&self.entries[index])
        } else {
            None
        }
    }

    /// Stores a value under a key and hands back the value that it replaces.
    pub fn insert(&mut self, key: Identity, value: V) -> (replaced: Option<V>)
        requires
            old(self).wf(),
        ensures
            final(self).wf(),
            final(self).entries() == with_entry(old(self).entries(), key@, value),
            final(self)@ == old(self)@.insert(key@, value),
            replaced == (if old(self)@.contains_key(key@) {
                Some(old(self)@[key@])
            } else {
                None::<V>
            }),
    {
        let found = self.position(&key);
        proof {
            lemma_with_entry(self.entries(), key@, value);
        }
        self.entries.push((key, value));
        match found {
            Some(i) => {
                let old_entry = self.entries.swap_remove(i);
                assert(self.entries() =~= old(self).entries().update(i as int, (key@, value)));
                Some(old_entry.1)
            },
            None => {
                assert(self.entries() =~= old(self).entries().push((key@, value)));
                None
            },
        }
    }
}

/// Storing a value under a key keeps the keys distinct and changes the map at
/// that key only.
pub proof fn lemma_with_entry<V>(entries: Seq<(Seq<u8>, V)>, key: Seq<u8>, value: V)
    requires
        distinct_keys(entries),
    ensures
        distinct_keys(with_entry(entries, key, value)),
        as_map(with_entry(entries, key, value)) == as_map(entries).insert(key, value),
        holds_key(entries, key) ==> with_entry(entries, key, value).len() == entries.len(),
        !holds_key(entries, key) ==> with_entry(entries, key, value).len() == entries.len() + 1,
{
    let after = with_entry(entries, key, value);
    assert forall|k: Seq<u8>| holds_key(after, k) <==> (k == key || holds_key(entries, k)) by {
        if holds_key(entries, key) {
            let at = index_of_key(entries, key);
            assert(after[at].0 == key);
            if holds_key(entries, k) {
                let i = index_of_key(entries, k);
                assert(after[i].0 == k);
            }
            if holds_key(after, k) {
                let i = index_of_key(after, k);
                assert(entries[i].0 == k || k == key);
            }
        } else {
            assert(after[entries.len() as int].0 == key);
            if holds_key(entries, k) {
                let i = index_of_key(entries, k);
                assert(after[i].0 == k);
            }
            if holds_key(after, k) {
                let i = index_of_key(after, k);
                if i < entries.len() {
                    assert(entries[i].0 == k);
                }
            }
        }
    }
    assert forall|i: int, j: int| 0 <= i < j < after.len() implies (#[trigger] after[i]).0 != (
    #[trigger] after[j]).0 by {
        if holds_key(entries, key) {
            let at = index_of_key(entries, key);
            assert(entries[i].0 != entries[j].0);
            assert(entries[at].0 == key);
        } else {
            if j < entries.len() {
                assert(entries[i].0 != entries[j].0);
            } else {
                assert(entries[i].0 != key);
            }
        }
    }
    assert forall|k: Seq<u8>| holds_key(after, k) implies #[trigger] as_map(after)[k] == as_map(
        entries,
    ).insert(key, value)[k] by {
        let i = index_of_key(after, k);
        if k == key {
            if holds_key(entries, key) {
                let at = index_of_key(entries, key);
                assert(after[at].0 == key);
                assert(i == at);
            } else {
                assert(after[entries.len() as int].0 == key);
                assert(i == entries.len());
            }
        } else {
            assert(i < entries.len());
            assert(entries[i].0 == k);
            let i0 = index_of_key(entries, k);
            assert(after[i0].0 == k);
            assert(i0 == i);
        }
    }
    assert(as_map(after) =~= as_map(entries).insert(key, value));
}

/// Replacing the values by their images keeps the keys, their places and
/// their distinctness, and maps the values of the map.
pub proof fn lemma_map_entry_values<V, W>(entries: Seq<(Seq<u8>, V)>, f: spec_fn(V) -> W)
    ensures
        map_entry_values(entries, f).len() == entries.len(),
        distinct_keys(map_entry_values(entries, f)) <==> distinct_keys(entries),
        forall|k: Seq<u8>| holds_key(map_entry_values(entries, f), k) <==> holds_key(entries, k),
        distinct_keys(entries) ==> forall|k: Seq<u8>|
            holds_key(entries, k) ==> index_of_key(map_entry_values(entries, f), k)
                == index_of_key(entries, k),
        distinct_keys(entries) ==> as_map(map_entry_values(entries, f)) == as_map(
            entries,
        ).map_values(f),
{
    let mapped = map_entry_values(entries, f);
    assert forall|i: int| 0 <= i < entries.len() implies (#[trigger] mapped[i]).0 == entries[i].0
        && mapped[i].1 == f(entries[i].1) by {}
    if distinct_keys(entries) {
        assert forall|i: int, j: int| 0 <= i < j < mapped.len() implies (#[trigger] mapped[i]).0
            != (#[trigger] mapped[j]).0 by {
            assert(entries[i].0 != entries[j].0);
        }
    }
    if distinct_keys(mapped) {
        assert forall|i: int, j: int| 0 <= i < j < entries.len() implies (#[trigger] entries[i]).0
            != (#[trigger] entries[j]).0 by {
            assert(mapped[i].0 != mapped[j].0);
        }
    }
    assert forall|k: Seq<u8>| holds_key(mapped, k) <==> holds_key(entries, k) by {
        if holds_key(mapped, k) {
            let i = index_of_key(mapped, k);
            assert(entries[i].0 == k);
        }
        if holds_key(entries, k) {
            let i = index_of_key(entries, k);
            assert(mapped[i].0 == k);
        }
    }
    if distinct_keys(entries) {
        assert forall|k: Seq<u8>| holds_key(entries, k) implies index_of_key(mapped, k)
            == index_of_key(entries, k) by {
            let i = index_of_key(entries, k);
            let j = index_of_key(mapped, k);
            assert(mapped[i].0 == k);
            assert(entries[j].0 == k);
            if i < j {
                assert(entries[i].0 != entries[j].0);
            }
            if j < i {
                assert(entries[j].0 != entries[i].0);
            }
        }
        assert(as_map(mapped) =~= as_map(entries).map_values(f));
    }
}

/// Storing a value and then taking images is storing the image.
pub proof fn lemma_with_entry_values<V, W>(
    entries: Seq<(Seq<u8>, V)>,
    key: Seq<u8>,
    value: V,
    f: spec_fn(V) -> W,
)
    requires
        distinct_keys(entries),
    ensures
        map_entry_values(with_entry(entries, key, value), f) == with_entry(
            map_entry_values(entries, f),
            key,
            f(value),
        ),
{
    lemma_map_entry_values(entries, f);
    assert(map_entry_values(with_entry(entries, key, value), f) =~= with_entry(
        map_entry_values(entries, f),
        key,
        f(value),
    ));
}

} // verus!
