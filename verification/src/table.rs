//! A small table from names to values.
//!
//! The entries are kept in the order in which their names first arrived, and
//! no name occurs twice. The table is modelled both as that sequence of
//! pairs and as the map that the pairs define. What is proved here of
//! sequences of pairs holds for keys of any type.

use crate::text::same_text;
use vstd::prelude::*;
use vstd::string::*;

verus! {

/// One entry of a [`NameTable`].
#[derive(Debug)]
pub struct NamedValue<V> {
    pub name: String,
    pub value: V,
}

/// A mapping from names to values of a `Copy` type.
#[derive(Debug)]
pub struct NameTable<V> {
    entries: Vec<NamedValue<V>>,
}

/// Whether some pair of `pairs` carries the key `key`.
pub open spec fn has_key<K, V>(pairs: Seq<(K, V)>, key: K) -> bool {
    exists|i: int| 0 <= i < pairs.len() && (#[trigger] pairs[i]).0 == key
}

/// A position at which `key` stands in `pairs`, if there is one.
pub open spec fn key_position<K, V>(pairs: Seq<(K, V)>, key: K) -> int {
    choose|i: int| 0 <= i < pairs.len() && (#[trigger] pairs[i]).0 == key
}

/// No key stands at two positions of `pairs`.
pub open spec fn distinct_keys<K, V>(pairs: Seq<(K, V)>) -> bool {
    forall|i: int, j: int|
        0 <= i < pairs.len() && 0 <= j < pairs.len() && (#[trigger] pairs[i]).0 == (
        #[trigger] pairs[j]).0 ==> i == j
}

/// The map that a sequence of pairs defines.
pub open spec fn pairs_to_map<K, V>(pairs: Seq<(K, V)>) -> Map<K, V> {
    Map::new(
        |key: K| has_key(pairs, key),
        |key: K| pairs[key_position(pairs, key)].1,
    )
}

/// With distinct keys, the map holds at each pair's key that pair's value.
pub proof fn lemma_pair_in_map<K, V>(pairs: Seq<(K, V)>, i: int)
    requires
        distinct_keys(pairs),
        0 <= i < pairs.len(),
    ensures
        pairs_to_map(pairs).contains_key(pairs[i].0),
        pairs_to_map(pairs)[pairs[i].0] == pairs[i].1,
        key_position(pairs, pairs[i].0) == i,
{
    let key = pairs[i].0;
    assert(has_key(pairs, key));
    let j = key_position(pairs, key);
    assert(0 <= j < pairs.len() && pairs[j].0 == key);
}

/// Appending a pair under a new key inserts it into the map.
pub proof fn lemma_push_inserts<K, V>(pairs: Seq<(K, V)>, key: K, value: V)
    requires
        distinct_keys(pairs),
        !has_key(pairs, key),
    ensures
        distinct_keys(pairs.push((key, value))),
        pairs_to_map(pairs.push((key, value))) == pairs_to_map(pairs).insert(key, value),
{
    let after = pairs.push((key, value));
    assert forall|i: int, j: int|
        0 <= i < after.len() && 0 <= j < after.len() && (#[trigger] after[i]).0 == (
        #[trigger] after[j]).0 implies i == j by {
        if i < pairs.len() {
            assert(after[i] == pairs[i]);
        }
        if j < pairs.len() {
            assert(after[j] == pairs[j]);
        }
    }
    assert forall|k: K| has_key(after, k) <==> (k == key || has_key(pairs, k)) by {
        if has_key(after, k) {
            let i = key_position(after, k);
            if i < pairs.len() {
                assert(pairs[i] == after[i]);
            }
        }
        if k == key {
            assert(after[pairs.len() as int].0 == key);
        }
        if has_key(pairs, k) {
            let i = key_position(pairs, k);
            assert(after[i] == pairs[i]);
        }
    }
    assert forall|k: K| has_key(after, k) implies #[trigger] pairs_to_map(after)[k]
        == pairs_to_map(pairs).insert(key, value)[k] by {
        let i = key_position(after, k);
        lemma_pair_in_map(after, i);
        if i < pairs.len() {
            assert(after[i] == pairs[i]);
            lemma_pair_in_map(pairs, i);
        }
    }
    assert(pairs_to_map(after) =~= pairs_to_map(pairs).insert(key, value));
}

/// Replacing the value at a position overwrites the map at that key.
pub proof fn lemma_update_inserts<K, V>(pairs: Seq<(K, V)>, i: int, value: V)
    requires
        distinct_keys(pairs),
        0 <= i < pairs.len(),
    ensures
        distinct_keys(pairs.update(i, (pairs[i].0, value))),
        pairs_to_map(pairs.update(i, (pairs[i].0, value))) == pairs_to_map(pairs).insert(
            pairs[i].0,
            value,
        ),
{
    let key = pairs[i].0;
    let after = pairs.update(i, (key, value));
    assert forall|j: int| 0 <= j < pairs.len() implies (#[trigger] after[j]).0 == pairs[j].0 by {}
    assert forall|a: int, b: int|
        0 <= a < after.len() && 0 <= b < after.len() && (#[trigger] after[a]).0 == (
        #[trigger] after[b]).0 implies a == b by {
        assert(pairs[a].0 == pairs[b].0);
    }
    assert forall|k: K| has_key(after, k) <==> has_key(pairs, k) by {
        if has_key(after, k) {
            let j = key_position(after, k);
            assert(pairs[j].0 == k);
        }
        if has_key(pairs, k) {
            let j = key_position(pairs, k);
            assert(after[j].0 == k);
        }
    }
    lemma_pair_in_map(pairs, i);
    assert forall|k: K| has_key(after, k) implies #[trigger] pairs_to_map(after)[k]
        == pairs_to_map(pairs).insert(key, value)[k] by {
        let j = key_position(after, k);
        lemma_pair_in_map(after, j);
        assert(pairs[j].0 == k);
        lemma_pair_in_map(pairs, j);
    }
    assert(pairs_to_map(after) =~= pairs_to_map(pairs).insert(key, value));
}

/// Taking the pair at a position away removes its key from the map.
pub proof fn lemma_remove_removes<K, V>(pairs: Seq<(K, V)>, i: int)
    requires
        distinct_keys(pairs),
        0 <= i < pairs.len(),
    ensures
        distinct_keys(pairs.remove(i)),
        pairs_to_map(pairs.remove(i)) == pairs_to_map(pairs).remove(pairs[i].0),
{
    let key = pairs[i].0;
    let after = pairs.remove(i);
    assert forall|j: int| 0 <= j < after.len() implies #[trigger] after[j] == pairs[if j < i {
        j
    } else {
        j + 1
    }] by {}
    assert forall|a: int, b: int|
        0 <= a < after.len() && 0 <= b < after.len() && (#[trigger] after[a]).0 == (
        #[trigger] after[b]).0 implies a == b by {
        let a2 = if a < i { a } else { a + 1 };
        let b2 = if b < i { b } else { b + 1 };
        assert(pairs[a2].0 == pairs[b2].0);
    }
    assert forall|k: K| has_key(after, k) <==> (k != key && has_key(pairs, k)) by {
        if has_key(after, k) {
            let j = key_position(after, k);
            let j2 = if j < i { j } else { j + 1 };
            assert(pairs[j2].0 == k);
        }
        if k != key && has_key(pairs, k) {
            let j = key_position(pairs, k);
            let j2 = if j < i { j } else { j - 1 };
            assert(after[j2] == pairs[j]);
        }
    }
    assert forall|k: K| has_key(after, k) implies #[trigger] pairs_to_map(after)[k]
        == pairs_to_map(pairs).remove(key)[k] by {
        let j = key_position(after, k);
        lemma_pair_in_map(after, j);
        let j2 = if j < i { j } else { j + 1 };
        assert(pairs[j2] == after[j]);
        lemma_pair_in_map(pairs, j2);
    }
    assert(pairs_to_map(after) =~= pairs_to_map(pairs).remove(key));
}

/// Two sequences with the same keys at the same positions define maps with
/// the same keys, and the keys of one are distinct where those of the other
/// are.
pub proof fn lemma_same_keys<K, V>(a: Seq<(K, V)>, b: Seq<(K, V)>)
    requires
        a.len() == b.len(),
        forall|i: int| 0 <= i < a.len() ==> (#[trigger] a[i]).0 == b[i].0,
    ensures
        pairs_to_map(a).dom() == pairs_to_map(b).dom(),
        distinct_keys(a) == distinct_keys(b),
{
    assert forall|k: K| has_key(a, k) <==> has_key(b, k) by {
        if has_key(a, k) {
            let i = key_position(a, k);
            assert(b[i].0 == k);
        }
        if has_key(b, k) {
            let i = key_position(b, k);
            assert(a[i].0 == k);
        }
    }
    assert(pairs_to_map(a).dom() =~= pairs_to_map(b).dom());
    if distinct_keys(a) {
        assert forall|i: int, j: int|
            0 <= i < b.len() && 0 <= j < b.len() && (#[trigger] b[i]).0 == (#[trigger] b[j]).0
            implies i == j by {
            assert(a[i].0 == a[j].0);
        }
    }
    if distinct_keys(b) {
        assert forall|i: int, j: int|
            0 <= i < a.len() && 0 <= j < a.len() && (#[trigger] a[i]).0 == (#[trigger] a[j]).0
            implies i == j by {
            assert(b[i].0 == b[j].0);
        }
    }
}

/// With distinct keys, the keys of the map are the keys of the pairs, none
/// of them twice.
pub proof fn lemma_keys_of_pairs<K, V>(pairs: Seq<(K, V)>)
    requires
        distinct_keys(pairs),
    ensures
        pairs.map_values(|p: (K, V)| p.0).no_duplicates(),
        pairs.map_values(|p: (K, V)| p.0).to_set() == pairs_to_map(pairs).dom(),
{
    let keys = pairs.map_values(|p: (K, V)| p.0);
    assert forall|i: int, j: int| 0 <= i < keys.len() && 0 <= j < keys.len() && i != j implies keys[i]
        != keys[j] by {
        assert(pairs[i].0 == keys[i]);
        assert(pairs[j].0 == keys[j]);
    }
    assert forall|k: K| keys.to_set().contains(k) <==> pairs_to_map(pairs).dom().contains(k) by {
        if keys.to_set().contains(k) {
            let i = choose|i: int| 0 <= i < keys.len() && keys[i] == k;
            assert(pairs[i].0 == k);
        }
        if has_key(pairs, k) {
            let i = key_position(pairs, k);
            assert(keys[i] == k);
        }
    }
    assert(keys.to_set() =~= pairs_to_map(pairs).dom());
}

impl<V: Copy> View for NameTable<V> {
    type V = Map<Seq<char>, V>;

    /// The table as a map.
    closed spec fn view(&self) -> Map<Seq<char>, V> {
        pairs_to_map(self.pairs())
    }
}

impl<V: Copy> NameTable<V> {
    /// The entries in their order, each as a name and a value.
    pub closed spec fn pairs(&self) -> Seq<(Seq<char>, V)> {
        self.entries@.map_values(|e: NamedValue<V>| (e.name@, e.value))
    }

    /// No name occurs twice.
    pub closed spec fn well_formed(&self) -> bool {
        distinct_keys(self.pairs())
    }

    /// The map is the one that the pairs define.
    pub proof fn lemma_view_is_map_of_pairs(&self)
        ensures
            self@ == pairs_to_map(self.pairs()),
            self.well_formed() == distinct_keys(self.pairs()),
    {
    }

    /// An empty table.
    pub fn new() -> (r: Self)
        ensures
            r.well_formed(),
            r.pairs() == Seq::<(Seq<char>, V)>::empty(),
            r@ == Map::<Seq<char>, V>::empty(),
    {
        let r = NameTable { entries: Vec::new() };
        proof {
            assert(r.pairs() =~= Seq::<(Seq<char>, V)>::empty());
            assert(r@ =~= Map::<Seq<char>, V>::empty());
        }
        r
    }

    /// The number of entries.
    pub fn len(&self) -> (r: usize)
        ensures
            r == self.pairs().len(),
    {
        self.entries.len()
    }

    /// The name at a position.
    pub fn name_at(&self, i: usize) -> (r: &str)
        requires
            i < self.pairs().len(),
        ensures
            r@ == self.pairs()[i as int].0,
    {
        self.entries[i].name.as_str()
    }

    /// The value at a position.
    pub fn value_at(&self, i: usize) -> (r: V)
        requires
            i < self.pairs().len(),
        ensures
            r == self.pairs()[i as int].1,
    {
        self.entries[i].value
    }

    /// The position of a name, if the table holds it.
    pub fn position(&self, name: &str) -> (r: Option<usize>)
        ensures
            match r {
                Some(i) => i < self.pairs().len() && self.pairs()[i as int].0 == name@,
                None => !has_key(self.pairs(), name@),
            },
    {
        let mut i: usize = 0;
        while i < self.entries.len()
            invariant
                i <= self.entries.len(),
                forall|j: int| 0 <= j < i ==> (#[trigger] self.pairs()[j]).0 != name@,
            decreases self.entries.len() - i,
        {
            if same_text(self.entries[i].name.as_str(), name) {
                return Some(i);
            }
            i += 1;
        }
        None
    }

    /// Whether the table holds a name.
    pub fn contains_key(&self, name: &str) -> (r: bool)
        ensures
            r == self@.contains_key(name@),
    {
        self.position(name).is_some()
    }

    /// The value under a name, if the table holds the name.
    pub fn get(&self, name: &str) -> (r: Option<V>)
        requires
            self.well_formed(),
        ensures
            r == (if self@.contains_key(name@) {
                Some(self@[name@])
            } else {
                None
            }),
    {
        match self.position(name) {
            Some(i) => {
                proof {
                    lemma_pair_in_map(self.pairs(), i as int);
                }
                Some(self.entries[i].value)
            },
            None => None,
        }
    }

    /// Puts `value` under `name`: in place where the table holds the name
    /// already, as a new last entry otherwise.
    pub fn insert(&mut self, name: &str, value: V)
        requires
            old(self).well_formed(),
        ensures
            final(self).well_formed(),
            final(self)@ == old(self)@.insert(name@, value),
            final(self).pairs() == (match old(self).position_of(name@) {
                Some(i) => old(self).pairs().update(i, (name@, value)),
                None => old(self).pairs().push((name@, value)),
            }),
    {
        match self.position(name) {
            Some(i) => {
                proof {
                    lemma_update_inserts(self.pairs(), i as int, value);
                    lemma_pair_in_map(self.pairs(), i as int);
                }
                let ghost before = self.pairs();
                self.entries[i].value = value;
                proof {
                    assert(self.pairs() =~= before.update(i as int, (name@, value)));
                }
            },
            None => {
                proof {
                    lemma_push_inserts(self.pairs(), name@, value);
                }
                let ghost before = self.pairs();
                self.entries.push(NamedValue { name: String::from_str(name), value });
                proof {
                    assert(self.pairs() =~= before.push((name@, value)));
                }
            },
        }
    }

    /// Takes the entry at a position away; the entries behind it move up.
    pub fn remove_at(&mut self, i: usize)
        requires
            old(self).well_formed(),
            i < old(self).pairs().len(),
        ensures
            final(self).well_formed(),
            final(self).pairs() == old(self).pairs().remove(i as int),
            final(self)@ == old(self)@.remove(old(self).pairs()[i as int].0),
    {
        proof {
            lemma_remove_removes(self.pairs(), i as int);
        }
        let ghost before = self.pairs();
        let _ = self.entries.remove(i);
        proof {
            assert(self.pairs() =~= before.remove(i as int));
        }
    }

    /// The position of a name among the pairs, in specifications.
    pub open spec fn position_of(&self, key: Seq<char>) -> Option<int> {
        if has_key(self.pairs(), key) {
            Some(key_position(self.pairs(), key))
        } else {
            None
        }
    }

    /// The names in the order of the entries.
    pub fn names(&self) -> (r: Vec<String>)
        ensures
            r@.len() == self.pairs().len(),
            forall|i: int| 0 <= i < r@.len() ==> (#[trigger] r@[i])@ == self.pairs()[i].0,
    {
        let mut out: Vec<String> = Vec::new();
        let mut i: usize = 0;
        while i < self.entries.len()
            invariant
                i <= self.entries.len(),
                out@.len() == i,
                forall|j: int| 0 <= j < i ==> (#[trigger] out@[j])@ == self.pairs()[j].0,
            decreases self.entries.len() - i,
        {
            out.push(self.entries[i].name.clone());
            i += 1;
        }
        out
    }
}

} // verus!
