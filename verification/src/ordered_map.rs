//! A map from strings to values that keeps the order in which its keys came.

use vstd::prelude::*;
use vstd::hash_map::StringHashMap;

verus! {

/// A map from strings to values that keeps its keys in the order in which they
/// first came. Lookup goes through a hash index; the entries can be walked in
/// order by position.
///
/// The map is the sequence of its keys, which holds no key twice, and the
/// sequence of its values, of the same length: the value of a key stands at the
/// position of the key.
pub struct OrderedMap<T> {
    keys: Vec<String>,
    values: Vec<T>,
    index: StringHashMap<usize>,
}

/// In a sequence without duplicates an item is found where it stands.
pub proof fn lemma_index_of_unique<A>(items: Seq<A>, i: int)
    requires
        items.no_duplicates(),
        0 <= i < items.len(),
    ensures
        items.index_of(items[i]) == i,
{
    let j = items.index_of(items[i]);
    assert(0 <= j < items.len() && items[j] == items[i]);
}

/// The map that a sequence of distinct keys and a sequence of values stand for.
pub open spec fn map_of<T>(keys: Seq<Seq<char>>, values: Seq<T>) -> Map<Seq<char>, T> {
    Map::new(|k: Seq<char>| keys.contains(k), |k: Seq<char>| values[keys.index_of(k)])
}

/// Replacing the value of a key that is there replaces it in the map.
pub proof fn lemma_map_of_update<T>(keys: Seq<Seq<char>>, values: Seq<T>, i: int, value: T)
    requires
        keys.no_duplicates(),
        keys.len() == values.len(),
        0 <= i < keys.len(),
    ensures
        map_of(keys, values.update(i, value)) == map_of(keys, values).insert(keys[i], value),
{
    let before = map_of(keys, values);
    let after = map_of(keys, values.update(i, value));
    assert forall|k: Seq<char>| after.contains_key(k) implies #[trigger] after[k]
        == before.insert(keys[i], value)[k] by {
        let j = keys.index_of(k);
        assert(0 <= j < keys.len() && keys[j] == k);
        if k == keys[i] {
            lemma_index_of_unique(keys, i);
        }
    }
    assert(after =~= before.insert(keys[i], value));
}

/// Appending a new key with its value inserts the pair into the map.
pub proof fn lemma_map_of_push<T>(keys: Seq<Seq<char>>, values: Seq<T>, key: Seq<char>, value: T)
    requires
        keys.no_duplicates(),
        keys.len() == values.len(),
        !keys.contains(key),
    ensures
        keys.push(key).no_duplicates(),
        map_of(keys.push(key), values.push(value)) == map_of(keys, values).insert(key, value),
{
    let keys2 = keys.push(key);
    let values2 = values.push(value);
    assert forall|i: int, j: int|
        0 <= i < keys2.len() && 0 <= j < keys2.len() && i != j implies keys2[i] != keys2[j] by {
        if i < keys.len() && j < keys.len() {
        } else if i < keys.len() {
            assert(keys[i] == keys2[i]);
        } else {
            assert(keys[j] == keys2[j]);
        }
    }
    let before = map_of(keys, values);
    let after = map_of(keys2, values2);
    assert forall|k: Seq<char>| after.contains_key(k) <==> before.insert(key, value).contains_key(
        k,
    ) by {
        if keys2.contains(k) {
            let j = keys2.index_of(k);
            assert(0 <= j < keys2.len() && keys2[j] == k);
            if j < keys.len() {
                assert(keys[j] == k);
            }
        }
        if keys.contains(k) {
            let j = keys.index_of(k);
            assert(0 <= j < keys.len() && keys[j] == k);
            assert(keys2[j] == k);
        }
        if k == key {
            assert(keys2[keys.len() as int] == k);
        }
    }
    assert forall|k: Seq<char>| after.contains_key(k) implies #[trigger] after[k] == before.insert(
        key,
        value,
    )[k] by {
        let j = keys2.index_of(k);
        assert(0 <= j < keys2.len() && keys2[j] == k);
        lemma_index_of_unique(keys2, j);
        if k == key {
            assert(keys2[keys.len() as int] == k);
            lemma_index_of_unique(keys2, keys.len() as int);
        } else {
            assert(j < keys.len());
            assert(keys[j] == k);
            lemma_index_of_unique(keys, j);
        }
    }
    assert(after =~= before.insert(key, value));
}

impl<T> View for OrderedMap<T> {
    type V = Map<Seq<char>, T>;

    open spec fn view(&self) -> Map<Seq<char>, T> {
        map_of(self.spec_keys(), self.spec_values())
    }
}

impl<T> OrderedMap<T> {
    #[verifier::type_invariant]
    spec fn inv(self) -> bool {
        &&& self.keys.len() == self.values.len()
        &&& forall|i: int|
            0 <= i < self.keys.len() ==> self.index@.contains_key(#[trigger] self.keys[i]@)
                && self.index@[self.keys[i]@] == i
        &&& forall|k: Seq<char>| #[trigger]
            self.index@.contains_key(k) ==> self.index@[k] < self.keys.len()
                && self.keys[self.index@[k] as int]@ == k
    }

    /// The keys, in the order in which they first came.
    pub closed spec fn spec_keys(&self) -> Seq<Seq<char>> {
        self.keys@.map_values(|k: String| k@)
    }

    /// The values, each at the position of its key.
    pub closed spec fn spec_values(&self) -> Seq<T> {
        self.values@
    }

    /// What every map of this type satisfies: no key stands twice, and there
    /// is one value for each key.
    pub open spec fn well_formed(&self) -> bool {
        &&& self.spec_keys().no_duplicates()
        &&& self.spec_keys().len() == self.spec_values().len()
    }

    proof fn lemma_inv_gives_well_formed(self)
        requires
            self.inv(),
        ensures
            self.well_formed(),
            forall|k: Seq<char>| self.index@.contains_key(k) <==> self.spec_keys().contains(k),
    {
        let keys = self.spec_keys();
        assert forall|i: int, j: int|
            0 <= i < keys.len() && 0 <= j < keys.len() && i != j implies keys[i] != keys[j] by {
            assert(self.index@[self.keys[i]@] == i);
            assert(self.index@[self.keys[j]@] == j);
        }
        assert forall|k: Seq<char>| self.index@.contains_key(k) <==> keys.contains(k) by {
            if self.index@.contains_key(k) {
                assert(keys[self.index@[k] as int] == k);
            }
            if keys.contains(k) {
                let i = keys.index_of(k);
                assert(0 <= i < keys.len() && keys[i] == k);
                assert(self.index@.contains_key(self.keys[i]@));
            }
        }
    }

    /// The empty map.
    pub fn new() -> (map: Self)
        ensures
            map.well_formed(),
            map.spec_keys() == Seq::<Seq<char>>::empty(),
            map.spec_values() == Seq::<T>::empty(),
            map@ == Map::<Seq<char>, T>::empty(),
    {
        let map = OrderedMap { keys: Vec::new(), values: Vec::new(), index: StringHashMap::new() };
        assert(map.spec_keys() =~= Seq::<Seq<char>>::empty());
        assert(map@ =~= Map::<Seq<char>, T>::empty());
        map
    }

    /// The number of entries.
    pub fn len(&self) -> (n: usize)
        ensures
            self.well_formed(),
            n == self.spec_keys().len(),
            n == self@.len(),
            self@.dom().finite(),
    {
        proof {
            use_type_invariant(self);
            self.lemma_inv_gives_well_formed();
            self.spec_keys().unique_seq_to_set();
            assert(self@.dom() =~= self.spec_keys().to_set());
        }
        self.keys.len()
    }

    /// Whether the key has an entry.
    pub fn contains_key(&self, key: &str) -> (found: bool)
        ensures
            self.well_formed(),
            found == self@.contains_key(key@),
    {
        proof {
            use_type_invariant(self);
            self.lemma_inv_gives_well_formed();
        }
        self.index.contains_key(key)
    }

    /// The position of the key among the keys, if it has an entry.
    pub fn position(&self, key: &str) -> (place: Option<usize>)
        ensures
            self.well_formed(),
            match place {
                Some(i) => i < self.spec_keys().len() && self.spec_keys()[i as int] == key@,
                None => !self.spec_keys().contains(key@),
            },
    {
        proof {
            use_type_invariant(self);
            self.lemma_inv_gives_well_formed();
        }
        match self.index.get(key) {
            Some(i) => Some(*i),
            None => None,
        }
    }

    /// The value of the key, if it has an entry.
    pub fn get(&self, key: &str) -> (value: Option<&T>)
        ensures
            self.well_formed(),
            match value {
                Some(v) => self@.contains_key(key@) && *v == self@[key@],
                None => !self@.contains_key(key@),
            },
    {
        proof {
            use_type_invariant(self);
            self.lemma_inv_gives_well_formed();
        }
        match self.index.get(key) {
            Some(i) => {
                proof {
                    lemma_index_of_unique(self.spec_keys(), *i as int);
                }
                Some(&self.values[*i])
            },
            None => None,
        }
    }

    /// The key at a position.
    pub fn key_at(&self, i: usize) -> (key: &String)
        requires
            i < self.spec_keys().len(),
        ensures
            self.well_formed(),
            key@ == self.spec_keys()[i as int],
            self@.contains_key(key@),
    {
        proof {
            use_type_invariant(self);
            self.lemma_inv_gives_well_formed();
        }
        &self.keys[i]
    }

    /// The value at a position: the value of the key at that position.
    pub fn value_at(&self, i: usize) -> (value: &T)
        requires
            i < self.spec_keys().len(),
        ensures
            self.well_formed(),
            *value == self.spec_values()[i as int],
            *value == self@[self.spec_keys()[i as int]],
    {
        proof {
            use_type_invariant(self);
            self.lemma_inv_gives_well_formed();
            lemma_index_of_unique(self.spec_keys(), i as int);
        }
        &self.values[i]
    }

    /// Gives the key this value. A key that has an entry keeps its position; a
    /// new key comes last.
    pub fn insert(&mut self, key: String, value: T)
        ensures
            final(self).well_formed(),
            final(self)@ == old(self)@.insert(key@, value),
            old(self)@.contains_key(key@) ==> final(self).spec_keys() == old(self).spec_keys(),
            !old(self)@.contains_key(key@) ==> final(self).spec_keys() == old(self).spec_keys().push(
                key@,
            ),
    {
        proof {
            use_type_invariant(&*self);
            self.lemma_inv_gives_well_formed();
        }
        let ghost before = *self;
        let mut taken = OrderedMap::new();
        std::mem::swap(self, &mut taken);
        let OrderedMap { mut keys, mut values, mut index } = taken;
        match index.get(key.as_str()) {
            Some(i) => {
                let i: usize = *i;
                values.set(i, value);
                proof {
                    lemma_map_of_update(before.spec_keys(), before.spec_values(), i as int, value);
                }
            },
            None => {
                let n: usize = keys.len();
                index.insert(key.clone(), n);
                keys.push(key);
                values.push(value);
                proof {
                    lemma_map_of_push(before.spec_keys(), before.spec_values(), key@, value);
                    assert(keys@.map_values(|k: String| k@) =~= before.spec_keys().push(key@));
                }
            },
        }
        *self = OrderedMap { keys, values, index };
        proof {
            use_type_invariant(&*self);
            self.lemma_inv_gives_well_formed();
        }
    }

    /// Puts a value at a position and hands back the value that stood there.
    /// The keys stay as they are.
    pub fn replace_at(&mut self, i: usize, value: T) -> (previous: T)
        requires
            i < old(self).spec_keys().len(),
        ensures
            final(self).well_formed(),
            final(self).spec_keys() == old(self).spec_keys(),
            final(self).spec_values() == old(self).spec_values().update(i as int, value),
            final(self)@ == old(self)@.insert(old(self).spec_keys()[i as int], value),
            previous == old(self).spec_values()[i as int],
            previous == old(self)@[old(self).spec_keys()[i as int]],
    {
        proof {
            use_type_invariant(&*self);
            self.lemma_inv_gives_well_formed();
            lemma_map_of_update(self.spec_keys(), self.spec_values(), i as int, value);
            lemma_index_of_unique(self.spec_keys(), i as int);
        }
        let mut taken = OrderedMap::new();
        std::mem::swap(self, &mut taken);
        let OrderedMap { keys, mut values, index } = taken;
        let mut held = value;
        values.set_and_swap(i, &mut held);
        *self = OrderedMap { keys, values, index };
        proof {
            use_type_invariant(&*self);
            self.lemma_inv_gives_well_formed();
        }
        held
    }
}

} // verus!
