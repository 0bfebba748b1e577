//! Storing records by key: a record takes the place of the record with its
//! key, or is added where there is none.

use vstd::prelude::*;
use crate::stats::Stats;
use crate::types::UsageOverTime;

verus! {

/// A record that is stored under a key: at most one record is kept for each
/// key.
pub trait Keyed {
    /// The key of the record.
    spec fn key_view(&self) -> Seq<char>;

    /// The key of the record.
    fn key(&self) -> (key: &String)
        ensures
            key@ == self.key_view(),
    ;
}

impl Keyed for Stats {
    open spec fn key_view(&self) -> Seq<char> {
        self.tag@
    }

    fn key(&self) -> (key: &String) {
        &self.tag
    }
}

impl Keyed for UsageOverTime {
    open spec fn key_view(&self) -> Seq<char> {
        self.id@
    }

    fn key(&self) -> (key: &String) {
        &self.id
    }
}

/// What is done with a record that is to be stored.
#[derive(Clone, Copy, Debug, PartialEq, Eq)]
pub enum SinkAction {
    /// No record with the key is there: the record is added.
    Insert,
    /// A record with the key is there: the record takes its place.
    Replace,
}

/// What is done with a record, given whether a record with its key is there.
pub open spec fn action_for(found: bool) -> SinkAction {
    if found {
        SinkAction::Replace
    } else {
        SinkAction::Insert
    }
}

/// The keys of the records of a store, in order.
pub open spec fn keys_of<R: Keyed>(store: Seq<R>) -> Seq<Seq<char>> {
    store.map_values(|r: R| r.key_view())
}

/// The place of the first record with the key; the length of the store where
/// no record has the key.
pub open spec fn place_of<R: Keyed>(store: Seq<R>, key: Seq<char>) -> int
    decreases store.len(),
{
    if store.len() == 0 {
        0
    } else if store.first().key_view() == key {
        0
    } else {
        1 + place_of(store.drop_first(), key)
    }
}

/// The store after a record was stored: the record stands in the place of the
/// first record with its key, or last where no record has its key.
pub open spec fn upserted<R: Keyed>(store: Seq<R>, record: R) -> Seq<R> {
    let place = place_of(store, record.key_view());
    if place < store.len() {
        store.update(place, record)
    } else {
        store.push(record)
    }
}

/// The place of a key lies in the store exactly if a record has the key, which
/// then stands there, and no record before it has the key.
pub proof fn lemma_place_of<R: Keyed>(store: Seq<R>, key: Seq<char>)
    ensures
        0 <= place_of(store, key) <= store.len(),
        place_of(store, key) < store.len() <==> keys_of(store).contains(key),
        place_of(store, key) < store.len() ==> store[place_of(store, key)].key_view() == key,
        forall|i: int| 0 <= i < place_of(store, key) ==> (#[trigger] store[i]).key_view() != key,
    decreases store.len(),
{
    let keys = keys_of(store);
    if store.len() > 0 {
        let rest = store.drop_first();
        lemma_place_of(rest, key);
        if store.first().key_view() == key {
            assert(keys[0] == key);
        } else {
            let place = place_of(rest, key);
            assert forall|i: int| 0 <= i < 1 + place implies (#[trigger] store[i]).key_view()
                != key by {
                if i > 0 {
                    assert(rest[i - 1] == store[i]);
                }
            }
            if place < rest.len() {
                assert(keys[place + 1] == key);
            }
            if keys.contains(key) {
                let i = keys.index_of(key);
                assert(0 <= i < keys.len() && keys[i] == key);
                assert(keys_of(rest)[i - 1] == key);
            }
        }
    }
}

/// Stores a record: it takes the place of the record with its key, or is added
/// where no record has its key. The answer says which of the two was done.
pub fn upsert<R: Keyed>(store: &mut Vec<R>, record: R) -> (action: SinkAction)
    ensures
        final(store)@ == upserted(old(store)@, record),
        action == action_for(keys_of(old(store)@).contains(record.key_view())),
{
    let ghost before = store@;
    let ghost key = record.key_view();
    let mut place: usize = 0;
    let mut found = false;
    proof {
        assert(before.skip(0) =~= before);
    }
    while place < store.len() && !found
        invariant
            place <= store.len(),
            store@ == before,
            key == record.key_view(),
            place_of(before, key) == place + place_of(before.skip(place as int), key),
            found ==> place < store.len() && before[place as int].key_view() == key,
        decreases store.len() - place + if found { 0int } else { 1int },
    {
        proof {
            assert(before.skip(place as int).first() == before[place as int]);
            assert(before.skip(place as int).drop_first() =~= before.skip(place + 1));
        }
        if *store[place].key() == *record.key() {
            found = true;
        } else {
            place += 1;
        }
    }
    proof {
        lemma_place_of(before, key);
        if found {
            assert(before.skip(place as int).first() == before[place as int]);
        } else {
            assert(before.skip(place as int) =~= Seq::empty());
        }
    }
    if found {
        store.set(place, record);
        SinkAction::Replace
    } else {
        store.push(record);
        SinkAction::Insert
    }
}

} // verus!
