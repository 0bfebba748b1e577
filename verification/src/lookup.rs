//! Finding an event among the events, and the decks of an event among the
//! decks.

use vstd::prelude::*;
use vstd::hash_set::StringHashSet;
use crate::error::StatsError;
use crate::types::{Deck, DeckView, Event, EventView};

verus! {

/// The first event with this identifier, if there is one.
pub open spec fn find_event(events: Seq<EventView>, id: Seq<char>) -> Option<EventView>
    decreases events.len(),
{
    if events.len() == 0 {
        None
    } else if events.first().id == id {
        Some(events.first())
    } else {
        find_event(events.drop_first(), id)
    }
}

/// The decks whose identifier is among `ids`, in the order of `decks`.
pub open spec fn decks_among(decks: Seq<DeckView>, ids: Seq<Seq<char>>) -> Seq<DeckView>
    decreases decks.len(),
{
    if decks.len() == 0 {
        Seq::empty()
    } else {
        let before = decks_among(decks.drop_last(), ids);
        if ids.contains(decks.last().id) {
            before.push(decks.last())
        } else {
            before
        }
    }
}

/// The identifiers of the decks that took part in an event, in order.
pub open spec fn deck_ids_of(event: EventView) -> Seq<Seq<char>> {
    event.decks.map_values(|entry: (Seq<char>, Seq<char>)| entry.0)
}

impl Event {
    /// The identifiers of the decks that took part, in order.
    pub fn deck_ids(&self) -> (ids: Vec<String>)
        ensures
            ids.deep_view() == deck_ids_of(self@),
    {
        let mut ids: Vec<String> = Vec::with_capacity(self.decks.len());
        let mut i: usize = 0;
        while i < self.decks.len()
            invariant
                i <= self.decks.len(),
                ids.len() == i,
                forall|a: int| 0 <= a < i ==> ids[a]@ == self.decks[a].0@,
            decreases self.decks.len() - i,
        {
            ids.push(self.decks[i].0.clone());
            i += 1;
        }
        proof {
            assert(ids.deep_view() =~= deck_ids_of(self@));
        }
        ids
    }
}

/// Looks an event up by its identifier: the first event that bears it. Where
/// no event bears it, the error is `NotFound`.
pub fn event_by_id<'a>(events: &'a Vec<Event>, id: &str) -> (found: Result<&'a Event, StatsError>)
    ensures
        match found {
            Ok(event) => find_event(events.deep_view(), id@) == Some(event@),
            Err(e) => e == StatsError::NotFound && find_event(events.deep_view(), id@) is None,
        },
{
    let wanted = id.to_owned();
    let ghost all = events.deep_view();
    let mut i: usize = 0;
    proof {
        assert(all.skip(0) =~= all);
    }
    while i < events.len()
        invariant
            i <= events.len(),
            wanted@ == id@,
            all == events.deep_view(),
            find_event(all, id@) == find_event(all.skip(i as int), id@),
        decreases events.len() - i,
    {
        proof {
            assert(all.skip(i as int).first() == events[i as int]@);
            assert(all.skip(i as int).drop_first() =~= all.skip(i + 1));
        }
        if events[i].id == wanted {
            return Ok(&events[i]);
        }
        i += 1;
    }
    Err(StatsError::NotFound)
}

/// The decks whose identifier is among `ids`, in the order of `decks`.
pub fn decks_in(decks: &Vec<Deck>, ids: &Vec<String>) -> (chosen: Vec<Deck>)
    ensures
        chosen.deep_view() == decks_among(decks.deep_view(), ids.deep_view()),
{
    let ghost wanted = ids.deep_view();
    let mut index = StringHashSet::new();
    let mut j: usize = 0;
    proof {
        assert(wanted.take(0) =~= Seq::empty());
        assert(index@ =~= wanted.take(0).to_set());
    }
    while j < ids.len()
        invariant
            j <= ids.len(),
            wanted == ids.deep_view(),
            index@ == wanted.take(j as int).to_set(),
        decreases ids.len() - j,
    {
        proof {
            assert(wanted.take(j + 1) =~= wanted.take(j as int).push(ids[j as int]@));
            wanted.take(j as int).lemma_push_to_set_commute(ids[j as int]@);
        }
        let _ = index.insert(ids[j].clone());
        j += 1;
    }
    proof {
        assert(wanted.take(j as int) =~= wanted);
    }
    let ghost all = decks.deep_view();
    let mut chosen: Vec<Deck> = Vec::new();
    let mut i: usize = 0;
    proof {
        assert(all.take(0) =~= Seq::empty());
        assert(chosen.deep_view() =~= decks_among(all.take(0), wanted));
    }
    while i < decks.len()
        invariant
            i <= decks.len(),
            all == decks.deep_view(),
            index@ == wanted.to_set(),
            chosen.deep_view() == decks_among(all.take(i as int), wanted),
        decreases decks.len() - i,
    {
        let ghost held = chosen.deep_view();
        proof {
            assert(all.take(i + 1).drop_last() =~= all.take(i as int));
        }
        if index.contains(decks[i].id.as_str()) {
            chosen.push(decks[i].clone());
            proof {
                assert(chosen.deep_view() =~= held.push(all[i as int]));
            }
        }
        i += 1;
    }
    proof {
        assert(all.take(i as int) =~= all);
    }
    chosen
}

} // verus!
