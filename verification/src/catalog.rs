//! Catalog mode: the statistics of the whole card registry, read from the
//! counters that each card of the catalog already carries.

use vstd::prelude::*;
use crate::error::StatsError;
use crate::ordered_map::OrderedMap;
use crate::points::PointedSet;
use crate::tally::{counts_of, distinct, fits};
use crate::types::{display_card, Card, CardView, DeckCard, DeckCardView};
use crate::usage::card_views;

verus! {

/// The cards of a catalog by identifier. Where several cards bear one
/// identifier, the last of them stands for the card.
pub open spec fn catalog(cards: Seq<CardView>) -> Map<Seq<char>, CardView>
    decreases cards.len(),
{
    if cards.len() == 0 {
        Map::empty()
    } else {
        catalog(cards.drop_last()).insert(cards.last().id, cards.last())
    }
}

/// The identifiers of the cards of a catalog, each once, in the order in which
/// each first occurs.
pub open spec fn catalog_ids(cards: Seq<CardView>) -> Seq<Seq<char>> {
    distinct(cards.map_values(|c: CardView| c.id))
}

/// The mainboard counter of each card.
pub open spec fn mainboard_counts(held: Map<Seq<char>, CardView>) -> Map<Seq<char>, nat> {
    held.map_values(|c: CardView| c.mainboard_count)
}

/// The sideboard counter of each card.
pub open spec fn sideboard_counts(held: Map<Seq<char>, CardView>) -> Map<Seq<char>, nat> {
    held.map_values(|c: CardView| c.sideboard_count)
}

/// The sum of the two counters of each card.
pub open spec fn total_counts(held: Map<Seq<char>, CardView>) -> Map<Seq<char>, nat> {
    held.map_values(|c: CardView| c.mainboard_count + c.sideboard_count)
}

/// Each card without its counters.
pub open spec fn shown_cards(held: Map<Seq<char>, CardView>) -> Map<Seq<char>, DeckCardView> {
    held.map_values(|c: CardView| display_card(c))
}

/// What [`read_catalog`] hands back: the cards without their counters, their
/// mainboard counters and their sideboard counters, all three under the same
/// keys in the same order.
pub(crate) struct CatalogCounts {
    pub cards: OrderedMap<DeckCard>,
    pub mainboard: OrderedMap<usize>,
    pub sideboard: OrderedMap<usize>,
}

/// Reads the cards of a catalog and their precomputed counters, by identifier.
pub(crate) fn read_catalog(cards: &Vec<Card>) -> (read: CatalogCounts)
    ensures
        card_views(read.cards@) == shown_cards(catalog(cards.deep_view())),
        counts_of(read.mainboard@) == mainboard_counts(catalog(cards.deep_view())),
        counts_of(read.sideboard@) == sideboard_counts(catalog(cards.deep_view())),
        read.cards.spec_keys() == catalog_ids(cards.deep_view()),
        read.mainboard.spec_keys() == catalog_ids(cards.deep_view()),
        read.sideboard.spec_keys() == catalog_ids(cards.deep_view()),
{
    let mut shown: OrderedMap<DeckCard> = OrderedMap::new();
    let mut mainboard: OrderedMap<usize> = OrderedMap::new();
    let mut sideboard: OrderedMap<usize> = OrderedMap::new();
    let ghost all = cards.deep_view();
    let ghost ids = all.map_values(|c: CardView| c.id);
    proof {
        assert(all.take(0) =~= Seq::empty());
        assert(ids.take(0) =~= Seq::empty());
        assert(card_views(shown@) =~= shown_cards(catalog(all.take(0))));
        assert(counts_of(mainboard@) =~= mainboard_counts(catalog(all.take(0))));
        assert(counts_of(sideboard@) =~= sideboard_counts(catalog(all.take(0))));
    }
    let mut i: usize = 0;
    while i < cards.len()
        invariant
            i <= cards.len(),
            all == cards.deep_view(),
            ids == all.map_values(|c: CardView| c.id),
            card_views(shown@) == shown_cards(catalog(all.take(i as int))),
            counts_of(mainboard@) == mainboard_counts(catalog(all.take(i as int))),
            counts_of(sideboard@) == sideboard_counts(catalog(all.take(i as int))),
            shown.spec_keys() == distinct(ids.take(i as int)),
            mainboard.spec_keys() == distinct(ids.take(i as int)),
            sideboard.spec_keys() == distinct(ids.take(i as int)),
        decreases cards.len() - i,
    {
        let card = &cards[i];
        let ghost held = catalog(all.take(i as int));
        let ghost shown_before = shown@;
        let ghost mainboard_before = mainboard@;
        let ghost sideboard_before = sideboard@;
        proof {
            assert(all.take(i + 1).drop_last() =~= all.take(i as int));
            assert(ids.take(i + 1).drop_last() =~= ids.take(i as int));
            assert(ids[i as int] == card.id@);
            assert(shown_before.contains_key(card.id@) <==> card_views(shown_before).contains_key(
                card.id@,
            ));
            assert(mainboard_before.contains_key(card.id@) <==> counts_of(
                mainboard_before,
            ).contains_key(card.id@));
            assert(sideboard_before.contains_key(card.id@) <==> counts_of(
                sideboard_before,
            ).contains_key(card.id@));
        }
        shown.insert(card.id.clone(), card.to_deck_card());
        mainboard.insert(card.id.clone(), card.mainboard_count);
        sideboard.insert(card.id.clone(), card.sideboard_count);
        proof {
            let now = held.insert(card.id@, card@);
            assert(card_views(shown@) =~= card_views(shown_before).insert(
                card.id@,
                display_card(card@),
            ));
            assert(shown_cards(now) =~= shown_cards(held).insert(card.id@, display_card(card@)));
            assert(counts_of(mainboard@) =~= counts_of(mainboard_before).insert(
                card.id@,
                card@.mainboard_count,
            ));
            assert(mainboard_counts(now) =~= mainboard_counts(held).insert(
                card.id@,
                card@.mainboard_count,
            ));
            assert(counts_of(sideboard@) =~= counts_of(sideboard_before).insert(
                card.id@,
                card@.sideboard_count,
            ));
            assert(sideboard_counts(now) =~= sideboard_counts(held).insert(
                card.id@,
                card@.sideboard_count,
            ));
        }
        i += 1;
    }
    proof {
        assert(all.take(i as int) =~= all);
        assert(ids.take(i as int) =~= ids);
    }
    CatalogCounts { cards: shown, mainboard, sideboard }
}

/// The sum of two maps of counts under the same keys.
pub open spec fn summed(first: Map<Seq<char>, usize>, second: Map<Seq<char>, usize>) -> Map<
    Seq<char>,
    nat,
> {
    Map::new(|k: Seq<char>| first.contains_key(k), |k: Seq<char>| (first[k] + second[k]) as nat)
}

/// Adds up the two counters of each card and parts the sums in two: those of
/// the pointed cards, and those of the others. A sum that does not fit a
/// `usize` is an `InvalidNumeric` error.
pub(crate) fn sum_by_points(mainboard: &OrderedMap<usize>, sideboard: &OrderedMap<usize>, pointed: &PointedSet) -> (parts:
    Result<(OrderedMap<usize>, OrderedMap<usize>), StatsError>)
    requires
        mainboard.spec_keys() == sideboard.spec_keys(),
    ensures
        parts is Ok <==> fits(summed(mainboard@, sideboard@)),
        match parts {
            Ok((inside, outside)) => {
                &&& counts_of(inside@) == summed(mainboard@, sideboard@).restrict(pointed@)
                &&& counts_of(outside@) == summed(mainboard@, sideboard@).remove_keys(pointed@)
            },
            Err(e) => e == StatsError::InvalidNumeric,
        },
{
    let mut inside: OrderedMap<usize> = OrderedMap::new();
    let mut outside: OrderedMap<usize> = OrderedMap::new();
    let n = mainboard.len();
    let ghost keys = mainboard.spec_keys();
    let ghost sums = summed(mainboard@, sideboard@);
    proof {
        assert(keys.take(0) =~= Seq::empty());
        assert(counts_of(inside@) =~= sums.restrict(pointed@).restrict(keys.take(0).to_set()));
        assert(counts_of(outside@) =~= sums.remove_keys(pointed@).restrict(
            keys.take(0).to_set(),
        ));
    }
    let mut i: usize = 0;
    while i < n
        invariant
            i <= n,
            n == keys.len(),
            keys == mainboard.spec_keys(),
            keys == sideboard.spec_keys(),
            sums == summed(mainboard@, sideboard@),
            counts_of(inside@) == sums.restrict(pointed@).restrict(keys.take(i as int).to_set()),
            counts_of(outside@) == sums.remove_keys(pointed@).restrict(
                keys.take(i as int).to_set(),
            ),
            forall|a: int| 0 <= a < i ==> sums[#[trigger] keys[a]] <= usize::MAX,
        decreases n - i,
    {
        let key = mainboard.key_at(i);
        let main: usize = *mainboard.value_at(i);
        let side: usize = *sideboard.value_at(i);
        proof {
            assert(keys.take(i + 1) =~= keys.take(i as int).push(keys[i as int]));
            keys.take(i as int).lemma_push_to_set_commute(keys[i as int]);
            assert(sums.contains_key(keys[i as int]));
            assert(sums[keys[i as int]] == main + side);
        }
        let total: usize = match main.checked_add(side) {
            Some(total) => total,
            None => {
                return Err(StatsError::InvalidNumeric);
            },
        };
        let ghost inside_before = inside@;
        let ghost outside_before = outside@;
        if pointed.contains(key.as_str()) {
            inside.insert(key.clone(), total);
            proof {
                assert(counts_of(inside@) =~= counts_of(inside_before).insert(key@, total as nat));
                assert(counts_of(inside@) =~= sums.restrict(pointed@).restrict(
                    keys.take(i + 1).to_set(),
                ));
                assert(counts_of(outside@) =~= sums.remove_keys(pointed@).restrict(
                    keys.take(i + 1).to_set(),
                ));
            }
        } else {
            outside.insert(key.clone(), total);
            proof {
                assert(counts_of(outside@) =~= counts_of(outside_before).insert(
                    key@,
                    total as nat,
                ));
                assert(counts_of(inside@) =~= sums.restrict(pointed@).restrict(
                    keys.take(i + 1).to_set(),
                ));
                assert(counts_of(outside@) =~= sums.remove_keys(pointed@).restrict(
                    keys.take(i + 1).to_set(),
                ));
            }
        }
        i += 1;
    }
    proof {
        assert(keys.take(i as int) =~= keys);
        assert(counts_of(inside@) =~= sums.restrict(pointed@));
        assert(counts_of(outside@) =~= sums.remove_keys(pointed@));
        assert forall|k: Seq<char>| sums.contains_key(k) implies #[trigger] sums[k]
            <= usize::MAX by {
            let a = keys.index_of(k);
            assert(0 <= a < keys.len() && keys[a] == k);
        }
    }
    Ok((inside, outside))
}

} // verus!
