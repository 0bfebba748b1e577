//! What holds of the statistics whatever the decks, the cards and the points
//! table are.

use vstd::prelude::*;
use crate::catalog::{catalog, catalog_ids, shown_cards};
use crate::error::StatsError;
use crate::points::pointed_ids;
use crate::sink::{keys_of, lemma_place_of, place_of, upserted, Keyed};
use crate::stats::{
    catalog_stats_of, event_stats_of, event_tag, outcome_view, stats_or_invalid, Stats,
};
use crate::tally::{
    card_ids, count_of, distinct, lemma_add_tally_push, lemma_distinct_onto_holds,
    lemma_occurrences_bounds, lemma_occurrences_concat, occurrences, tally,
};
use crate::timeseries::{deck_holds, lemma_deck_holds, samples, usage_series};
use crate::types::{CardView, DeckCardView, DeckView, EventView, PointView, UsageOverTimeView};
use crate::usage::{
    board_entries, board_parts, board_uses, card_projection, colour_codes, colour_parts,
    colour_usage, entries_of, lemma_flatten_step, non_pointed_uses, pointed_uses, Board,
};

verus! {

/// The sum of the counts of a map with finitely many entries.
pub open spec fn sum_of_counts(counts: Map<Seq<char>, nat>) -> nat
    decreases counts.dom().len(),
    when counts.dom().finite()
{
    if counts.dom().len() == 0 {
        0
    } else {
        let key = counts.dom().choose();
        counts[key] + sum_of_counts(counts.remove(key))
    }
}

/// The number of colour codes that the cards `ids` carry, card by card.
pub open spec fn colour_code_total(ids: Seq<Seq<char>>, cards: Map<Seq<char>, DeckCardView>) -> nat
    decreases ids.len(),
{
    if ids.len() == 0 {
        0
    } else {
        colour_code_total(ids.drop_last(), cards) + cards[ids.last()].colours.len()
    }
}

/// The count that a tally gives a key is the number of times the key occurs.
pub proof fn lemma_count_of_tally(items: Seq<Seq<char>>, key: Seq<char>)
    ensures
        count_of(tally(items), key) == occurrences(items, key),
{
    lemma_occurrences_bounds(items, key);
}

/// The sum of the counts can be taken from any entry on.
pub proof fn lemma_sum_of_counts_from(counts: Map<Seq<char>, nat>, key: Seq<char>)
    requires
        counts.dom().finite(),
        counts.contains_key(key),
    ensures
        sum_of_counts(counts) == counts[key] + sum_of_counts(counts.remove(key)),
    decreases counts.dom().len(),
{
    let chosen = counts.dom().choose();
    if chosen != key {
        lemma_sum_of_counts_from(counts.remove(chosen), key);
        lemma_sum_of_counts_from(counts.remove(key), chosen);
        assert(counts.remove(chosen).remove(key) =~= counts.remove(key).remove(chosen));
    }
}

/// Giving one key a new count changes the sum by the difference.
pub proof fn lemma_sum_of_counts_insert(counts: Map<Seq<char>, nat>, key: Seq<char>, count: nat)
    requires
        counts.dom().finite(),
    ensures
        sum_of_counts(counts.insert(key, count)) + count_of(counts, key) == sum_of_counts(counts)
            + count,
{
    let after = counts.insert(key, count);
    lemma_sum_of_counts_from(after, key);
    assert(after.remove(key) =~= counts.remove(key));
    if counts.contains_key(key) {
        lemma_sum_of_counts_from(counts, key);
    } else {
        assert(counts.remove(key) =~= counts);
    }
}

/// The counts of a tally add up to the number of items that were counted.
pub proof fn lemma_tally_adds_up(items: Seq<Seq<char>>)
    ensures
        tally(items).dom().finite(),
        sum_of_counts(tally(items)) == items.len(),
    decreases items.len(),
{
    if items.len() == 0 {
        assert(tally(items) =~= Map::empty());
    } else {
        let rest = items.drop_last();
        lemma_tally_adds_up(rest);
        assert(items =~= rest.push(items.last()));
        lemma_add_tally_push(Map::empty(), rest, items.last());
        lemma_sum_of_counts_insert(tally(rest), items.last(), count_of(tally(rest), items.last()) + 1);
    }
}

/// The entries of all decks on a board: those of the decks before the last,
/// then those of the last.
pub proof fn lemma_board_entries_last(decks: Seq<DeckView>, board: Board)
    requires
        decks.len() > 0,
    ensures
        board_entries(decks, board) == board_entries(decks.drop_last(), board) + entries_of(
            decks.last(),
            board,
        ),
{
    let parts = board_parts(decks, board);
    let n = decks.len() - 1;
    assert(parts.take(n) =~= board_parts(decks.drop_last(), board));
    assert(parts.take(n + 1) =~= parts);
    lemma_flatten_step(parts, n);
}

/// A card stands in the decks as often as in their mainboards and in their
/// sideboards together.
pub proof fn lemma_uses_add_up(decks: Seq<DeckView>, id: Seq<char>)
    ensures
        count_of(board_uses(decks, Board::Both), id) == count_of(
            board_uses(decks, Board::Mainboard),
            id,
        ) + count_of(board_uses(decks, Board::Sideboard), id),
    decreases decks.len(),
{
    let both = card_ids(board_entries(decks, Board::Both));
    let main = card_ids(board_entries(decks, Board::Mainboard));
    let side = card_ids(board_entries(decks, Board::Sideboard));
    lemma_count_of_tally(both, id);
    lemma_count_of_tally(main, id);
    lemma_count_of_tally(side, id);
    if decks.len() == 0 {
        assert(board_parts(decks, Board::Both) =~= Seq::empty());
        assert(board_parts(decks, Board::Mainboard) =~= Seq::empty());
        assert(board_parts(decks, Board::Sideboard) =~= Seq::empty());
        assert(both =~= Seq::empty());
        assert(main =~= Seq::empty());
        assert(side =~= Seq::empty());
    } else {
        let rest = decks.drop_last();
        let last = decks.last();
        lemma_uses_add_up(rest, id);
        lemma_board_entries_last(decks, Board::Both);
        lemma_board_entries_last(decks, Board::Mainboard);
        lemma_board_entries_last(decks, Board::Sideboard);
        let rest_both = card_ids(board_entries(rest, Board::Both));
        let rest_main = card_ids(board_entries(rest, Board::Mainboard));
        let rest_side = card_ids(board_entries(rest, Board::Sideboard));
        lemma_count_of_tally(rest_both, id);
        lemma_count_of_tally(rest_main, id);
        lemma_count_of_tally(rest_side, id);
        assert(both =~= rest_both + (card_ids(last.mainboard) + card_ids(last.sideboard)));
        assert(main =~= rest_main + card_ids(last.mainboard));
        assert(side =~= rest_side + card_ids(last.sideboard));
        lemma_occurrences_concat(card_ids(last.mainboard), card_ids(last.sideboard), id);
        lemma_occurrences_concat(
            rest_both,
            card_ids(last.mainboard) + card_ids(last.sideboard),
            id,
        );
        lemma_occurrences_concat(rest_main, card_ids(last.mainboard), id);
        lemma_occurrences_concat(rest_side, card_ids(last.sideboard), id);
    }
}

/// The points table parts the cards of the decks in two. No card has both
/// pointed and non-pointed uses; the cards that have one or the other are
/// exactly the cards with at least one copy in a mainboard or a sideboard; and
/// the uses of a card, on whichever side it stands, are its copies in the
/// mainboards and in the sideboards together.
pub proof fn law_points_part_the_cards(decks: Seq<DeckView>, points: Seq<PointView>)
    ensures
        pointed_uses(decks, pointed_ids(points)).dom().disjoint(
            non_pointed_uses(decks, pointed_ids(points)).dom(),
        ),
        forall|id: Seq<char>|
            (pointed_uses(decks, pointed_ids(points)).contains_key(id) || non_pointed_uses(
                decks,
                pointed_ids(points),
            ).contains_key(id)) <==> count_of(board_uses(decks, Board::Mainboard), id) + count_of(
                board_uses(decks, Board::Sideboard),
                id,
            ) > 0,
        forall|id: Seq<char>|
            count_of(pointed_uses(decks, pointed_ids(points)), id) + count_of(
                non_pointed_uses(decks, pointed_ids(points)),
                id,
            ) == count_of(board_uses(decks, Board::Mainboard), id) + count_of(
                board_uses(decks, Board::Sideboard),
                id,
            ),
{
    let pointed = pointed_ids(points);
    let inside = pointed_uses(decks, pointed);
    let outside = non_pointed_uses(decks, pointed);
    let both = card_ids(board_entries(decks, Board::Both));
    assert forall|id: Seq<char>|
        (inside.contains_key(id) || outside.contains_key(id)) <==> count_of(
            board_uses(decks, Board::Mainboard),
            id,
        ) + count_of(board_uses(decks, Board::Sideboard), id) > 0 by {
        lemma_uses_add_up(decks, id);
        lemma_count_of_tally(both, id);
        lemma_occurrences_bounds(both, id);
    }
    assert forall|id: Seq<char>|
        count_of(inside, id) + count_of(outside, id) == count_of(
            board_uses(decks, Board::Mainboard),
            id,
        ) + count_of(board_uses(decks, Board::Sideboard), id) by {
        lemma_uses_add_up(decks, id);
    }
}

/// The cards by identifier have an entry for each identifier among the
/// entries, and for no other.
pub proof fn lemma_card_projection_keys(entries: Seq<DeckCardView>, id: Seq<char>)
    ensures
        card_projection(entries).contains_key(id) <==> card_ids(entries).contains(id),
    decreases entries.len(),
{
    let ids = card_ids(entries);
    if entries.len() > 0 {
        let rest = entries.drop_last();
        lemma_card_projection_keys(rest, id);
        if entries.last().id == id {
            assert(ids[entries.len() - 1] == id);
        } else if card_ids(rest).contains(id) {
            let i = card_ids(rest).index_of(id);
            assert(0 <= i < rest.len() && card_ids(rest)[i] == id);
            assert(ids[i] == id);
        } else if ids.contains(id) {
            let i = ids.index_of(id);
            assert(0 <= i < ids.len() && ids[i] == id);
            assert(card_ids(rest)[i] == id);
        }
    }
}

/// Every card that the statistics of an event count, on whichever board and on
/// whichever side of the points table, is among the cards of the record.
pub proof fn law_event_counts_are_of_its_cards(
    event: EventView,
    decks: Seq<DeckView>,
    points: Seq<PointView>,
)
    ensures
        event_stats_of(event, decks, points).mainboard_uses.dom().subset_of(
            event_stats_of(event, decks, points).cards.dom(),
        ),
        event_stats_of(event, decks, points).sideboard_uses.dom().subset_of(
            event_stats_of(event, decks, points).cards.dom(),
        ),
        event_stats_of(event, decks, points).pointed_uses.dom().subset_of(
            event_stats_of(event, decks, points).cards.dom(),
        ),
        event_stats_of(event, decks, points).non_pointed_uses.dom().subset_of(
            event_stats_of(event, decks, points).cards.dom(),
        ),
{
    let stats = event_stats_of(event, decks, points);
    let entries = board_entries(decks, Board::Both);
    assert forall|id: Seq<char>|
        (stats.mainboard_uses.contains_key(id) || stats.sideboard_uses.contains_key(id)
            || stats.pointed_uses.contains_key(id) || stats.non_pointed_uses.contains_key(id))
        implies stats.cards.contains_key(id) by {
        lemma_uses_add_up(decks, id);
        lemma_count_of_tally(card_ids(entries), id);
        lemma_count_of_tally(card_ids(board_entries(decks, Board::Mainboard)), id);
        lemma_count_of_tally(card_ids(board_entries(decks, Board::Sideboard)), id);
        lemma_occurrences_bounds(card_ids(entries), id);
        lemma_occurrences_bounds(card_ids(board_entries(decks, Board::Mainboard)), id);
        lemma_occurrences_bounds(card_ids(board_entries(decks, Board::Sideboard)), id);
        lemma_card_projection_keys(entries, id);
    }
}

/// In the statistics of a catalog every count is of one of its cards: the
/// counters have an entry for each card, and the points table parts the cards
/// in two.
pub proof fn law_catalog_counts_are_of_its_cards(cards: Seq<CardView>, points: Seq<PointView>)
    ensures
        catalog_stats_of(cards, points).mainboard_uses.dom() == catalog_stats_of(
            cards,
            points,
        ).cards.dom(),
        catalog_stats_of(cards, points).sideboard_uses.dom() == catalog_stats_of(
            cards,
            points,
        ).cards.dom(),
        catalog_stats_of(cards, points).pointed_uses.dom().disjoint(
            catalog_stats_of(cards, points).non_pointed_uses.dom(),
        ),
        catalog_stats_of(cards, points).pointed_uses.dom().union(
            catalog_stats_of(cards, points).non_pointed_uses.dom(),
        ) == catalog_stats_of(cards, points).cards.dom(),
{
    let stats = catalog_stats_of(cards, points);
    assert(stats.mainboard_uses.dom() =~= stats.cards.dom());
    assert(stats.sideboard_uses.dom() =~= stats.cards.dom());
    assert(stats.pointed_uses.dom().union(stats.non_pointed_uses.dom()) =~= stats.cards.dom());
}

/// What all parts hold is what some part holds.
pub proof fn lemma_flatten_contains<A>(parts: Seq<Seq<A>>, item: A)
    ensures
        parts.flatten().contains(item) <==> exists|i: int|
            0 <= i < parts.len() && (#[trigger] parts[i]).contains(item),
    decreases parts.len(),
{
    if parts.len() == 0 {
        assert(parts.flatten() =~= Seq::empty());
    } else {
        let n = parts.len() - 1;
        let rest = parts.take(n);
        let last = parts[n];
        lemma_flatten_contains(rest, item);
        lemma_flatten_step(parts, n);
        assert(parts.take(n + 1) =~= parts);
        let whole = parts.flatten();
        let before = rest.flatten();
        if whole.contains(item) {
            let a = whole.index_of(item);
            assert(0 <= a < whole.len() && whole[a] == item);
            if a < before.len() {
                assert(before[a] == item);
                let i = choose|i: int| 0 <= i < rest.len() && (#[trigger] rest[i]).contains(item);
                assert(parts[i].contains(item));
            } else {
                assert(last[a - before.len()] == item);
                assert(parts[n].contains(item));
            }
        }
        if exists|i: int| 0 <= i < parts.len() && (#[trigger] parts[i]).contains(item) {
            let i = choose|i: int| 0 <= i < parts.len() && (#[trigger] parts[i]).contains(item);
            if i < n {
                assert(rest[i].contains(item));
                let a = before.index_of(item);
                assert(0 <= a < before.len() && before[a] == item);
                assert(whole[a] == item);
            } else {
                let a = last.index_of(item);
                assert(0 <= a < last.len() && last[a] == item);
                assert(whole[before.len() + a] == item);
            }
        }
    }
}

/// The keys of the colour usage are the colour codes of the cards: a code has
/// an entry exactly if one of the cards carries it.
pub proof fn law_colour_usage_keys_are_colour_codes(
    ids: Seq<Seq<char>>,
    cards: Map<Seq<char>, DeckCardView>,
    code: Seq<char>,
)
    ensures
        colour_usage(ids, cards).contains_key(code) <==> exists|i: int|
            0 <= i < ids.len() && cards[#[trigger] ids[i]].colours.contains(code),
{
    let parts = colour_parts(ids, cards);
    lemma_flatten_contains(parts, code);
    if exists|i: int| 0 <= i < parts.len() && (#[trigger] parts[i]).contains(code) {
        let i = choose|i: int| 0 <= i < parts.len() && (#[trigger] parts[i]).contains(code);
        assert(cards[ids[i]].colours.contains(code));
    }
    if exists|i: int| 0 <= i < ids.len() && cards[#[trigger] ids[i]].colours.contains(code) {
        let i = choose|i: int|
            0 <= i < ids.len() && cards[#[trigger] ids[i]].colours.contains(code);
        assert(parts[i].contains(code));
    }
}

/// The colour usage counts a card once, however often decks play it: one more
/// copy of a card that is among the entries already changes nothing.
pub proof fn law_colour_usage_counts_a_card_once(entries: Seq<DeckCardView>, again: DeckCardView)
    requires
        card_ids(entries).contains(again.id),
        card_projection(entries)[again.id] == again,
    ensures
        card_projection(entries.push(again)) == card_projection(entries),
        distinct(card_ids(entries.push(again))) == distinct(card_ids(entries)),
        colour_usage(
            distinct(card_ids(entries.push(again))),
            card_projection(entries.push(again)),
        ) == colour_usage(distinct(card_ids(entries)), card_projection(entries)),
{
    let more = entries.push(again);
    assert(more.drop_last() =~= entries);
    assert(card_ids(more).drop_last() =~= card_ids(entries));
    lemma_card_projection_keys(entries, again.id);
    lemma_distinct_onto_holds(Seq::<Seq<char>>::empty(), card_ids(entries));
    assert(card_projection(more) =~= card_projection(entries));
}

/// The number of colour codes that the cards carry is the length of the colour
/// codes put in a row.
pub proof fn lemma_colour_codes_len(ids: Seq<Seq<char>>, cards: Map<Seq<char>, DeckCardView>)
    ensures
        colour_codes(ids, cards).len() == colour_code_total(ids, cards),
    decreases ids.len(),
{
    let parts = colour_parts(ids, cards);
    if ids.len() == 0 {
        assert(parts =~= Seq::empty());
    } else {
        let n = ids.len() - 1;
        lemma_colour_codes_len(ids.drop_last(), cards);
        assert(parts.take(n) =~= colour_parts(ids.drop_last(), cards));
        assert(parts.take(n + 1) =~= parts);
        lemma_flatten_step(parts, n);
    }
}

/// The counts of the colour usage add up to the number of colour codes that
/// the cards carry: each card counts once for each of its colour codes.
pub proof fn law_colour_usage_adds_up(ids: Seq<Seq<char>>, cards: Map<Seq<char>, DeckCardView>)
    ensures
        colour_usage(ids, cards).dom().finite(),
        sum_of_counts(colour_usage(ids, cards)) == colour_code_total(ids, cards),
{
    lemma_tally_adds_up(colour_codes(ids, cards));
    lemma_colour_codes_len(ids, cards);
}

/// In the statistics of an event the counts of the colour usage add up to the
/// number of colour codes that its distinct cards carry.
pub proof fn law_event_colour_usage_adds_up(
    event: EventView,
    decks: Seq<DeckView>,
    points: Seq<PointView>,
)
    ensures
        sum_of_counts(event_stats_of(event, decks, points).colour_usage) == colour_code_total(
            distinct(card_ids(board_entries(decks, Board::Both))),
            event_stats_of(event, decks, points).cards,
        ),
{
    let entries = board_entries(decks, Board::Both);
    law_colour_usage_adds_up(distinct(card_ids(entries)), card_projection(entries));
}

/// In the statistics of a catalog the counts of the colour usage add up to the
/// number of colour codes that its distinct cards carry.
pub proof fn law_catalog_colour_usage_adds_up(cards: Seq<CardView>, points: Seq<PointView>)
    ensures
        sum_of_counts(catalog_stats_of(cards, points).colour_usage) == colour_code_total(
            catalog_ids(cards),
            catalog_stats_of(cards, points).cards,
        ),
{
    law_colour_usage_adds_up(catalog_ids(cards), shown_cards(catalog(cards)));
}

/// Assembling the statistics of a catalog is repeatable: whatever two
/// assemblies of one snapshot hand back, a record or an error, is the same.
pub proof fn law_catalog_stats_repeatable(
    cards: Seq<CardView>,
    points: Seq<PointView>,
    first: Result<Stats, StatsError>,
    second: Result<Stats, StatsError>,
)
    requires
        outcome_view(first) == stats_or_invalid(catalog_stats_of(cards, points)),
        outcome_view(second) == stats_or_invalid(catalog_stats_of(cards, points)),
    ensures
        outcome_view(first) == outcome_view(second),
        first is Ok ==> second is Ok && first->Ok_0@ == second->Ok_0@,
{
}

/// The number of decks that hold a card.
pub open spec fn holding_decks(decks: Seq<DeckView>, id: Seq<char>) -> nat
    decreases decks.len(),
{
    if decks.len() == 0 {
        0
    } else {
        holding_decks(decks.drop_last(), id) + if deck_holds(decks.last(), id) {
            1nat
        } else {
            0nat
        }
    }
}

/// The identifiers of the records of a usage series, in order.
pub open spec fn series_ids(series: Seq<UsageOverTimeView>) -> Seq<Seq<char>> {
    series.map_values(|usage: UsageOverTimeView| usage.id)
}

/// A card has one sample for each deck that holds it, also where several of
/// those decks were made at the same time; it has at least one sample exactly
/// if it stands in at least one deck.
pub proof fn law_one_sample_per_holding_deck(decks: Seq<DeckView>, id: Seq<char>)
    ensures
        samples(decks, id).len() == holding_decks(decks, id),
        holding_decks(decks, id) <= decks.len(),
        holding_decks(decks, id) > 0 <==> card_ids(board_entries(decks, Board::Both)).contains(id),
    decreases decks.len(),
{
    if decks.len() == 0 {
        assert(board_parts(decks, Board::Both) =~= Seq::empty());
        assert(card_ids(board_entries(decks, Board::Both)) =~= Seq::empty());
    } else {
        let rest = decks.drop_last();
        law_one_sample_per_holding_deck(rest, id);
        lemma_board_entries_last(decks, Board::Both);
        lemma_deck_holds(decks.last(), id);
        let before = card_ids(board_entries(rest, Board::Both));
        let added = card_ids(entries_of(decks.last(), Board::Both));
        assert(card_ids(board_entries(decks, Board::Both)) =~= before + added);
        lemma_occurrences_concat(before, added, id);
        lemma_occurrences_bounds(before + added, id);
        lemma_occurrences_bounds(before, id);
        lemma_occurrences_bounds(added, id);
    }
}

/// The usage series holds one record for each card that stands in at least one
/// deck, and for no other; each record holds at least one sample.
pub proof fn law_one_record_per_card(decks: Seq<DeckView>)
    ensures
        series_ids(usage_series(decks)).no_duplicates(),
        forall|id: Seq<char>| #[trigger]
            series_ids(usage_series(decks)).contains(id) <==> card_ids(
                board_entries(decks, Board::Both),
            ).contains(id),
        forall|i: int|
            0 <= i < usage_series(decks).len() ==> (#[trigger] usage_series(decks)[i]).data.len()
                > 0,
{
    let ids = card_ids(board_entries(decks, Board::Both));
    lemma_distinct_onto_holds(Seq::<Seq<char>>::empty(), ids);
    assert(series_ids(usage_series(decks)) =~= distinct(ids));
    assert forall|i: int| 0 <= i < usage_series(decks).len() implies (#[trigger] usage_series(
        decks,
    )[i]).data.len() > 0 by {
        let id = distinct(ids)[i];
        assert(distinct(ids).contains(id));
        law_one_sample_per_holding_deck(decks, id);
    }
}

/// Storing a record leaves exactly one record with its key in a store that
/// held no key twice, and that record is the one that was stored; the store
/// still holds no key twice, and it has grown by one record exactly if the key
/// is new.
pub proof fn law_upsert_one_record_per_key<R: Keyed>(store: Seq<R>, record: R)
    requires
        keys_of(store).no_duplicates(),
    ensures
        keys_of(upserted(store, record)).no_duplicates(),
        occurrences(keys_of(upserted(store, record)), record.key_view()) == 1,
        upserted(store, record)[place_of(upserted(store, record), record.key_view())] == record,
        upserted(store, record).len() == if keys_of(store).contains(record.key_view()) {
            store.len()
        } else {
            store.len() + 1
        },
{
    let key = record.key_view();
    let after = upserted(store, record);
    let keys = keys_of(store);
    let keys_after = keys_of(after);
    let place = place_of(store, key);
    lemma_place_of(store, key);
    if place < store.len() {
        assert(keys_after =~= keys);
    } else {
        assert(keys_after =~= keys.push(key));
        assert forall|i: int, j: int|
            0 <= i < keys_after.len() && 0 <= j < keys_after.len() && i != j implies keys_after[i]
            != keys_after[j] by {
            if i < keys.len() {
                assert(keys[i] == keys_after[i]);
            }
            if j < keys.len() {
                assert(keys[j] == keys_after[j]);
            }
        }
    }
    lemma_place_of(after, key);
    lemma_occurrences_unique(keys_after, key);
    lemma_occurrences_bounds(keys_after, key);
    assert(keys_after.contains(key)) by {
        if place < store.len() {
            assert(keys_after[place] == key);
        } else {
            assert(keys_after[store.len() as int] == key);
        }
    }
    let place_after = place_of(after, key);
    if place < store.len() {
        if place_after != place {
            assert(keys_after[place_after] == key);
            assert(keys_after[place] == key);
        }
    } else {
        if place_after != store.len() {
            assert(keys_after[place_after] == key);
            assert(keys_after[store.len() as int] == key);
        }
    }
}

/// In a sequence without duplicates nothing occurs more than once.
pub proof fn lemma_occurrences_unique<A>(items: Seq<A>, key: A)
    requires
        items.no_duplicates(),
    ensures
        occurrences(items, key) <= 1,
    decreases items.len(),
{
    if items.len() > 0 {
        let rest = items.drop_last();
        lemma_occurrences_unique(rest, key);
        lemma_occurrences_bounds(rest, key);
        if items.last() == key && rest.contains(key) {
            let i = rest.index_of(key);
            assert(0 <= i < rest.len() && rest[i] == key);
            assert(items[i] == items[items.len() - 1]);
        }
    }
}

/// Storing a second record under the key of the first leaves what storing the
/// second alone would have left: records of one key do not pile up, and the
/// record that was stored last is the one that stays.
pub proof fn law_upsert_again_replaces<R: Keyed>(store: Seq<R>, first: R, second: R)
    requires
        first.key_view() == second.key_view(),
    ensures
        upserted(upserted(store, first), second) == upserted(store, second),
{
    let key = first.key_view();
    let once = upserted(store, first);
    let place = place_of(store, key);
    lemma_place_of(store, key);
    lemma_place_of(once, key);
    let place_once = place_of(once, key);
    if place < store.len() {
        assert(once[place].key_view() == key);
        if place_once < place {
            assert(once[place_once] == store[place_once]);
        }
        assert(place_once == place);
        assert(once.update(place, second) =~= store.update(place, second));
    } else {
        assert(once[store.len() as int].key_view() == key);
        if place_once < store.len() {
            assert(once[place_once] == store[place_once]);
            assert(keys_of(store)[place_once] == key);
        }
        assert(place_once == store.len());
        assert(once.update(place_once, second) =~= store.push(second));
    }
}

/// Assembling the statistics of an event again, from whatever decks and points
/// table, and storing them again leaves one record with the tag of the event,
/// and that record is the one that was assembled last.
pub proof fn law_event_stats_rerun_keeps_the_latest(
    store: Seq<Stats>,
    event: EventView,
    first: Stats,
    second: Stats,
    first_decks: Seq<DeckView>,
    first_points: Seq<PointView>,
    second_decks: Seq<DeckView>,
    second_points: Seq<PointView>,
)
    requires
        keys_of(store).no_duplicates(),
        first@ == event_stats_of(event, first_decks, first_points),
        second@ == event_stats_of(event, second_decks, second_points),
    ensures
        first.key_view() == second.key_view(),
        second.key_view() == event_tag(event.id),
        keys_of(upserted(upserted(store, first), second)).no_duplicates(),
        occurrences(
            keys_of(upserted(upserted(store, first), second)),
            event_tag(event.id),
        ) == 1,
        upserted(upserted(store, first), second)[place_of(
            upserted(upserted(store, first), second),
            event_tag(event.id),
        )] == second,
        upserted(upserted(store, first), second).len() == upserted(store, first).len(),
{
    law_upsert_one_record_per_key(store, first);
    law_upsert_one_record_per_key(upserted(store, first), second);
    lemma_occurrences_bounds(keys_of(upserted(store, first)), first.key_view());
}

} // verus!
