//! The statistics record, and its assembly for one event or for the whole
//! catalog.

use vstd::prelude::*;
use vstd::string::StringExecFns;
use crate::catalog::{
    catalog, catalog_ids, mainboard_counts, read_catalog, shown_cards, sideboard_counts,
    sum_by_points, summed, total_counts,
};
use crate::error::StatsError;
use crate::lookup::{decks_among, decks_in, deck_ids_of, event_by_id, find_event};
use crate::ordered_map::OrderedMap;
use crate::points::{pointed_ids, points};
use crate::tally::{card_ids, counts_of, distinct, fits};
use crate::types::{
    Card, CardView, Deck, DeckCard, DeckCardView, DeckView, Event, EventView, Point, PointView,
};
use crate::usage::{
    board_entries, board_uses, card_projection, card_universe, card_views, colour_usage,
    count_colours, count_uses, non_pointed_uses, pointed_uses, split_by_points, Board,
};

verus! {

/// The statistics of one scope: of one event, or of the whole catalog.
pub struct Stats {
    /// `"cards"` for the catalog, `"event-"` and the event's identifier for an
    /// event.
    pub tag: String,
    pub mainboard_uses: OrderedMap<usize>,
    pub sideboard_uses: OrderedMap<usize>,
    pub pointed_uses: OrderedMap<usize>,
    pub non_pointed_uses: OrderedMap<usize>,
    pub colour_usage: OrderedMap<usize>,
    pub cards: OrderedMap<DeckCard>,
}

/// What a [`Stats`] record is, as a mathematical value.
pub struct StatsView {
    pub tag: Seq<char>,
    pub mainboard_uses: Map<Seq<char>, nat>,
    pub sideboard_uses: Map<Seq<char>, nat>,
    pub pointed_uses: Map<Seq<char>, nat>,
    pub non_pointed_uses: Map<Seq<char>, nat>,
    pub colour_usage: Map<Seq<char>, nat>,
    pub cards: Map<Seq<char>, DeckCardView>,
}

impl View for Stats {
    type V = StatsView;

    open spec fn view(&self) -> StatsView {
        StatsView {
            tag: self.tag@,
            mainboard_uses: counts_of(self.mainboard_uses@),
            sideboard_uses: counts_of(self.sideboard_uses@),
            pointed_uses: counts_of(self.pointed_uses@),
            non_pointed_uses: counts_of(self.non_pointed_uses@),
            colour_usage: counts_of(self.colour_usage@),
            cards: card_views(self.cards@),
        }
    }
}

impl DeepView for Stats {
    type V = StatsView;

    open spec fn deep_view(&self) -> StatsView {
        self@
    }
}

impl StatsView {
    /// Whether a record can hold these statistics: whether every count fits a
    /// `usize`.
    pub open spec fn representable(self) -> bool {
        &&& fits(self.mainboard_uses)
        &&& fits(self.sideboard_uses)
        &&& fits(self.pointed_uses)
        &&& fits(self.non_pointed_uses)
        &&& fits(self.colour_usage)
    }
}

/// What an assembly hands back, as a mathematical value.
pub open spec fn outcome_view(outcome: Result<Stats, StatsError>) -> Result<StatsView, StatsError> {
    match outcome {
        Ok(record) => Ok(record@),
        Err(e) => Err(e),
    }
}

/// What an assembly owes for these statistics: a record that holds them, or,
/// where no record can, the error `InvalidNumeric`.
pub open spec fn stats_or_invalid(stats: StatsView) -> Result<StatsView, StatsError> {
    if stats.representable() {
        Ok(stats)
    } else {
        Err(StatsError::InvalidNumeric)
    }
}

/// The tag of the statistics of an event.
pub open spec fn event_tag(event_id: Seq<char>) -> Seq<char> {
    "event-"@ + event_id
}

/// The statistics of an event with these decks, under this points table.
pub open spec fn event_stats_of(
    event: EventView,
    decks: Seq<DeckView>,
    points: Seq<PointView>,
) -> StatsView {
    let entries = board_entries(decks, Board::Both);
    StatsView {
        tag: event_tag(event.id),
        mainboard_uses: board_uses(decks, Board::Mainboard),
        sideboard_uses: board_uses(decks, Board::Sideboard),
        pointed_uses: pointed_uses(decks, pointed_ids(points)),
        non_pointed_uses: non_pointed_uses(decks, pointed_ids(points)),
        colour_usage: colour_usage(distinct(card_ids(entries)), card_projection(entries)),
        cards: card_projection(entries),
    }
}

/// Counts that fit before they are parted by the points table are the counts
/// that fit in both parts.
pub proof fn lemma_fits_parted(counts: Map<Seq<char>, nat>, pointed: Set<Seq<char>>)
    ensures
        fits(counts) <==> fits(counts.restrict(pointed)) && fits(counts.remove_keys(pointed)),
{
    if !fits(counts) {
        let k = choose|k: Seq<char>| counts.contains_key(k) && !(#[trigger] counts[k] <= usize::MAX);
        if pointed.contains(k) {
            assert(counts.restrict(pointed).contains_key(k));
            assert(counts.restrict(pointed)[k] > usize::MAX);
        } else {
            assert(counts.remove_keys(pointed).contains_key(k));
            assert(counts.remove_keys(pointed)[k] > usize::MAX);
        }
    }
    if fits(counts) {
        assert forall|k: Seq<char>| counts.restrict(pointed).contains_key(k) implies #[trigger] counts.restrict(
            pointed,
        )[k] <= usize::MAX by {
            assert(counts[k] <= usize::MAX);
        }
        assert forall|k: Seq<char>| counts.remove_keys(pointed).contains_key(k) implies #[trigger] counts.remove_keys(
            pointed,
        )[k] <= usize::MAX by {
            assert(counts[k] <= usize::MAX);
        }
    }
}

/// The statistics of an event: how often each card stands in the mainboards
/// and in the sideboards of its decks, how often the pointed cards and the
/// others stand in them, how many of its cards carry each colour code, and the
/// cards themselves. `decks` are the decks of the event.
///
/// A count that does not fit a `usize` is an `InvalidNumeric` error.
pub fn assemble_event_stats(event: &Event, decks: &Vec<Deck>, points_table: &Vec<Point>) -> (stats:
    Result<Stats, StatsError>)
    ensures
        outcome_view(stats) == stats_or_invalid(
            event_stats_of(event@, decks.deep_view(), points_table.deep_view()),
        ),
{
    let ghost pointed_set = pointed_ids(points_table.deep_view());
    proof {
        lemma_fits_parted(board_uses(decks.deep_view(), Board::Both), pointed_set);
    }
    let mainboard_uses = match count_uses(decks, Board::Mainboard) {
        Ok(counts) => counts,
        Err(e) => {
            return Err(e);
        },
    };
    let sideboard_uses = match count_uses(decks, Board::Sideboard) {
        Ok(counts) => counts,
        Err(e) => {
            return Err(e);
        },
    };
    let all_uses = match count_uses(decks, Board::Both) {
        Ok(counts) => counts,
        Err(e) => {
            return Err(e);
        },
    };
    let pointed = points(points_table);
    let (pointed_uses, non_pointed_uses) = split_by_points(&all_uses, &pointed);
    proof {
        assert(counts_of(pointed_uses@) =~= counts_of(all_uses@).restrict(pointed_set));
        assert(counts_of(non_pointed_uses@) =~= counts_of(all_uses@).remove_keys(pointed_set));
    }
    let cards = card_universe(decks);
    let colour_usage = match count_colours(&cards) {
        Ok(counts) => counts,
        Err(e) => {
            return Err(e);
        },
    };
    let tag = "event-".to_owned().concat(event.id.as_str());
    Ok(
        Stats {
            tag,
            mainboard_uses,
            sideboard_uses,
            pointed_uses,
            non_pointed_uses,
            colour_usage,
            cards,
        },
    )
}

/// The tag of the statistics of the catalog.
pub open spec fn catalog_tag() -> Seq<char> {
    "cards"@
}

/// The statistics of a catalog, under this points table: the counters of each
/// card as the catalog holds them, their sums parted by the points table, how
/// many cards carry each colour code, and the cards without their counters.
pub open spec fn catalog_stats_of(cards: Seq<CardView>, points: Seq<PointView>) -> StatsView {
    let held = catalog(cards);
    StatsView {
        tag: catalog_tag(),
        mainboard_uses: mainboard_counts(held),
        sideboard_uses: sideboard_counts(held),
        pointed_uses: total_counts(held).restrict(pointed_ids(points)),
        non_pointed_uses: total_counts(held).remove_keys(pointed_ids(points)),
        colour_usage: colour_usage(catalog_ids(cards), shown_cards(held)),
        cards: shown_cards(held),
    }
}

/// The statistics of the whole catalog. The counters of each card are taken as
/// the catalog holds them; a card with no use at all keeps its entries, with
/// zero. Where several cards bear one identifier, the last of them counts.
///
/// A sum or a count that does not fit a `usize` is an `InvalidNumeric` error.
pub fn assemble_catalog_stats(cards: &Vec<Card>, points_table: &Vec<Point>) -> (stats: Result<
    Stats,
    StatsError,
>)
    ensures
        outcome_view(stats) == stats_or_invalid(
            catalog_stats_of(cards.deep_view(), points_table.deep_view()),
        ),
{
    let ghost held = catalog(cards.deep_view());
    let ghost pointed_set = pointed_ids(points_table.deep_view());
    let read = read_catalog(cards);
    proof {
        assert(summed(read.mainboard@, read.sideboard@) =~= total_counts(held)) by {
            assert forall|k: Seq<char>| held.contains_key(k) implies (read.mainboard@[k]
                + read.sideboard@[k]) as nat == held[k].mainboard_count
                + held[k].sideboard_count by {
                assert(mainboard_counts(held).contains_key(k));
                assert(sideboard_counts(held).contains_key(k));
                assert(read.mainboard@.contains_key(k));
                assert(read.sideboard@.contains_key(k));
                assert(counts_of(read.mainboard@)[k] == mainboard_counts(held)[k]);
                assert(counts_of(read.sideboard@)[k] == sideboard_counts(held)[k]);
            }
            assert forall|k: Seq<char>| held.contains_key(k) <==> read.mainboard@.contains_key(
                k,
            ) by {
                assert(counts_of(read.mainboard@).contains_key(k) == mainboard_counts(
                    held,
                ).contains_key(k));
            }
        }
        lemma_fits_parted(total_counts(held), pointed_set);
        assert(fits(counts_of(read.mainboard@)));
        assert(fits(counts_of(read.sideboard@)));
    }
    let pointed = points(points_table);
    let (pointed_uses, non_pointed_uses) = match sum_by_points(
        &read.mainboard,
        &read.sideboard,
        &pointed,
    ) {
        Ok(parts) => parts,
        Err(e) => {
            return Err(e);
        },
    };
    let colour_usage = match count_colours(&read.cards) {
        Ok(counts) => counts,
        Err(e) => {
            return Err(e);
        },
    };
    Ok(
        Stats {
            tag: "cards".to_owned(),
            mainboard_uses: read.mainboard,
            sideboard_uses: read.sideboard,
            pointed_uses,
            non_pointed_uses,
            colour_usage,
            cards: read.cards,
        },
    )
}

/// What [`event_stats`] owes: `NotFound` where no event bears the identifier;
/// else the statistics of the first event that bears it, over those of the
/// decks that took part in it.
pub open spec fn event_stats_outcome(
    events: Seq<EventView>,
    decks: Seq<DeckView>,
    points: Seq<PointView>,
    id: Seq<char>,
) -> Result<StatsView, StatsError> {
    match find_event(events, id) {
        None => Err(StatsError::NotFound),
        Some(event) => stats_or_invalid(
            event_stats_of(event, decks_among(decks, deck_ids_of(event)), points),
        ),
    }
}

/// The statistics of the event with this identifier: looks the event up among
/// `events`, picks out of `decks` those that took part in it, and assembles
/// their statistics.
pub fn event_stats(
    events: &Vec<Event>,
    decks: &Vec<Deck>,
    points_table: &Vec<Point>,
    id: &str,
) -> (stats: Result<Stats, StatsError>)
    ensures
        outcome_view(stats) == event_stats_outcome(
            events.deep_view(),
            decks.deep_view(),
            points_table.deep_view(),
            id@,
        ),
{
    let event = match event_by_id(events, id) {
        Ok(event) => event,
        Err(e) => {
            return Err(e);
        },
    };
    let ids = event.deck_ids();
    let taking_part = decks_in(decks, &ids);
    assemble_event_stats(event, &taking_part, points_table)
}

} // verus!
