//! Deck-driven mode: how often the cards stand in the boards of a set of
//! decks, and how many of them carry each colour code.

use vstd::prelude::*;
use vstd::seq_lib::lemma_flatten_concat;
use crate::error::StatsError;
use crate::ordered_map::OrderedMap;
use crate::points::PointedSet;
use crate::tally::{
    card_ids, count_card_ids, count_strings, counts_of, distinct, distinct_onto, fits,
    lemma_add_tally_concat, lemma_add_tally_prefix_overflows, lemma_distinct_onto_concat, tally,
};
use crate::types::{Deck, DeckCard, DeckCardView, DeckView};

verus! {

/// Which entries of a deck are looked at.
#[derive(Clone, Copy, Debug, PartialEq, Eq)]
pub enum Board {
    Mainboard,
    Sideboard,
    /// The mainboard followed by the sideboard.
    Both,
}

/// The entries of one deck on a board.
pub open spec fn entries_of(deck: DeckView, board: Board) -> Seq<DeckCardView> {
    match board {
        Board::Mainboard => deck.mainboard,
        Board::Sideboard => deck.sideboard,
        Board::Both => deck.mainboard + deck.sideboard,
    }
}

/// The entries of each deck on a board.
pub open spec fn board_parts(decks: Seq<DeckView>, board: Board) -> Seq<Seq<DeckCardView>> {
    decks.map_values(|d: DeckView| entries_of(d, board))
}

/// The entries of all decks on a board, deck after deck.
pub open spec fn board_entries(decks: Seq<DeckView>, board: Board) -> Seq<DeckCardView> {
    board_parts(decks, board).flatten()
}

/// How often each card stands on a board, over all decks.
pub open spec fn board_uses(decks: Seq<DeckView>, board: Board) -> Map<Seq<char>, nat> {
    tally(card_ids(board_entries(decks, board)))
}

/// How often each pointed card stands in the decks, mainboard and sideboard
/// together.
pub open spec fn pointed_uses(decks: Seq<DeckView>, pointed: Set<Seq<char>>) -> Map<Seq<char>, nat> {
    board_uses(decks, Board::Both).restrict(pointed)
}

/// How often each card that is not pointed stands in the decks, mainboard and
/// sideboard together.
pub open spec fn non_pointed_uses(decks: Seq<DeckView>, pointed: Set<Seq<char>>) -> Map<
    Seq<char>,
    nat,
> {
    board_uses(decks, Board::Both).remove_keys(pointed)
}

/// `base` with each entry put under its identifier, one after the other: where
/// several entries bear one identifier, the last of them stays.
pub open spec fn project_onto(
    base: Map<Seq<char>, DeckCardView>,
    entries: Seq<DeckCardView>,
) -> Map<Seq<char>, DeckCardView>
    decreases entries.len(),
{
    if entries.len() == 0 {
        base
    } else {
        project_onto(base, entries.drop_last()).insert(entries.last().id, entries.last())
    }
}

/// The cards by identifier. Where several entries bear one identifier, the
/// last of them stands for the card.
pub open spec fn card_projection(entries: Seq<DeckCardView>) -> Map<Seq<char>, DeckCardView> {
    project_onto(Map::empty(), entries)
}

/// The colour codes of each of the cards `ids`.
pub open spec fn colour_parts(ids: Seq<Seq<char>>, cards: Map<Seq<char>, DeckCardView>) -> Seq<
    Seq<Seq<char>>,
> {
    ids.map_values(|id: Seq<char>| cards[id].colours)
}

/// The colour codes that the cards `ids` carry, card after card.
pub open spec fn colour_codes(ids: Seq<Seq<char>>, cards: Map<Seq<char>, DeckCardView>) -> Seq<
    Seq<char>,
> {
    colour_parts(ids, cards).flatten()
}

/// How many cards carry each colour code: every card of `ids` counts once for
/// each colour code in its list, however often decks play it.
pub open spec fn colour_usage(ids: Seq<Seq<char>>, cards: Map<Seq<char>, DeckCardView>) -> Map<
    Seq<char>,
    nat,
> {
    tally(colour_codes(ids, cards))
}

/// The cards of a map as mathematical values.
pub open spec fn card_views(cards: Map<Seq<char>, DeckCard>) -> Map<Seq<char>, DeckCardView> {
    cards.map_values(|c: DeckCard| c@)
}

/// What the first parts hold comes first in what all parts hold.
pub proof fn lemma_flatten_prefix<A>(parts: Seq<Seq<A>>, n: int)
    requires
        0 <= n <= parts.len(),
    ensures
        parts.take(n).flatten().len() <= parts.flatten().len(),
        parts.flatten().take(parts.take(n).flatten().len() as int) == parts.take(n).flatten(),
{
    assert(parts =~= parts.take(n) + parts.skip(n));
    lemma_flatten_concat(parts.take(n), parts.skip(n));
    assert(parts.flatten().take(parts.take(n).flatten().len() as int) =~= parts.take(n).flatten());
}

/// One more part puts what it holds behind what the parts before it hold.
pub proof fn lemma_flatten_step<A>(parts: Seq<Seq<A>>, i: int)
    requires
        0 <= i < parts.len(),
    ensures
        parts.take(i + 1).flatten() == parts.take(i).flatten() + parts[i],
{
    assert(parts.take(i + 1) =~= parts.take(i).push(parts[i]));
    parts.take(i).lemma_flatten_push(parts[i]);
}

/// Putting two runs of entries under their identifiers one after the other is
/// putting the two in a row.
pub proof fn lemma_project_onto_concat(
    base: Map<Seq<char>, DeckCardView>,
    first: Seq<DeckCardView>,
    second: Seq<DeckCardView>,
)
    ensures
        project_onto(project_onto(base, first), second) == project_onto(base, first + second),
    decreases second.len(),
{
    if second.len() == 0 {
        assert(first + second =~= first);
    } else {
        assert((first + second).drop_last() =~= first + second.drop_last());
        lemma_project_onto_concat(base, first, second.drop_last());
    }
}

/// Counts how often each card stands on a board, over all decks. A count that
/// does not fit a `usize` is an `InvalidNumeric` error.
pub fn count_uses(decks: &Vec<Deck>, board: Board) -> (uses: Result<OrderedMap<usize>, StatsError>)
    ensures
        uses is Ok <==> fits(board_uses(decks.deep_view(), board)),
        match uses {
            Ok(counts) => counts_of(counts@) == board_uses(decks.deep_view(), board),
            Err(e) => e == StatsError::InvalidNumeric,
        },
{
    let mut counts: OrderedMap<usize> = OrderedMap::new();
    let ghost all = decks.deep_view();
    let ghost parts = board_parts(all, board);
    proof {
        assert(parts.take(0) =~= Seq::empty());
        assert(counts_of(counts@) =~= tally(card_ids(parts.take(0).flatten())));
    }
    let mut i: usize = 0;
    while i < decks.len()
        invariant
            i <= decks.len(),
            all == decks.deep_view(),
            parts == board_parts(all, board),
            counts_of(counts@) == tally(card_ids(parts.take(i as int).flatten())),
        decreases decks.len() - i,
    {
        let ghost before = card_ids(parts.take(i as int).flatten());
        let ghost added = card_ids(parts[i as int]);
        proof {
            lemma_flatten_step(parts, i as int);
            assert(card_ids(parts.take(i + 1).flatten()) =~= before + added);
            lemma_add_tally_concat(Map::empty(), before, added);
        }
        let done = match board {
            Board::Mainboard => count_card_ids(&mut counts, &decks[i].mainboard),
            Board::Sideboard => count_card_ids(&mut counts, &decks[i].sideboard),
            Board::Both => {
                let ghost main = card_ids(all[i as int].mainboard);
                let ghost side = card_ids(all[i as int].sideboard);
                proof {
                    assert(added =~= main + side);
                    lemma_add_tally_concat(tally(before), main, side);
                }
                if count_card_ids(&mut counts, &decks[i].mainboard) {
                    count_card_ids(&mut counts, &decks[i].sideboard)
                } else {
                    proof {
                        assert((main + side).take(main.len() as int) =~= main);
                        lemma_add_tally_prefix_overflows(
                            tally(before),
                            main + side,
                            main.len() as int,
                        );
                    }
                    false
                }
            },
        };
        if !done {
            proof {
                let whole = card_ids(parts.flatten());
                lemma_flatten_prefix(parts, i + 1);
                assert(whole.take((before + added).len() as int) =~= before + added);
                lemma_add_tally_prefix_overflows(Map::empty(), whole, (before + added).len() as int);
            }
            return Err(StatsError::InvalidNumeric);
        }
        i += 1;
    }
    proof {
        assert(parts.take(i as int) =~= parts);
    }
    Ok(counts)
}

/// Puts a copy of each card of a board into `cards`, under its identifier.
fn collect_cards(cards: &mut OrderedMap<DeckCard>, board: &Vec<DeckCard>)
    ensures
        card_views(final(cards)@) == project_onto(card_views(old(cards)@), board.deep_view()),
        final(cards).spec_keys() == distinct_onto(old(cards).spec_keys(), card_ids(board.deep_view())),
{
    let ghost entries = board.deep_view();
    let mut j: usize = 0;
    proof {
        assert(entries.take(0) =~= Seq::empty());
        assert(card_ids(entries.take(0)) =~= Seq::empty());
    }
    while j < board.len()
        invariant
            j <= board.len(),
            entries == board.deep_view(),
            card_views(cards@) == project_onto(card_views(old(cards)@), entries.take(j as int)),
            cards.spec_keys() == distinct_onto(
                old(cards).spec_keys(),
                card_ids(entries.take(j as int)),
            ),
        decreases board.len() - j,
    {
        let ghost held = cards@;
        proof {
            assert(entries.take(j + 1).drop_last() =~= entries.take(j as int));
            assert(card_ids(entries.take(j + 1)).drop_last() =~= card_ids(entries.take(j as int)));
        }
        cards.insert(board[j].id.clone(), board[j].clone());
        proof {
            assert(card_views(cards@) =~= card_views(held).insert(
                entries[j as int].id,
                entries[j as int],
            ));
        }
        j += 1;
    }
    proof {
        assert(entries.take(j as int) =~= entries);
    }
}

/// The cards that the decks hold, by identifier, in the order in which each
/// first occurs (mainboard before sideboard, deck after deck). Where several
/// entries bear one identifier, the last of them stands for the card.
pub fn card_universe(decks: &Vec<Deck>) -> (cards: OrderedMap<DeckCard>)
    ensures
        card_views(cards@) == card_projection(board_entries(decks.deep_view(), Board::Both)),
        cards.spec_keys() == distinct(card_ids(board_entries(decks.deep_view(), Board::Both))),
{
    let mut cards: OrderedMap<DeckCard> = OrderedMap::new();
    let ghost all = decks.deep_view();
    let ghost parts = board_parts(all, Board::Both);
    proof {
        assert(parts.take(0) =~= Seq::empty());
        assert(card_views(cards@) =~= Map::empty());
        assert(card_ids(parts.take(0).flatten()) =~= Seq::empty());
    }
    let mut i: usize = 0;
    while i < decks.len()
        invariant
            i <= decks.len(),
            all == decks.deep_view(),
            parts == board_parts(all, Board::Both),
            card_views(cards@) == card_projection(parts.take(i as int).flatten()),
            cards.spec_keys() == distinct(card_ids(parts.take(i as int).flatten())),
        decreases decks.len() - i,
    {
        let ghost before = parts.take(i as int).flatten();
        let ghost main = all[i as int].mainboard;
        let ghost side = all[i as int].sideboard;
        proof {
            lemma_flatten_step(parts, i as int);
            assert(parts.take(i + 1).flatten() =~= (before + main) + side);
            lemma_project_onto_concat(Map::empty(), before, main);
            lemma_project_onto_concat(Map::empty(), before + main, side);
            assert(card_ids(before + main) =~= card_ids(before) + card_ids(main));
            assert(card_ids((before + main) + side) =~= card_ids(before + main) + card_ids(side));
            lemma_distinct_onto_concat(Seq::empty(), card_ids(before), card_ids(main));
            lemma_distinct_onto_concat(Seq::empty(), card_ids(before + main), card_ids(side));
        }
        collect_cards(&mut cards, &decks[i].mainboard);
        collect_cards(&mut cards, &decks[i].sideboard);
        i += 1;
    }
    proof {
        assert(parts.take(i as int) =~= parts);
    }
    cards
}

/// Parts the counts in two: those of the pointed cards, and those of the
/// others.
pub fn split_by_points(uses: &OrderedMap<usize>, pointed: &PointedSet) -> (parts: (
    OrderedMap<usize>,
    OrderedMap<usize>,
))
    ensures
        parts.0@ == uses@.restrict(pointed@),
        parts.1@ == uses@.remove_keys(pointed@),
{
    let mut inside: OrderedMap<usize> = OrderedMap::new();
    let mut outside: OrderedMap<usize> = OrderedMap::new();
    let n = uses.len();
    let ghost keys = uses.spec_keys();
    proof {
        assert(keys.take(0) =~= Seq::empty());
        assert(inside@ =~= uses@.restrict(pointed@).restrict(keys.take(0).to_set()));
        assert(outside@ =~= uses@.remove_keys(pointed@).restrict(keys.take(0).to_set()));
    }
    let mut i: usize = 0;
    while i < n
        invariant
            i <= n,
            n == keys.len(),
            keys == uses.spec_keys(),
            uses.well_formed(),
            inside@ == uses@.restrict(pointed@).restrict(keys.take(i as int).to_set()),
            outside@ == uses@.remove_keys(pointed@).restrict(keys.take(i as int).to_set()),
        decreases n - i,
    {
        let key = uses.key_at(i);
        let value: usize = *uses.value_at(i);
        let ghost seen = keys.take(i as int).to_set();
        proof {
            assert(keys.take(i + 1) =~= keys.take(i as int).push(keys[i as int]));
            keys.take(i as int).lemma_push_to_set_commute(keys[i as int]);
        }
        if pointed.contains(key.as_str()) {
            inside.insert(key.clone(), value);
            proof {
                assert(inside@ =~= uses@.restrict(pointed@).restrict(keys.take(i + 1).to_set()));
                assert(outside@ =~= uses@.remove_keys(pointed@).restrict(
                    keys.take(i + 1).to_set(),
                ));
            }
        } else {
            outside.insert(key.clone(), value);
            proof {
                assert(inside@ =~= uses@.restrict(pointed@).restrict(keys.take(i + 1).to_set()));
                assert(outside@ =~= uses@.remove_keys(pointed@).restrict(
                    keys.take(i + 1).to_set(),
                ));
            }
        }
        i += 1;
    }
    proof {
        assert(keys.take(i as int) =~= keys);
        assert(inside@ =~= uses@.restrict(pointed@));
        assert(outside@ =~= uses@.remove_keys(pointed@));
    }
    (inside, outside)
}

/// Counts how many cards carry each colour code: each card of the map counts
/// once for each colour code in its list. A count that does not fit a `usize`
/// is an `InvalidNumeric` error.
pub fn count_colours(cards: &OrderedMap<DeckCard>) -> (usage: Result<OrderedMap<usize>, StatsError>)
    ensures
        usage is Ok <==> fits(colour_usage(cards.spec_keys(), card_views(cards@))),
        match usage {
            Ok(counts) => counts_of(counts@) == colour_usage(cards.spec_keys(), card_views(cards@)),
            Err(e) => e == StatsError::InvalidNumeric,
        },
{
    let mut counts: OrderedMap<usize> = OrderedMap::new();
    let n = cards.len();
    let ghost keys = cards.spec_keys();
    let ghost parts = colour_parts(keys, card_views(cards@));
    proof {
        assert(parts.take(0) =~= Seq::empty());
        assert(counts_of(counts@) =~= tally(parts.take(0).flatten()));
    }
    let mut i: usize = 0;
    while i < n
        invariant
            i <= n,
            n == keys.len(),
            keys == cards.spec_keys(),
            parts == colour_parts(keys, card_views(cards@)),
            counts_of(counts@) == tally(parts.take(i as int).flatten()),
        decreases n - i,
    {
        let card = cards.value_at(i);
        let ghost before = parts.take(i as int).flatten();
        proof {
            lemma_flatten_step(parts, i as int);
            assert(parts[i as int] == card.colours.deep_view());
            lemma_add_tally_concat(Map::empty(), before, parts[i as int]);
        }
        if !count_strings(&mut counts, &card.colours) {
            proof {
                let whole = parts.flatten();
                lemma_flatten_prefix(parts, i + 1);
                lemma_add_tally_prefix_overflows(
                    Map::empty(),
                    whole,
                    parts.take(i + 1).flatten().len() as int,
                );
            }
            return Err(StatsError::InvalidNumeric);
        }
        i += 1;
    }
    proof {
        assert(parts.take(i as int) =~= parts);
    }
    Ok(counts)
}

} // verus!
