//! The usage of each card over time: one sample for each deck that holds the
//! card.

use vstd::prelude::*;
use crate::ordered_map::OrderedMap;
use crate::tally::{
    card_ids, distinct, distinct_onto, lemma_distinct_onto_concat, lemma_distinct_onto_distinct,
    lemma_distinct_onto_holds, lemma_occurrences_bounds, lemma_occurrences_concat,
    lemma_occurrences_push, occurrences,
};
use crate::types::{
    sample_views, Deck, DeckCard, DeckCardView, DeckView, UsageOverTime, UsageOverTimeView,
};
use crate::usage::{board_entries, board_parts, entries_of, lemma_flatten_step, Board};

verus! {

/// How many entries of a board are this card.
pub open spec fn copies(cards: Seq<DeckCardView>, id: Seq<char>) -> nat {
    occurrences(card_ids(cards), id)
}

/// Whether the deck holds the card, in its mainboard or in its sideboard.
pub open spec fn deck_holds(deck: DeckView, id: Seq<char>) -> bool {
    copies(deck.mainboard, id) + copies(deck.sideboard, id) > 0
}

/// The sample that a deck gives for a card: when the deck was made, and how
/// many copies of the card stand in its mainboard and in its sideboard.
pub open spec fn deck_sample(deck: DeckView, id: Seq<char>) -> (nat, (nat, nat)) {
    (deck.created, (copies(deck.mainboard, id), copies(deck.sideboard, id)))
}

/// The samples of a card: one for each deck that holds it, in the order of the
/// decks. A deck that does not hold the card gives no sample.
pub open spec fn samples(decks: Seq<DeckView>, id: Seq<char>) -> Seq<(nat, (nat, nat))>
    decreases decks.len(),
{
    if decks.len() == 0 {
        Seq::empty()
    } else {
        let before = samples(decks.drop_last(), id);
        if deck_holds(decks.last(), id) {
            before.push(deck_sample(decks.last(), id))
        } else {
            before
        }
    }
}

/// The usage of a card over time in these decks.
pub open spec fn usage_of(decks: Seq<DeckView>, id: Seq<char>) -> UsageOverTimeView {
    UsageOverTimeView { id, data: samples(decks, id) }
}

/// The usage over time of every card that stands in at least one of the decks,
/// legal or not: one record for each card, in the order in which the cards
/// first occur.
pub open spec fn usage_series(decks: Seq<DeckView>) -> Seq<UsageOverTimeView> {
    distinct(card_ids(board_entries(decks, Board::Both))).map_values(
        |id: Seq<char>| usage_of(decks, id),
    )
}

/// A deck holds a card exactly if the card is among its entries.
pub proof fn lemma_deck_holds(deck: DeckView, id: Seq<char>)
    ensures
        deck_holds(deck, id) <==> card_ids(entries_of(deck, Board::Both)).contains(id),
{
    let main = card_ids(deck.mainboard);
    let side = card_ids(deck.sideboard);
    assert(card_ids(entries_of(deck, Board::Both)) =~= main + side);
    lemma_occurrences_concat(main, side, id);
    lemma_occurrences_bounds(main + side, id);
}

/// A card that stands in none of the decks has no samples.
pub proof fn lemma_samples_of_absent(decks: Seq<DeckView>, id: Seq<char>)
    requires
        !card_ids(board_entries(decks, Board::Both)).contains(id),
    ensures
        samples(decks, id) == Seq::<(nat, (nat, nat))>::empty(),
    decreases decks.len(),
{
    if decks.len() > 0 {
        let rest = decks.drop_last();
        let parts = board_parts(decks, Board::Both);
        let n = decks.len() - 1;
        assert(decks.take(n) =~= rest);
        assert(decks.take(n + 1) =~= decks);
        assert(parts.take(n) =~= board_parts(rest, Board::Both));
        assert(parts.take(n + 1) =~= parts);
        lemma_flatten_step(parts, n);
        let before = card_ids(board_entries(rest, Board::Both));
        let added = card_ids(entries_of(decks.last(), Board::Both));
        assert(card_ids(board_entries(decks, Board::Both)) =~= before + added);
        lemma_occurrences_concat(before, added, id);
        lemma_occurrences_bounds(before + added, id);
        lemma_occurrences_bounds(before, id);
        lemma_occurrences_bounds(added, id);
        lemma_deck_holds(decks.last(), id);
        lemma_samples_of_absent(rest, id);
    }
}

/// Counts the entries of a board that are this card.
pub fn count_copies(cards: &Vec<DeckCard>, id: &String) -> (n: usize)
    ensures
        n == copies(cards.deep_view(), id@),
{
    let ghost ids = card_ids(cards.deep_view());
    let mut n: usize = 0;
    let mut j: usize = 0;
    proof {
        assert(ids.take(0) =~= Seq::empty());
    }
    while j < cards.len()
        invariant
            j <= cards.len(),
            ids == card_ids(cards.deep_view()),
            n == occurrences(ids.take(j as int), id@),
            n <= j,
        decreases cards.len() - j,
    {
        proof {
            assert(ids.take(j + 1) =~= ids.take(j as int).push(cards[j as int].id@));
            lemma_occurrences_push(ids.take(j as int), cards[j as int].id@, id@);
        }
        if cards[j].id == *id {
            n += 1;
        }
        j += 1;
    }
    proof {
        assert(ids.take(j as int) =~= ids);
    }
    n
}

/// The usage of one card over time: for each deck that holds the card, legal
/// or not, when the deck was made and how many copies of the card stand in
/// its mainboard and in its sideboard. The samples come in the order of the
/// decks.
pub fn usage_over_time(card_id: &str, decks: &Vec<Deck>) -> (usage: UsageOverTime)
    ensures
        usage@ == usage_of(decks.deep_view(), card_id@),
{
    let id = card_id.to_owned();
    let ghost all = decks.deep_view();
    let mut data: Vec<(usize, (usize, usize))> = Vec::new();
    let mut i: usize = 0;
    proof {
        assert(all.take(0) =~= Seq::empty());
        assert(sample_views(data@) =~= samples(all.take(0), id@));
    }
    while i < decks.len()
        invariant
            i <= decks.len(),
            id@ == card_id@,
            all == decks.deep_view(),
            sample_views(data@) == samples(all.take(i as int), id@),
        decreases decks.len() - i,
    {
        let main = count_copies(&decks[i].mainboard, &id);
        let side = count_copies(&decks[i].sideboard, &id);
        let ghost held = data@;
        proof {
            assert(all.take(i + 1).drop_last() =~= all.take(i as int));
        }
        if main > 0 || side > 0 {
            data.push((decks[i].created, (main, side)));
            proof {
                assert(sample_views(data@) =~= sample_views(held).push(
                    deck_sample(all[i as int], id@),
                ));
            }
        }
        i += 1;
    }
    proof {
        assert(all.take(i as int) =~= all);
    }
    UsageOverTime { id, data }
}

/// The pair of counts that a deck's tally holds for a card: zeros where the
/// card has no entry.
pub open spec fn pair_of(held: Map<Seq<char>, (usize, usize)>, id: Seq<char>) -> (usize, usize) {
    if held.contains_key(id) {
        held[id]
    } else {
        (0, 0)
    }
}

/// The samples that are held for a card: none where the card has no entry.
pub open spec fn data_of(
    held: Map<Seq<char>, Vec<(usize, (usize, usize))>>,
    id: Seq<char>,
) -> Seq<(usize, (usize, usize))> {
    if held.contains_key(id) {
        held[id]@
    } else {
        Seq::empty()
    }
}

/// Counts the cards of one board of a deck into the tally of the deck: into
/// the second place of each pair for the sideboard, into the first for the
/// mainboard. That place is still zero throughout.
fn tally_board(held: &mut OrderedMap<(usize, usize)>, cards: &Vec<DeckCard>, sideboard: bool)
    requires
        forall|k: Seq<char>| #[trigger]
            old(held)@.contains_key(k) ==> (if sideboard {
                old(held)@[k].1
            } else {
                old(held)@[k].0
            }) == 0,
    ensures
        final(held).well_formed(),
        final(held).spec_keys() == distinct_onto(
            old(held).spec_keys(),
            card_ids(cards.deep_view()),
        ),
        forall|k: Seq<char>| #[trigger]
            final(held)@.contains_key(k) ==> if sideboard {
                &&& final(held)@[k].0 == pair_of(old(held)@, k).0
                &&& final(held)@[k].1 == copies(cards.deep_view(), k)
            } else {
                &&& final(held)@[k].0 == copies(cards.deep_view(), k)
                &&& final(held)@[k].1 == pair_of(old(held)@, k).1
            },
{
    let ghost ids = card_ids(cards.deep_view());
    let ghost before = held@;
    let ghost keys0 = held.spec_keys();
    // `len` also tells that no key stands twice.
    let _ = held.len();
    let mut j: usize = 0;
    proof {
        assert(ids.take(0) =~= Seq::empty());
    }
    while j < cards.len()
        invariant
            j <= cards.len(),
            ids == card_ids(cards.deep_view()),
            before == old(held)@,
            keys0 == old(held).spec_keys(),
            keys0.no_duplicates(),
            held.well_formed(),
            held.spec_keys() == distinct_onto(keys0, ids.take(j as int)),
            forall|k: Seq<char>| #[trigger]
                before.contains_key(k) ==> (if sideboard {
                    before[k].1
                } else {
                    before[k].0
                }) == 0,
            forall|k: Seq<char>| #[trigger]
                held@.contains_key(k) ==> if sideboard {
                    &&& held@[k].0 == pair_of(before, k).0
                    &&& held@[k].1 == occurrences(ids.take(j as int), k)
                } else {
                    &&& held@[k].0 == occurrences(ids.take(j as int), k)
                    &&& held@[k].1 == pair_of(before, k).1
                },
        decreases cards.len() - j,
    {
        let id = &cards[j].id;
        let ghost seen = ids.take(j as int);
        let ghost now = held@;
        proof {
            assert(ids.take(j + 1) =~= seen.push(id@));
            assert(ids.take(j + 1).drop_last() =~= seen);
            lemma_distinct_onto_holds(keys0, seen);
            lemma_occurrences_bounds(seen, id@);
            lemma_occurrences_push(seen, id@, id@);
        }
        match held.position(id.as_str()) {
            Some(p) => {
                let pair: (usize, usize) = *held.value_at(p);
                proof {
                    assert(held@.contains_key(id@));
                    assert(pair == held@[id@]);
                    assert(seen.len() == j);
                }
                let more: (usize, usize) = if sideboard {
                    (pair.0, pair.1 + 1)
                } else {
                    (pair.0 + 1, pair.1)
                };
                let _ = held.replace_at(p, more);
            },
            None => {
                let first: (usize, usize) = if sideboard {
                    (0, 1)
                } else {
                    (1, 0)
                };
                held.insert(id.clone(), first);
            },
        }
        proof {
            assert forall|k: Seq<char>| #[trigger] held@.contains_key(k) implies if sideboard {
                &&& held@[k].0 == pair_of(before, k).0
                &&& held@[k].1 == occurrences(ids.take(j + 1), k)
            } else {
                &&& held@[k].0 == occurrences(ids.take(j + 1), k)
                &&& held@[k].1 == pair_of(before, k).1
            } by {
                lemma_occurrences_push(seen, id@, k);
                if k != id@ {
                    assert(now.contains_key(k));
                }
            }
        }
        j += 1;
    }
    proof {
        assert(ids.take(j as int) =~= ids);
    }
}

/// Puts one sample behind the samples of each card of a deck's tally; a card
/// that has no samples yet gets its entry.
fn append_samples(
    series: &mut OrderedMap<Vec<(usize, (usize, usize))>>,
    tallied: &OrderedMap<(usize, usize)>,
    created: usize,
)
    ensures
        final(series).well_formed(),
        final(series).spec_keys() == distinct_onto(old(series).spec_keys(), tallied.spec_keys()),
        forall|k: Seq<char>| #[trigger]
            final(series)@.contains_key(k) ==> final(series)@[k]@ == data_of(old(series)@, k) + (
            if tallied@.contains_key(k) {
                seq![(created, tallied@[k])]
            } else {
                Seq::empty()
            }),
{
    let ghost before = series@;
    let ghost keys0 = series.spec_keys();
    // `len` also tells that no key stands twice.
    let _ = series.len();
    let n = tallied.len();
    let ghost keys = tallied.spec_keys();
    let mut p: usize = 0;
    proof {
        assert(keys.take(0) =~= Seq::empty());
        assert forall|k: Seq<char>| #[trigger] series@.contains_key(k) implies series@[k]@
            == data_of(before, k) + Seq::<(usize, (usize, usize))>::empty() by {
            assert(data_of(before, k) + Seq::<(usize, (usize, usize))>::empty() =~= data_of(
                before,
                k,
            ));
        }
    }
    while p < n
        invariant
            p <= n,
            n == keys.len(),
            keys == tallied.spec_keys(),
            tallied.well_formed(),
            before == old(series)@,
            keys0 == old(series).spec_keys(),
            keys0.no_duplicates(),
            series.well_formed(),
            series.spec_keys() == distinct_onto(keys0, keys.take(p as int)),
            forall|k: Seq<char>| #[trigger]
                series@.contains_key(k) ==> series@[k]@ == data_of(before, k) + (if keys.take(
                    p as int,
                ).contains(k) {
                    seq![(created, tallied@[k])]
                } else {
                    Seq::empty()
                }),
        decreases n - p,
    {
        let key = tallied.key_at(p);
        let pair: (usize, usize) = *tallied.value_at(p);
        let ghost seen = keys.take(p as int);
        let ghost now = series@;
        proof {
            assert(keys.take(p + 1) =~= seen.push(key@));
            assert(keys.take(p + 1).drop_last() =~= seen);
            lemma_distinct_onto_holds(keys0, seen);
            assert(!seen.contains(key@)) by {
                if seen.contains(key@) {
                    let a = seen.index_of(key@);
                    assert(0 <= a < seen.len() && seen[a] == key@);
                    assert(keys[a] == keys[p as int]);
                }
            }
            assert(data_of(before, key@) + Seq::<(usize, (usize, usize))>::empty() =~= data_of(
                before,
                key@,
            ));
        }
        match series.position(key.as_str()) {
            Some(q) => {
                let mut data = series.replace_at(q, Vec::new());
                data.push((created, pair));
                let _ = series.replace_at(q, data);
                proof {
                    assert(series@ =~= now.insert(key@, data));
                }
            },
            None => {
                let mut data: Vec<(usize, (usize, usize))> = Vec::new();
                data.push((created, pair));
                series.insert(key.clone(), data);
                proof {
                    assert(data@ =~= data_of(before, key@) + seq![(created, pair)]);
                }
            },
        }
        proof {
            assert forall|k: Seq<char>| #[trigger] series@.contains_key(k) implies series@[k]@
                == data_of(before, k) + (if keys.take(p + 1).contains(k) {
                seq![(created, tallied@[k])]
            } else {
                Seq::empty()
            }) by {
                if k == key@ {
                    assert(keys.take(p + 1)[p as int] == k);
                    assert(series@[k]@ =~= data_of(before, k) + seq![(created, pair)]);
                } else {
                    assert(now.contains_key(k));
                    if keys.take(p + 1).contains(k) {
                        let a = keys.take(p + 1).index_of(k);
                        assert(0 <= a < p + 1 && keys.take(p + 1)[a] == k);
                        assert(seen[a] == k);
                    }
                    if seen.contains(k) {
                        let a = seen.index_of(k);
                        assert(0 <= a < seen.len() && seen[a] == k);
                        assert(keys.take(p + 1)[a] == k);
                    }
                }
            }
        }
        p += 1;
    }
    proof {
        assert(keys.take(p as int) =~= keys);
    }
}

/// The usage over time of every card that stands in at least one of the decks:
/// one record for each card, with one sample for each deck that holds the
/// card, legal or not. The records come in the order in which the cards first
/// occur, the samples of each in the order of the decks.
pub fn card_usage_stats(decks: &Vec<Deck>) -> (usage: Vec<UsageOverTime>)
    ensures
        usage.deep_view() == usage_series(decks.deep_view()),
{
    let mut series: OrderedMap<Vec<(usize, (usize, usize))>> = OrderedMap::new();
    let ghost all = decks.deep_view();
    let ghost parts = board_parts(all, Board::Both);
    let mut i: usize = 0;
    proof {
        assert(all.take(0) =~= Seq::empty());
        assert(parts.take(0) =~= Seq::empty());
        assert(card_ids(parts.take(0).flatten()) =~= Seq::empty());
    }
    while i < decks.len()
        invariant
            i <= decks.len(),
            all == decks.deep_view(),
            parts == board_parts(all, Board::Both),
            series.spec_keys() == distinct(card_ids(parts.take(i as int).flatten())),
            forall|k: Seq<char>| #[trigger]
                series@.contains_key(k) ==> sample_views(series@[k]@) == samples(
                    all.take(i as int),
                    k,
                ),
        decreases decks.len() - i,
    {
        let deck = &decks[i];
        let ghost held = series@;
        let ghost ids_before = card_ids(parts.take(i as int).flatten());
        let ghost main = card_ids(all[i as int].mainboard);
        let ghost side = card_ids(all[i as int].sideboard);
        let mut tallied: OrderedMap<(usize, usize)> = OrderedMap::new();
        tally_board(&mut tallied, &deck.mainboard, false);
        let ghost half = tallied@;
        tally_board(&mut tallied, &deck.sideboard, true);
        proof {
            lemma_distinct_onto_concat(Seq::empty(), main, side);
            lemma_distinct_onto_holds(Seq::empty(), main);
            lemma_distinct_onto_holds(Seq::empty(), main + side);
            assert forall|k: Seq<char>| #[trigger] tallied@.contains_key(k) implies tallied@[k].0
                == occurrences(main, k) && tallied@[k].1 == occurrences(side, k) by {
                lemma_occurrences_bounds(main, k);
            }
        }
        append_samples(&mut series, &tallied, deck.created);
        proof {
            lemma_flatten_step(parts, i as int);
            assert(card_ids(parts[i as int]) =~= main + side);
            assert(card_ids(parts.take(i + 1).flatten()) =~= ids_before + (main + side));
            lemma_distinct_onto_holds(Seq::empty(), ids_before);
            lemma_distinct_onto_distinct(distinct(ids_before), main + side);
            lemma_distinct_onto_concat(Seq::empty(), ids_before, main + side);
            assert(all.take(i + 1).drop_last() =~= all.take(i as int));
            assert forall|k: Seq<char>| #[trigger] series@.contains_key(k) implies sample_views(
                series@[k]@,
            ) == samples(all.take(i + 1), k) by {
                lemma_deck_holds(all[i as int], k);
                assert(card_ids(entries_of(all[i as int], Board::Both)) =~= main + side);
                if !held.contains_key(k) {
                    assert(parts.take(i as int) =~= board_parts(all.take(i as int), Board::Both));
                    lemma_samples_of_absent(all.take(i as int), k);
                }
                if tallied@.contains_key(k) {
                    assert(sample_views(series@[k]@) =~= sample_views(data_of(held, k)).push(
                        deck_sample(all[i as int], k),
                    ));
                } else {
                    assert(series@[k]@ =~= data_of(held, k));
                }
            }
        }
        i += 1;
    }
    let n = series.len();
    let ghost ids = series.spec_keys();
    let ghost gathered = series@;
    let mut usage: Vec<UsageOverTime> = Vec::new();
    let mut q: usize = 0;
    proof {
        assert(all.take(i as int) =~= all);
        assert(parts.take(i as int) =~= parts);
    }
    while q < n
        invariant
            q <= n,
            n == ids.len(),
            ids == series.spec_keys(),
            ids == distinct(card_ids(board_entries(all, Board::Both))),
            series.well_formed(),
            usage.len() == q,
            forall|a: int| q <= a < n ==> series.spec_values()[a] == gathered[#[trigger] ids[a]],
            forall|k: Seq<char>| #[trigger]
                gathered.contains_key(k) ==> sample_views(gathered[k]@) == samples(all, k),
            forall|a: int| 0 <= a < n ==> gathered.contains_key(#[trigger] ids[a]),
            forall|a: int| 0 <= a < q ==> (#[trigger] usage[a])@ == usage_of(all, ids[a]),
        decreases n - q,
    {
        let id = series.key_at(q).clone();
        let data = series.replace_at(q, Vec::new());
        usage.push(UsageOverTime { id, data });
        q += 1;
    }
    proof {
        assert(usage.deep_view() =~= usage_series(all));
    }
    usage
}

} // verus!
