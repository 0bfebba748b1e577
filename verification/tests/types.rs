use metagame_stats::types::{clone_cards, clone_strings};
use metagame_stats::{
    card_universe, count_colours, count_uses, points, split_by_points, Board, Card, Deck, DeckCard,
    Event, OrderedMap, Point, StatsError, UsageOverTime,
};

fn card() -> Card {
    Card {
        id: "A".to_string(),
        sfid: "sf-A".to_string(),
        name: "Card A".to_string(),
        colours: vec!["W".to_string(), "U".to_string()],
        type_line: "Artifact".to_string(),
        cmc: 4,
        decks: vec!["d1".to_string()],
        mainboard_count: 9,
        sideboard_count: 1,
    }
}

fn deck_card(id: &str, colours: &[&str]) -> DeckCard {
    DeckCard {
        id: id.to_string(),
        sfid: format!("sf-{}", id),
        name: format!("Card {}", id),
        colours: colours.iter().map(|c| c.to_string()).collect(),
        type_line: "Artifact".to_string(),
        cmc: 4,
    }
}

fn deck(id: &str, mainboard: Vec<DeckCard>, sideboard: Vec<DeckCard>) -> Deck {
    Deck {
        id: id.to_string(),
        currently_legal: false,
        name: "name".to_string(),
        url: "url".to_string(),
        mainboard,
        sideboard,
        created: 42,
    }
}

fn entries(map: &OrderedMap<usize>) -> Vec<(String, usize)> {
    let mut out = Vec::new();
    for i in 0..map.len() {
        out.push((map.key_at(i).clone(), *map.value_at(i)));
    }
    out
}

#[test]
fn a_card_becomes_a_deck_card_without_its_counters() {
    let shown: DeckCard = card().into();
    assert_eq!(shown, deck_card("A", &["W", "U"]));
    assert_eq!(DeckCard::from(card()), deck_card("A", &["W", "U"]));
    assert_eq!(card().to_deck_card(), deck_card("A", &["W", "U"]));
}

#[test]
fn clones_are_equal_to_what_they_were_made_from() {
    let c = card();
    assert_eq!(c.clone(), c);
    let dc = deck_card("B", &["R"]);
    assert_eq!(dc.clone(), dc);
    let d = deck("d1", vec![deck_card("A", &[]), deck_card("B", &["G"])], vec![deck_card("C", &[])]);
    assert_eq!(d.clone(), d);
    let e = Event { id: "e".to_string(), decks: vec![("d1".to_string(), "x".to_string())] };
    assert_eq!(e.clone(), e);
    let p = Point { rating: 3, cards: vec!["A".to_string(), "B".to_string()] };
    assert_eq!(p.clone(), p);
    let u = UsageOverTime { id: "A".to_string(), data: vec![(1, (2, 3)), (4, (5, 6))] };
    assert_eq!(u.clone(), u);
    assert_eq!(clone_strings(&p.cards), p.cards);
    assert_eq!(clone_cards(&d.mainboard), d.mainboard);
}

#[test]
fn count_uses_counts_the_board_that_was_asked_for() {
    let decks = vec![
        deck("d1", vec![deck_card("A", &[]), deck_card("B", &[])], vec![deck_card("A", &[])]),
        deck("d2", vec![deck_card("B", &[])], vec![deck_card("C", &[])]),
    ];
    let main = count_uses(&decks, Board::Mainboard).unwrap();
    let side = count_uses(&decks, Board::Sideboard).unwrap();
    let both = count_uses(&decks, Board::Both).unwrap();
    assert_eq!(entries(&main), vec![("A".to_string(), 1), ("B".to_string(), 2)]);
    assert_eq!(entries(&side), vec![("A".to_string(), 1), ("C".to_string(), 1)]);
    assert_eq!(
        entries(&both),
        vec![("A".to_string(), 2), ("B".to_string(), 2), ("C".to_string(), 1)]
    );
}

#[test]
fn split_by_points_parts_the_counts() {
    let mut uses: OrderedMap<usize> = OrderedMap::new();
    uses.insert("A".to_string(), 4);
    uses.insert("B".to_string(), 0);
    uses.insert("C".to_string(), 7);
    let table = vec![Point { rating: 1, cards: vec!["C".to_string(), "B".to_string()] }];
    let (inside, outside) = split_by_points(&uses, &points(&table));
    assert_eq!(entries(&inside), vec![("B".to_string(), 0), ("C".to_string(), 7)]);
    assert_eq!(entries(&outside), vec![("A".to_string(), 4)]);
}

#[test]
fn card_universe_holds_each_card_once() {
    let decks = vec![
        deck("d1", vec![deck_card("A", &["W"]), deck_card("A", &["W"])], vec![deck_card("B", &[])]),
        deck("d2", vec![deck_card("C", &["R"])], vec![deck_card("A", &["U"])]),
    ];
    let cards = card_universe(&decks);
    assert_eq!(cards.len(), 3);
    assert_eq!(cards.key_at(0), "A");
    assert_eq!(cards.key_at(1), "B");
    assert_eq!(cards.key_at(2), "C");
    assert_eq!(cards.get("A"), Some(&deck_card("A", &["U"])));
    let colours = count_colours(&cards).unwrap();
    assert_eq!(entries(&colours), vec![("U".to_string(), 1), ("R".to_string(), 1)]);
}

#[test]
fn errors_can_be_told_apart() {
    assert_ne!(StatsError::NotFound, StatsError::InvalidNumeric);
    assert_ne!(StatsError::InvalidNumeric, StatsError::MalformedBoolean);
    assert_eq!(format!("{:?}", StatsError::MalformedBoolean), "MalformedBoolean");
}
