use metagame_stats::{
    assemble_event_stats, decks_in, event_by_id, event_stats, Deck, DeckCard, Event, OrderedMap,
    Point, StatsError,
};

fn card(id: &str, colours: &[&str]) -> DeckCard {
    DeckCard {
        id: id.to_string(),
        sfid: format!("sf-{}", id),
        name: format!("Card {}", id),
        colours: colours.iter().map(|c| c.to_string()).collect(),
        type_line: "Creature".to_string(),
        cmc: 2,
    }
}

fn deck(id: &str, mainboard: Vec<DeckCard>, sideboard: Vec<DeckCard>, created: usize) -> Deck {
    Deck {
        id: id.to_string(),
        currently_legal: true,
        name: format!("Deck {}", id),
        url: format!("https://decks.example/{}", id),
        mainboard,
        sideboard,
        created,
    }
}

fn event(id: &str, deck_ids: &[&str]) -> Event {
    Event {
        id: id.to_string(),
        decks: deck_ids.iter().map(|d| (d.to_string(), format!("player of {}", d))).collect(),
    }
}

fn tier(rating: usize, cards: &[&str]) -> Point {
    Point { rating, cards: cards.iter().map(|c| c.to_string()).collect() }
}

fn entries(map: &OrderedMap<usize>) -> Vec<(String, usize)> {
    let mut out = Vec::new();
    for i in 0..map.len() {
        out.push((map.key_at(i).clone(), *map.value_at(i)));
    }
    out.sort();
    out
}

fn pairs(items: &[(&str, usize)]) -> Vec<(String, usize)> {
    let mut out: Vec<(String, usize)> = items.iter().map(|(k, v)| (k.to_string(), *v)).collect();
    out.sort();
    out
}

#[test]
fn event_with_one_deck_counts_each_board() {
    let decks = vec![deck(
        "d1",
        vec![card("X", &["W"]), card("X", &["W"]), card("Y", &["U"])],
        vec![card("X", &["W"])],
        100,
    )];
    let points = vec![tier(1, &["X"])];
    let stats = assemble_event_stats(&event("e1", &["d1"]), &decks, &points).unwrap();
    assert_eq!(entries(&stats.mainboard_uses), pairs(&[("X", 2), ("Y", 1)]));
    assert_eq!(entries(&stats.sideboard_uses), pairs(&[("X", 1)]));
    assert_eq!(entries(&stats.pointed_uses), pairs(&[("X", 3)]));
    assert_eq!(entries(&stats.non_pointed_uses), pairs(&[("Y", 1)]));
}

#[test]
fn event_tag_is_event_dash_id() {
    let stats = assemble_event_stats(&event("gp-2024", &[]), &vec![], &vec![]).unwrap();
    assert_eq!(stats.tag, "event-gp-2024");
}

#[test]
fn event_without_decks_has_empty_statistics() {
    let stats = assemble_event_stats(&event("e0", &[]), &vec![], &vec![tier(1, &["X"])]).unwrap();
    assert_eq!(stats.mainboard_uses.len(), 0);
    assert_eq!(stats.sideboard_uses.len(), 0);
    assert_eq!(stats.pointed_uses.len(), 0);
    assert_eq!(stats.non_pointed_uses.len(), 0);
    assert_eq!(stats.colour_usage.len(), 0);
    assert_eq!(stats.cards.len(), 0);
}

#[test]
fn counts_add_up_over_several_decks() {
    let decks = vec![
        deck("d1", vec![card("A", &["R"]), card("B", &["G"])], vec![card("C", &[])], 1),
        deck("d2", vec![card("A", &["R"]), card("A", &["R"])], vec![card("B", &["G"])], 2),
        deck("d3", vec![], vec![card("A", &["R"])], 3),
    ];
    let points = vec![tier(3, &["B"]), tier(1, &["C", "Z"])];
    let stats = assemble_event_stats(&event("e", &["d1", "d2", "d3"]), &decks, &points).unwrap();
    assert_eq!(entries(&stats.mainboard_uses), pairs(&[("A", 3), ("B", 1)]));
    assert_eq!(entries(&stats.sideboard_uses), pairs(&[("A", 1), ("B", 1), ("C", 1)]));
    assert_eq!(entries(&stats.pointed_uses), pairs(&[("B", 2), ("C", 1)]));
    assert_eq!(entries(&stats.non_pointed_uses), pairs(&[("A", 4)]));
}

#[test]
fn pointed_and_non_pointed_part_the_cards_in_use() {
    let decks = vec![
        deck("d1", vec![card("A", &["R"]), card("B", &["G"])], vec![card("C", &[])], 1),
        deck("d2", vec![card("D", &["U"])], vec![card("B", &["G"])], 2),
    ];
    let points = vec![tier(2, &["A", "D", "unused"])];
    let stats = assemble_event_stats(&event("e", &["d1", "d2"]), &decks, &points).unwrap();
    for i in 0..stats.pointed_uses.len() {
        assert!(!stats.non_pointed_uses.contains_key(stats.pointed_uses.key_at(i)));
    }
    let mut union: Vec<String> = Vec::new();
    for i in 0..stats.pointed_uses.len() {
        union.push(stats.pointed_uses.key_at(i).clone());
    }
    for i in 0..stats.non_pointed_uses.len() {
        union.push(stats.non_pointed_uses.key_at(i).clone());
    }
    union.sort();
    assert_eq!(union, vec!["A", "B", "C", "D"]);
    for id in ["A", "B", "C", "D"] {
        let used = stats.mainboard_uses.count(id) + stats.sideboard_uses.count(id);
        assert!(used > 0);
        assert_eq!(stats.pointed_uses.count(id) + stats.non_pointed_uses.count(id), used);
    }
    assert_eq!(stats.pointed_uses.count("unused"), 0);
    assert_eq!(stats.non_pointed_uses.count("unused"), 0);
}

#[test]
fn colour_usage_counts_each_card_once() {
    let decks = vec![
        deck(
            "d1",
            vec![card("A", &["W", "U"]), card("A", &["W", "U"]), card("A", &["W", "U"])],
            vec![card("A", &["W", "U"]), card("B", &["W"])],
            1,
        ),
        deck("d2", vec![card("A", &["W", "U"]), card("C", &[])], vec![], 2),
    ];
    let stats = assemble_event_stats(&event("e", &["d1", "d2"]), &decks, &vec![]).unwrap();
    assert_eq!(entries(&stats.colour_usage), pairs(&[("W", 2), ("U", 1)]));
}

#[test]
fn colour_usage_adds_up_to_the_colour_codes_of_the_distinct_cards() {
    let decks = vec![
        deck("d1", vec![card("A", &["W", "U"]), card("B", &["B", "R", "G"])], vec![], 1),
        deck("d2", vec![card("A", &["W", "U"])], vec![card("C", &["W"]), card("D", &[])], 2),
    ];
    let stats = assemble_event_stats(&event("e", &["d1", "d2"]), &decks, &vec![]).unwrap();
    let mut sum = 0;
    for i in 0..stats.colour_usage.len() {
        sum += *stats.colour_usage.value_at(i);
    }
    let mut codes = 0;
    for i in 0..stats.cards.len() {
        codes += stats.cards.value_at(i).colours.len();
    }
    assert_eq!(stats.cards.len(), 4);
    assert_eq!(codes, 6);
    assert_eq!(sum, codes);
}

#[test]
fn colour_codes_are_not_normalised() {
    let decks = vec![deck("d1", vec![card("A", &["w"]), card("B", &["W"])], vec![], 1)];
    let stats = assemble_event_stats(&event("e", &["d1"]), &decks, &vec![]).unwrap();
    assert_eq!(entries(&stats.colour_usage), pairs(&[("W", 1), ("w", 1)]));
}

#[test]
fn a_colour_code_listed_twice_counts_twice() {
    let decks = vec![deck("d1", vec![card("A", &["W", "W"])], vec![], 1)];
    let stats = assemble_event_stats(&event("e", &["d1"]), &decks, &vec![]).unwrap();
    assert_eq!(entries(&stats.colour_usage), pairs(&[("W", 2)]));
}

#[test]
fn cards_are_keyed_by_id_and_the_last_entry_wins() {
    let mut late = card("A", &["B"]);
    late.name = "Reprinted A".to_string();
    let decks = vec![
        deck("d1", vec![card("A", &["W"])], vec![card("B", &["U"])], 1),
        deck("d2", vec![card("B", &["U"])], vec![late.clone()], 2),
    ];
    let stats = assemble_event_stats(&event("e", &["d1", "d2"]), &decks, &vec![]).unwrap();
    assert_eq!(stats.cards.len(), 2);
    assert_eq!(stats.cards.key_at(0), "A");
    assert_eq!(stats.cards.key_at(1), "B");
    assert_eq!(stats.cards.get("A"), Some(&late));
    assert_eq!(stats.cards.get("B"), Some(&card("B", &["U"])));
    assert_eq!(stats.cards.get("C"), None);
    assert_eq!(entries(&stats.colour_usage), pairs(&[("B", 1), ("U", 1)]));
}

#[test]
fn every_counted_card_is_among_the_cards() {
    let decks = vec![
        deck("d1", vec![card("A", &["R"]), card("B", &["G"])], vec![card("C", &[])], 1),
        deck("d2", vec![card("D", &["U"])], vec![card("B", &["G"])], 2),
    ];
    let stats =
        assemble_event_stats(&event("e", &["d1", "d2"]), &decks, &vec![tier(1, &["A"])]).unwrap();
    for map in [
        &stats.mainboard_uses,
        &stats.sideboard_uses,
        &stats.pointed_uses,
        &stats.non_pointed_uses,
    ] {
        for i in 0..map.len() {
            assert!(stats.cards.contains_key(map.key_at(i)));
        }
    }
}

#[test]
fn decks_that_are_not_legal_count_too() {
    let mut banned = deck("d1", vec![card("A", &[])], vec![], 1);
    banned.currently_legal = false;
    let stats = assemble_event_stats(&event("e", &["d1"]), &vec![banned], &vec![]).unwrap();
    assert_eq!(stats.mainboard_uses.count("A"), 1);
}

#[test]
fn event_by_id_finds_the_first_event_with_the_id() {
    let events = vec![event("e1", &["d1"]), event("e2", &["d2"]), event("e2", &["d3"])];
    assert_eq!(event_by_id(&events, "e2"), Ok(&events[1]));
    assert_eq!(event_by_id(&events, "e1"), Ok(&events[0]));
}

#[test]
fn event_by_id_reports_a_missing_event() {
    let events = vec![event("e1", &["d1"])];
    assert_eq!(event_by_id(&events, "e9"), Err(StatsError::NotFound));
    assert_eq!(event_by_id(&vec![], "e1"), Err(StatsError::NotFound));
}

#[test]
fn deck_ids_are_the_first_of_each_pair() {
    let e = event("e1", &["d2", "d1", "d2"]);
    assert_eq!(e.deck_ids(), vec!["d2", "d1", "d2"]);
}

#[test]
fn decks_in_keeps_the_order_of_the_decks() {
    let decks = vec![
        deck("d1", vec![card("A", &[])], vec![], 1),
        deck("d2", vec![card("B", &[])], vec![], 2),
        deck("d3", vec![card("C", &[])], vec![], 3),
    ];
    let ids = vec!["d3".to_string(), "d1".to_string(), "d1".to_string(), "d7".to_string()];
    assert_eq!(decks_in(&decks, &ids), vec![decks[0].clone(), decks[2].clone()]);
    assert_eq!(decks_in(&decks, &vec![]), vec![]);
}

#[test]
fn event_stats_counts_only_the_decks_of_the_event() {
    let events = vec![event("e1", &["d1", "d3"]), event("e2", &["d2"])];
    let decks = vec![
        deck("d1", vec![card("A", &["R"])], vec![], 1),
        deck("d2", vec![card("A", &["R"]), card("B", &[])], vec![], 2),
        deck("d3", vec![card("A", &["R"])], vec![card("C", &[])], 3),
    ];
    let points = vec![tier(1, &["C"])];
    let stats = event_stats(&events, &decks, &points, "e1").unwrap();
    assert_eq!(stats.tag, "event-e1");
    assert_eq!(entries(&stats.mainboard_uses), pairs(&[("A", 2)]));
    assert_eq!(entries(&stats.sideboard_uses), pairs(&[("C", 1)]));
    assert_eq!(entries(&stats.pointed_uses), pairs(&[("C", 1)]));
    assert_eq!(entries(&stats.non_pointed_uses), pairs(&[("A", 2)]));
    assert_eq!(stats.cards.len(), 2);
}

#[test]
fn event_stats_reports_a_missing_event() {
    let events = vec![event("e1", &["d1"])];
    let decks = vec![deck("d1", vec![card("A", &[])], vec![], 1)];
    assert_eq!(event_stats(&events, &decks, &vec![], "nope").err(), Some(StatsError::NotFound));
}
