use metagame_stats::{card_usage_stats, count_copies, usage_over_time, Deck, DeckCard, UsageOverTime};

fn card(id: &str) -> DeckCard {
    DeckCard {
        id: id.to_string(),
        sfid: format!("sf-{}", id),
        name: format!("Card {}", id),
        colours: vec![],
        type_line: "Land".to_string(),
        cmc: 0,
    }
}

fn deck(id: &str, mainboard: &[&str], sideboard: &[&str], created: usize) -> Deck {
    Deck {
        id: id.to_string(),
        currently_legal: true,
        name: format!("Deck {}", id),
        url: String::new(),
        mainboard: mainboard.iter().map(|c| card(c)).collect(),
        sideboard: sideboard.iter().map(|c| card(c)).collect(),
        created,
    }
}

fn usage(id: &str, data: &[(usize, (usize, usize))]) -> UsageOverTime {
    UsageOverTime { id: id.to_string(), data: data.to_vec() }
}

#[test]
fn decks_made_at_the_same_time_give_a_sample_each() {
    let decks = vec![
        deck("d1", &["A"], &[], 100),
        deck("d2", &["A", "B"], &[], 100),
        deck("d3", &["A"], &[], 200),
    ];
    let series = usage_over_time("A", &decks);
    assert_eq!(series.id, "A");
    assert_eq!(series.data.len(), 3);
    assert_eq!(series.data.iter().filter(|s| s.0 == 100).count(), 2);
    assert_eq!(series.data, vec![(100, (1, 0)), (100, (1, 0)), (200, (1, 0))]);
}

#[test]
fn a_sample_counts_the_copies_on_each_board() {
    let decks = vec![deck("d1", &["A", "B", "A", "A"], &["B", "A"], 7)];
    assert_eq!(usage_over_time("A", &decks), usage("A", &[(7, (3, 1))]));
    assert_eq!(usage_over_time("B", &decks), usage("B", &[(7, (1, 1))]));
}

#[test]
fn a_deck_without_the_card_gives_no_sample() {
    let decks = vec![
        deck("d1", &["A"], &[], 1),
        deck("d2", &["B"], &["C"], 2),
        deck("d3", &[], &["A"], 3),
    ];
    assert_eq!(usage_over_time("A", &decks), usage("A", &[(1, (1, 0)), (3, (0, 1))]));
    assert_eq!(usage_over_time("Z", &decks), usage("Z", &[]));
    assert_eq!(usage_over_time("A", &vec![]), usage("A", &[]));
}

#[test]
fn decks_that_are_not_legal_give_samples_too() {
    let mut banned = deck("d1", &["A"], &[], 5);
    banned.currently_legal = false;
    assert_eq!(usage_over_time("A", &vec![banned]), usage("A", &[(5, (1, 0))]));
}

#[test]
fn count_copies_counts_the_entries_with_the_id() {
    let board = vec![card("A"), card("B"), card("A")];
    assert_eq!(count_copies(&board, &"A".to_string()), 2);
    assert_eq!(count_copies(&board, &"B".to_string()), 1);
    assert_eq!(count_copies(&board, &"C".to_string()), 0);
    assert_eq!(count_copies(&vec![], &"A".to_string()), 0);
}

#[test]
fn every_card_in_a_deck_has_one_record() {
    let decks = vec![
        deck("d1", &["A", "B", "A"], &["C"], 10),
        deck("d2", &["B"], &["A", "A"], 20),
        deck("d3", &["D"], &[], 10),
    ];
    let all = card_usage_stats(&decks);
    assert_eq!(
        all,
        vec![
            usage("A", &[(10, (2, 0)), (20, (0, 2))]),
            usage("B", &[(10, (1, 0)), (20, (1, 0))]),
            usage("C", &[(10, (0, 1))]),
            usage("D", &[(10, (1, 0))]),
        ]
    );
}

#[test]
fn the_records_agree_with_the_record_of_each_card() {
    let decks = vec![
        deck("d1", &["A", "B", "A"], &["C", "B"], 3),
        deck("d2", &[], &[], 4),
        deck("d3", &["C", "C", "C", "C"], &["A"], 5),
    ];
    let all = card_usage_stats(&decks);
    assert_eq!(all.len(), 3);
    for record in all.iter() {
        assert_eq!(*record, usage_over_time(&record.id, &decks));
        assert!(!record.data.is_empty());
    }
}

#[test]
fn no_decks_give_no_records() {
    assert_eq!(card_usage_stats(&vec![]), vec![]);
    assert_eq!(card_usage_stats(&vec![deck("d1", &[], &[], 1)]), vec![]);
}
