use metagame_stats::{
    assemble_catalog_stats, assemble_event_stats, upsert, Card, Deck, DeckCard, Event,
    Keyed, SinkAction, Stats, UsageOverTime,
};

fn card(id: &str) -> DeckCard {
    DeckCard {
        id: id.to_string(),
        sfid: String::new(),
        name: id.to_string(),
        colours: vec!["W".to_string()],
        type_line: String::new(),
        cmc: 1,
    }
}

fn stats_of(event_id: &str, mainboard: &[&str]) -> Stats {
    let event = Event { id: event_id.to_string(), decks: vec![] };
    let deck = Deck {
        id: "d".to_string(),
        currently_legal: true,
        name: String::new(),
        url: String::new(),
        mainboard: mainboard.iter().map(|c| card(c)).collect(),
        sideboard: vec![],
        created: 1,
    };
    assemble_event_stats(&event, &vec![deck], &vec![]).unwrap()
}

fn tags(store: &Vec<Stats>) -> Vec<String> {
    store.iter().map(|s| s.tag.clone()).collect()
}

#[test]
fn the_key_of_a_record_is_its_tag_or_its_id() {
    assert_eq!(stats_of("e1", &[]).key(), "event-e1");
    let usage = UsageOverTime { id: "A".to_string(), data: vec![] };
    assert_eq!(usage.key(), "A");
}

#[test]
fn a_new_tag_is_inserted() {
    let mut store: Vec<Stats> = Vec::new();
    assert_eq!(upsert(&mut store, stats_of("e1", &["A"])), SinkAction::Insert);
    assert_eq!(upsert(&mut store, stats_of("e2", &["B"])), SinkAction::Insert);
    assert_eq!(tags(&store), vec!["event-e1", "event-e2"]);
}

#[test]
fn running_again_leaves_one_record_per_tag() {
    let mut store: Vec<Stats> = Vec::new();
    upsert(&mut store, stats_of("e1", &["A"]));
    upsert(&mut store, stats_of("e2", &["B"]));
    upsert(&mut store, assemble_catalog_stats(&Vec::<Card>::new(), &vec![]).unwrap());
    assert_eq!(upsert(&mut store, stats_of("e1", &["A", "A", "C"])), SinkAction::Replace);
    assert_eq!(upsert(&mut store, stats_of("e2", &["B"])), SinkAction::Replace);
    assert_eq!(
        upsert(&mut store, assemble_catalog_stats(&Vec::<Card>::new(), &vec![]).unwrap()),
        SinkAction::Replace
    );
    assert_eq!(tags(&store), vec!["event-e1", "event-e2", "cards"]);
    assert_eq!(store[0].mainboard_uses.count("A"), 2);
    assert_eq!(store[0].mainboard_uses.count("C"), 1);
    assert_eq!(store[1].mainboard_uses.count("B"), 1);
}

#[test]
fn usage_records_are_stored_by_card() {
    let mut store: Vec<UsageOverTime> = Vec::new();
    let first = UsageOverTime { id: "A".to_string(), data: vec![(1, (1, 0))] };
    let other = UsageOverTime { id: "B".to_string(), data: vec![(1, (0, 1))] };
    let again = UsageOverTime { id: "A".to_string(), data: vec![(1, (1, 0)), (2, (4, 0))] };
    assert_eq!(upsert(&mut store, first), SinkAction::Insert);
    assert_eq!(upsert(&mut store, other.clone()), SinkAction::Insert);
    assert_eq!(upsert(&mut store, again.clone()), SinkAction::Replace);
    assert_eq!(store, vec![again, other]);
}
