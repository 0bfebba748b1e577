use metagame_stats::OrderedMap;

#[test]
fn a_new_map_is_empty() {
    let map: OrderedMap<usize> = OrderedMap::new();
    assert_eq!(map.len(), 0);
    assert_eq!(map.get("a"), None);
    assert_eq!(map.position("a"), None);
    assert!(!map.contains_key("a"));
    assert_eq!(map.count("a"), 0);
}

#[test]
fn keys_keep_the_order_in_which_they_came() {
    let mut map: OrderedMap<usize> = OrderedMap::new();
    map.insert("b".to_string(), 2);
    map.insert("a".to_string(), 1);
    map.insert("c".to_string(), 3);
    map.insert("a".to_string(), 10);
    assert_eq!(map.len(), 3);
    assert_eq!(map.key_at(0), "b");
    assert_eq!(map.key_at(1), "a");
    assert_eq!(map.key_at(2), "c");
    assert_eq!(*map.value_at(0), 2);
    assert_eq!(*map.value_at(1), 10);
    assert_eq!(*map.value_at(2), 3);
    assert_eq!(map.position("a"), Some(1));
    assert_eq!(map.position("c"), Some(2));
    assert_eq!(map.position("z"), None);
}

#[test]
fn get_gives_the_last_value_of_a_key() {
    let mut map: OrderedMap<String> = OrderedMap::new();
    map.insert("k".to_string(), "first".to_string());
    map.insert("k".to_string(), "second".to_string());
    assert_eq!(map.get("k"), Some(&"second".to_string()));
    assert!(map.contains_key("k"));
    assert!(!map.contains_key("K"));
}

#[test]
fn replace_at_hands_back_what_stood_there() {
    let mut map: OrderedMap<Vec<usize>> = OrderedMap::new();
    map.insert("a".to_string(), vec![1]);
    map.insert("b".to_string(), vec![2, 3]);
    let previous = map.replace_at(1, vec![]);
    assert_eq!(previous, vec![2, 3]);
    assert_eq!(map.get("b"), Some(&vec![]));
    assert_eq!(map.get("a"), Some(&vec![1]));
    assert_eq!(map.key_at(1), "b");
    assert_eq!(map.len(), 2);
}

#[test]
fn bump_counts_from_zero() {
    let mut map: OrderedMap<usize> = OrderedMap::new();
    assert!(map.bump("x"));
    assert!(map.bump("y"));
    assert!(map.bump("x"));
    assert_eq!(map.count("x"), 2);
    assert_eq!(map.count("y"), 1);
    assert_eq!(map.count("z"), 0);
    assert_eq!(map.len(), 2);
}

#[test]
fn bump_stops_at_the_largest_count() {
    let mut map: OrderedMap<usize> = OrderedMap::new();
    map.insert("x".to_string(), usize::MAX - 1);
    assert!(map.bump("x"));
    assert_eq!(map.count("x"), usize::MAX);
    assert!(!map.bump("x"));
    assert_eq!(map.count("x"), usize::MAX);
}

#[test]
fn many_keys_are_all_found() {
    let mut map: OrderedMap<usize> = OrderedMap::new();
    for i in 0..1000 {
        map.insert(format!("key-{}", i), i);
    }
    assert_eq!(map.len(), 1000);
    for i in 0..1000 {
        assert_eq!(map.get(&format!("key-{}", i)), Some(&i));
        assert_eq!(map.position(&format!("key-{}", i)), Some(i));
        assert_eq!(map.key_at(i), &format!("key-{}", i));
    }
}

#[test]
fn count_strings_counts_each_string() {
    let mut counts: OrderedMap<usize> = OrderedMap::new();
    let items: Vec<String> = ["W", "U", "W", "W"].iter().map(|s| s.to_string()).collect();
    assert!(metagame_stats::tally::count_strings(&mut counts, &items));
    assert_eq!(counts.count("W"), 3);
    assert_eq!(counts.count("U"), 1);
    assert!(metagame_stats::tally::count_strings(&mut counts, &items));
    assert_eq!(counts.count("W"), 6);
    assert_eq!(counts.len(), 2);
}

#[test]
fn count_strings_reports_a_count_that_does_not_fit() {
    let mut counts: OrderedMap<usize> = OrderedMap::new();
    counts.insert("W".to_string(), usize::MAX - 1);
    let items: Vec<String> = ["W", "W"].iter().map(|s| s.to_string()).collect();
    assert!(!metagame_stats::tally::count_strings(&mut counts, &items));
}

#[test]
fn count_card_ids_counts_by_identifier() {
    let card = |id: &str, name: &str| metagame_stats::DeckCard {
        id: id.to_string(),
        sfid: String::new(),
        name: name.to_string(),
        colours: vec![],
        type_line: String::new(),
        cmc: 0,
    };
    let mut counts: OrderedMap<usize> = OrderedMap::new();
    let board = vec![card("A", "one name"), card("B", "b"), card("A", "another name")];
    assert!(metagame_stats::tally::count_card_ids(&mut counts, &board));
    assert_eq!(counts.count("A"), 2);
    assert_eq!(counts.count("B"), 1);
}
