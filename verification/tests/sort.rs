use room_schedule::slots::SlotMap;
use room_schedule::sort::sort_slots;
use room_schedule::sort_by_time;
use room_schedule::text::same_text;

fn map_of(entries: &[(&str, bool)]) -> SlotMap {
    let mut map = SlotMap::new();
    for (key, free) in entries {
        map.insert(key.to_string(), *free);
    }
    map
}

#[test]
fn slot_map_keeps_one_entry_for_each_key() {
    let mut map = SlotMap::new();
    assert_eq!(map.len(), 0);
    assert_eq!(map.insert("08:00".to_string(), true), None);
    assert_eq!(map.insert("08:30".to_string(), false), None);
    assert_eq!(map.insert("08:00".to_string(), false), Some(true));
    assert_eq!(map.len(), 2);
    assert_eq!(map.get("08:00"), Some(false));
    assert_eq!(map.get("08:30"), Some(false));
    assert_eq!(map.get("8:00"), None);
    assert_eq!(map.get("09:00"), None);
    assert_eq!(map.slots(), vec![("08:00", false), ("08:30", false)]);
}

#[test]
fn sort_by_time_orders_chronologically() {
    let map = map_of(&[
        ("09:00", true),
        ("08:00", true),
        ("17:30", false),
        ("08:30", false),
        ("00:00", true),
    ]);
    assert_eq!(
        sort_by_time(&map),
        vec![
            ("00:00", true),
            ("08:00", true),
            ("08:30", false),
            ("09:00", true),
            ("17:30", false),
        ]
    );
}

#[test]
fn sort_by_time_orders_by_number_not_by_text() {
    let map = map_of(&[("10:00", true), ("9:30", false), ("9:5", true), ("100:00", false)]);
    assert_eq!(
        sort_by_time(&map),
        vec![("9:5", true), ("9:30", false), ("10:00", true), ("100:00", false)]
    );
}

#[test]
fn sort_by_time_of_nothing_and_of_one() {
    assert_eq!(sort_by_time(&SlotMap::new()), vec![]);
    assert_eq!(sort_by_time(&map_of(&[("08:00", false)])), vec![("08:00", false)]);
}

#[test]
fn sort_by_time_is_stable() {
    let map = map_of(&[
        ("08:30", true),
        ("8:00", true),
        ("08:00", false),
        ("+8:0", true),
        ("07:00", false),
    ]);
    assert_eq!(
        sort_by_time(&map),
        vec![
            ("07:00", false),
            ("8:00", true),
            ("08:00", false),
            ("+8:0", true),
            ("08:30", true),
        ]
    );
}

#[test]
fn sorting_twice_gives_the_same() {
    let slots = vec![
        ("12:00", true),
        ("8:00", false),
        ("08:00", true),
        ("23:30", false),
        ("00:30", true),
        ("12:00", false),
    ];
    let once = sort_slots(&slots);
    let twice = sort_slots(&once);
    assert_eq!(
        once,
        vec![
            ("00:30", true),
            ("8:00", false),
            ("08:00", true),
            ("12:00", true),
            ("12:00", false),
            ("23:30", false),
        ]
    );
    assert_eq!(twice, once);
}

#[test]
fn sort_keeps_every_slot() {
    let mut slots = Vec::new();
    let keys: Vec<String> = (0..48u32)
        .map(|i| format!("{:02}:{:02}", (i * 7) % 24, (i % 2) * 30))
        .collect();
    for (i, key) in keys.iter().enumerate() {
        slots.push((key.as_str(), i % 3 == 0));
    }
    let sorted = sort_slots(&slots);
    assert_eq!(sorted.len(), slots.len());
    let mut expected = slots.clone();
    expected.sort_by_key(|slot| room_schedule::parse_time(slot.0).unwrap());
    assert_eq!(sorted, expected);
}

#[test]
fn same_text_compares_characters() {
    assert!(same_text("", ""));
    assert!(same_text("08:00", "08:00"));
    assert!(!same_text("08:00", "8:00"));
    assert!(!same_text("08:00", "08:0"));
    assert!(!same_text("08:00", "08:01"));
    assert!(same_text("é✅", "é✅"));
    assert!(!same_text("e", "é"));
}
