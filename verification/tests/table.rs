use prettytable::Table;
use room_schedule::schedule::{ScheduleError, ScheduleRow};
use room_schedule::slots::SlotMap;
use room_schedule::table::{availability_cell, schedule_table, time_cell, timetable};

fn map_of(entries: &[(&str, bool)]) -> SlotMap {
    let mut map = SlotMap::new();
    for (key, free) in entries {
        map.insert(key.to_string(), *free);
    }
    map
}

fn cells(table: &Table) -> Vec<Vec<String>> {
    table
        .row_iter()
        .map(|row| row.iter().map(|cell| cell.get_content()).collect())
        .collect()
}

fn strings(row: [&str; 3]) -> Vec<String> {
    row.iter().map(|cell| cell.to_string()).collect()
}

#[test]
fn cells_of_a_row() {
    let current =
        ScheduleRow { time: "08:00".to_string(), room_1: true, room_2: false, is_current: true };
    let other =
        ScheduleRow { time: "08:30".to_string(), room_1: true, room_2: false, is_current: false };
    assert_eq!(time_cell(&current), "> 08:00");
    assert_eq!(time_cell(&other), "08:30");
    assert_eq!(availability_cell(true), "✅");
    assert_eq!(availability_cell(false), "❌");
}

#[test]
fn table_has_a_heading_and_a_row_for_each_row() {
    let rows = vec![
        ScheduleRow { time: "08:00".to_string(), room_1: true, room_2: false, is_current: false },
        ScheduleRow { time: "08:30".to_string(), room_1: false, room_2: true, is_current: true },
    ];
    let table = schedule_table(&rows);
    assert_eq!(
        cells(&table),
        vec![
            strings(["Time", "Room 1", "Room 2"]),
            strings(["08:00", "✅", "❌"]),
            strings(["> 08:30", "❌", "✅"]),
        ]
    );
}

#[test]
fn table_without_rows_has_the_heading() {
    let table = schedule_table(&Vec::new());
    assert_eq!(cells(&table), vec![strings(["Time", "Room 1", "Room 2"])]);
}

#[test]
fn timetable_of_two_rooms() {
    let room_a = map_of(&[("09:00", true), ("08:00", true), ("08:30", false), ("09:30", true)]);
    let room_b = map_of(&[("08:00", false), ("08:30", true), ("09:00", false), ("09:30", true)]);
    let table = timetable(&room_a, &room_b, "08:45", "08:00", "09:00").unwrap();
    assert_eq!(
        cells(&table),
        vec![
            strings(["Time", "Room 1", "Room 2"]),
            strings(["08:00", "✅", "❌"]),
            strings(["> 08:30", "❌", "✅"]),
            strings(["09:00", "✅", "❌"]),
        ]
    );
    let printed = table.to_string();
    assert!(printed.contains("| Time    | Room 1 | Room 2 |"));
    assert!(printed.contains("> 08:30"));
}

#[test]
fn timetable_hands_on_the_error() {
    let room_a = map_of(&[("08:00", true), ("08:30", false)]);
    let room_b = map_of(&[("08:00", false), ("09:30", true)]);
    assert_eq!(
        timetable(&room_a, &room_b, "08:45", "08:00", "09:00").err(),
        Some(ScheduleError::RoomsDiffer)
    );
    assert_eq!(
        timetable(&room_a, &room_a, "08:45", "08:00", "09:00").err(),
        Some(ScheduleError::NoNextSlot)
    );
    assert_eq!(
        timetable(&room_a, &room_a, "late", "08:00", "09:00").err(),
        Some(ScheduleError::InvalidTime)
    );
}

#[test]
fn table_keeps_a_text_without_line_feed_or_escape() {
    let rows = vec![
        ScheduleRow {
            time: "[\u{0644}\u{0627}\u{0644}\u{0627}".to_string(),
            room_1: true,
            room_2: true,
            is_current: false,
        },
        ScheduleRow { time: "a\rb m".to_string(), room_1: false, room_2: false, is_current: true },
        ScheduleRow { time: String::new(), room_1: false, room_2: true, is_current: false },
    ];
    let table = schedule_table(&rows);
    assert_eq!(
        cells(&table),
        vec![
            strings(["Time", "Room 1", "Room 2"]),
            strings(["[\u{0644}\u{0627}\u{0644}\u{0627}", "✅", "✅"]),
            strings(["> a\rb m", "❌", "❌"]),
            strings(["", "❌", "✅"]),
        ]
    );
}
