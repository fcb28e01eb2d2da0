use opennav::catalog::Browser;
use opennav::rank::{rank, sort_mode_of, SortMode};
use opennav::store::UsageRecord;

fn handler(name: &str, id: &str) -> Browser {
    Browser {
        name: name.to_string(),
        command: format!("{} %u", id),
        icon: "web-browser".to_string(),
        id: id.to_string(),
        is_pinned: false,
    }
}

fn stat(id: &str, count: i64, pinned: bool, last: i64) -> UsageRecord {
    UsageRecord { id: id.to_string(), usage_count: count, is_pinned: pinned, last_used: last }
}

fn names(v: &[Browser]) -> Vec<&str> {
    v.iter().map(|b| b.name.as_str()).collect()
}

#[test]
fn sort_modes_parse_with_freq_as_default() {
    assert_eq!(sort_mode_of("alpha"), SortMode::Alpha);
    assert_eq!(sort_mode_of("recent"), SortMode::Recent);
    assert_eq!(sort_mode_of("freq"), SortMode::Freq);
    assert_eq!(sort_mode_of("anything else"), SortMode::Freq);
}

#[test]
fn frequency_mode_orders_by_count_descending() {
    let handlers = vec![handler("Cee", "c"), handler("Ay", "a"), handler("Bee", "b")];
    let stats = vec![stat("c", 5, false, 0), stat("b", 9, false, 0)];
    let out = rank(&handlers, &stats, SortMode::Freq);
    assert_eq!(names(&out), vec!["Bee", "Cee", "Ay"]);
}

#[test]
fn pinned_handlers_come_first_in_every_mode() {
    let handlers = vec![handler("Cee", "c"), handler("Ay", "a"), handler("Bee", "b")];
    let stats = vec![stat("c", 5, false, 50), stat("a", 0, true, 0), stat("b", 9, false, 90)];
    for mode in [SortMode::Alpha, SortMode::Recent, SortMode::Freq] {
        let out = rank(&handlers, &stats, mode);
        assert_eq!(out[0].name, "Ay");
        assert!(out[0].is_pinned);
        assert!(!out[1].is_pinned);
        assert!(!out[2].is_pinned);
    }
}

#[test]
fn recency_mode_orders_by_timestamp_descending_with_never_used_last() {
    let handlers = vec![handler("Ay", "a"), handler("Bee", "b"), handler("Cee", "c")];
    let stats = vec![stat("b", 1, false, 100), stat("c", 1, false, 300)];
    let out = rank(&handlers, &stats, SortMode::Recent);
    assert_eq!(names(&out), vec!["Cee", "Bee", "Ay"]);
}

#[test]
fn alphabetical_mode_orders_by_name() {
    let handlers = vec![handler("Cee", "c"), handler("Ay", "a"), handler("Bee", "b")];
    let stats = vec![stat("c", 50, false, 900)];
    let out = rank(&handlers, &stats, SortMode::Alpha);
    assert_eq!(names(&out), vec!["Ay", "Bee", "Cee"]);
}

#[test]
fn equal_keys_fall_back_to_name_order() {
    let handlers = vec![handler("Zed", "z"), handler("Em", "m"), handler("Ay", "a")];
    let stats = vec![stat("z", 4, false, 0), stat("m", 4, false, 0), stat("a", 4, false, 0)];
    let out = rank(&handlers, &stats, SortMode::Freq);
    assert_eq!(names(&out), vec!["Ay", "Em", "Zed"]);
}

#[test]
fn ranking_fills_the_pin_flag_from_the_store() {
    let handlers = vec![handler("Ay", "a"), handler("Bee", "b")];
    let stats = vec![stat("b", 0, true, 0)];
    let out = rank(&handlers, &stats, SortMode::Freq);
    assert_eq!(out[0].name, "Bee");
    assert!(out[0].is_pinned);
    assert!(!out[1].is_pinned);
}

#[test]
fn ranking_is_deterministic_across_calls() {
    let handlers = vec![
        handler("Same", "one"),
        handler("Same", "two"),
        handler("Other", "three"),
    ];
    let stats = vec![stat("one", 2, false, 10), stat("two", 2, false, 10)];
    let first = rank(&handlers, &stats, SortMode::Freq);
    let second = rank(&handlers, &stats, SortMode::Freq);
    let first_ids: Vec<&str> = first.iter().map(|b| b.id.as_str()).collect();
    let second_ids: Vec<&str> = second.iter().map(|b| b.id.as_str()).collect();
    assert_eq!(first_ids, second_ids);
    assert_eq!(first_ids, vec!["one", "two", "three"]);
}

#[test]
fn handlers_without_statistics_read_as_zeroed() {
    let handlers = vec![handler("Ay", "a"), handler("Bee", "b")];
    let stats: Vec<UsageRecord> = Vec::new();
    let out = rank(&handlers, &stats, SortMode::Freq);
    assert_eq!(names(&out), vec!["Ay", "Bee"]);
    assert!(!out[0].is_pinned && !out[1].is_pinned);
}
