use opennav::store::{Store, UsageRecord};

fn record_of(store: &Store, id: &str) -> UsageRecord {
    store.get_record(id).expect("record should exist")
}

#[test]
fn fresh_store_is_empty() {
    let store = Store::new();
    assert!(store.get_stats().is_empty());
    assert!(store.get_record("firefox.desktop").is_none());
    assert!(store.get_setting("sort_order").is_none());
}

#[test]
fn usage_accumulates_and_keeps_the_last_timestamp() {
    let mut store = Store::new();
    store.increment_usage("firefox.desktop", 100);
    store.increment_usage("firefox.desktop", 200);
    store.increment_usage("firefox.desktop", 300);
    let rec = record_of(&store, "firefox.desktop");
    assert_eq!(rec.usage_count, 3);
    assert_eq!(rec.last_used, 300);
    assert!(!rec.is_pinned);
    assert_eq!(store.get_stats().len(), 1);
}

#[test]
fn usage_does_not_touch_the_pin() {
    let mut store = Store::new();
    assert!(store.toggle_pin("b.desktop"));
    store.increment_usage("b.desktop", 50);
    let rec = record_of(&store, "b.desktop");
    assert!(rec.is_pinned);
    assert_eq!(rec.usage_count, 1);
    assert_eq!(rec.last_used, 50);
}

#[test]
fn toggling_twice_restores_the_pin_state() {
    let mut store = Store::new();
    assert!(store.toggle_pin("b.desktop"));
    assert!(!store.toggle_pin("b.desktop"));
    let rec = record_of(&store, "b.desktop");
    assert!(!rec.is_pinned);
    assert_eq!(rec.usage_count, 0);
    assert_eq!(rec.last_used, 0);
}

#[test]
fn toggling_preserves_count_and_recency() {
    let mut store = Store::new();
    store.increment_usage("b.desktop", 77);
    assert!(store.toggle_pin("b.desktop"));
    let rec = record_of(&store, "b.desktop");
    assert!(rec.is_pinned);
    assert_eq!(rec.usage_count, 1);
    assert_eq!(rec.last_used, 77);
}

#[test]
fn clearing_zeroes_counts_and_timestamps_but_not_pins() {
    let mut store = Store::new();
    store.increment_usage("a", 10);
    store.increment_usage("b", 20);
    store.toggle_pin("b");
    store.clear_stats();
    let a = record_of(&store, "a");
    let b = record_of(&store, "b");
    assert_eq!((a.usage_count, a.last_used, a.is_pinned), (0, 0, false));
    assert_eq!((b.usage_count, b.last_used, b.is_pinned), (0, 0, true));
}

#[test]
fn recent_reset_zeroes_only_timestamps() {
    let mut store = Store::new();
    store.increment_usage("a", 10);
    store.toggle_pin("a");
    store.reset_recent_stats();
    let a = record_of(&store, "a");
    assert_eq!(a.usage_count, 1);
    assert_eq!(a.last_used, 0);
    assert!(a.is_pinned);
}

#[test]
fn frequent_reset_zeroes_only_counts() {
    let mut store = Store::new();
    store.increment_usage("a", 10);
    store.toggle_pin("a");
    store.reset_frequent_stats();
    let a = record_of(&store, "a");
    assert_eq!(a.usage_count, 0);
    assert_eq!(a.last_used, 10);
    assert!(a.is_pinned);
}

#[test]
fn settings_roundtrip_and_overwrite() {
    let mut store = Store::new();
    store.set_setting("sort_order", "alpha");
    assert_eq!(store.get_setting("sort_order"), Some("alpha".to_string()));
    store.set_setting("sort_order", "recent");
    assert_eq!(store.get_setting("sort_order"), Some("recent".to_string()));
    assert!(store.get_setting("unknown").is_none());
}

#[test]
fn legacy_engine_names_read_back_as_keywords() {
    let mut store = Store::new();
    for (legacy, keyword) in [
        ("Google", "g"),
        ("DuckDuckGo", "d"),
        ("Bing", "b"),
        ("Brave", "br"),
        ("Ecosia", "e"),
    ] {
        store.set_setting("search_engine", legacy);
        assert_eq!(store.get_setting("search_engine"), Some(keyword.to_string()));
    }
    store.set_setting("search_engine", "gh");
    assert_eq!(store.get_setting("search_engine"), Some("gh".to_string()));
}

#[test]
fn legacy_names_are_only_normalized_for_the_engine_setting() {
    let mut store = Store::new();
    store.set_setting("favorite", "Google");
    assert_eq!(store.get_setting("favorite"), Some("Google".to_string()));
}

#[test]
fn loading_a_record_replaces_the_old_one() {
    let mut store = Store::new();
    store.increment_usage("a", 5);
    store.insert_record(UsageRecord {
        id: "a".to_string(),
        usage_count: 9,
        is_pinned: true,
        last_used: 42,
    });
    let a = record_of(&store, "a");
    assert_eq!((a.usage_count, a.last_used, a.is_pinned), (9, 42, true));
    assert_eq!(store.get_stats().len(), 1);
}
