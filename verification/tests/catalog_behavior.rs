use opennav::catalog::{dedupe_handlers, Browser};

fn entry(name: &str, command: &str, id: &str) -> Browser {
    Browser {
        name: name.to_string(),
        command: command.to_string(),
        icon: "web-browser".to_string(),
        id: id.to_string(),
        is_pinned: false,
    }
}

#[test]
fn identical_name_and_executable_collapse_to_one() {
    let raw = vec![
        entry("Firefox", "/usr/bin/firefox %u", "firefox.desktop"),
        entry("Firefox", "/usr/bin/firefox --new-window %u", "firefox-alt.desktop"),
    ];
    let out = dedupe_handlers(&raw);
    assert_eq!(out.len(), 1);
    assert_eq!(out[0].id, "firefox.desktop");
}

#[test]
fn same_executable_but_different_names_stay_separate() {
    let raw = vec![
        entry("Firefox", "/usr/bin/flatpak run org.mozilla.firefox %u", "a.desktop"),
        entry("Chromium", "/usr/bin/flatpak run org.chromium.Chromium %u", "b.desktop"),
    ];
    let out = dedupe_handlers(&raw);
    assert_eq!(out.len(), 2);
    assert_eq!(out[0].name, "Firefox");
    assert_eq!(out[1].name, "Chromium");
}

#[test]
fn own_registration_is_excluded() {
    let raw = vec![
        entry("OpenNav", "opennav %u", "com.opennav.app"),
        entry("OpenNav", "opennav %u", "com.opennav.app.desktop"),
        entry("Firefox", "firefox %u", "firefox.desktop"),
    ];
    let out = dedupe_handlers(&raw);
    assert_eq!(out.len(), 1);
    assert_eq!(out[0].id, "firefox.desktop");
}

#[test]
fn first_occurrence_wins_and_order_is_kept() {
    let raw = vec![
        entry("B", "b-bin %u", "b1"),
        entry("A", "a-bin %u", "a1"),
        entry("B", "b-bin --flag", "b2"),
        entry("C", "c-bin", "c1"),
    ];
    let out = dedupe_handlers(&raw);
    let ids: Vec<&str> = out.iter().map(|b| b.id.as_str()).collect();
    assert_eq!(ids, vec!["b1", "a1", "c1"]);
}

#[test]
fn dedup_key_ignores_command_arguments() {
    let raw = vec![
        entry("Epiphany", "  epiphany  %u", "e1"),
        entry("Epiphany", "epiphany --incognito", "e2"),
    ];
    let out = dedupe_handlers(&raw);
    assert_eq!(out.len(), 1);
    assert_eq!(out[0].id, "e1");
}
