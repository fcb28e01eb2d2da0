use opennav::classify::ResolvedTarget;
use opennav::launch::{plan_launch, LaunchError, LaunchPlan};

fn url(u: &str) -> ResolvedTarget {
    ResolvedTarget::Url(u.to_string())
}

#[test]
fn no_argument_target_means_plain_start() {
    assert_eq!(plan_launch("firefox %u", &ResolvedTarget::NoArgument), LaunchPlan::NoArgument);
}

#[test]
fn field_codes_are_stripped_and_url_comes_last() {
    let plan = plan_launch("firefox %u", &url("https://x.com"));
    assert_eq!(
        plan,
        LaunchPlan::Spawn {
            program: "firefox".to_string(),
            args: vec!["https://x.com".to_string()],
        }
    );
}

#[test]
fn quoted_program_path_stays_one_token() {
    let plan = plan_launch("\"/opt/web browser/bin\" --new-window %U", &url("https://x.com"));
    assert_eq!(
        plan,
        LaunchPlan::Spawn {
            program: "/opt/web browser/bin".to_string(),
            args: vec!["--new-window".to_string(), "https://x.com".to_string()],
        }
    );
}

#[test]
fn sandbox_launcher_keeps_its_leading_arguments() {
    let plan = plan_launch(
        "/usr/bin/flatpak run --branch=stable org.mozilla.firefox %u",
        &url("https://x.com"),
    );
    assert_eq!(
        plan,
        LaunchPlan::Spawn {
            program: "/usr/bin/flatpak".to_string(),
            args: vec![
                "run".to_string(),
                "--branch=stable".to_string(),
                "org.mozilla.firefox".to_string(),
                "https://x.com".to_string(),
            ],
        }
    );
}

#[test]
fn surrounding_whitespace_does_not_change_the_plan() {
    let bare = plan_launch("\"/opt/web browser/bin\" %u --flag", &url("https://x.com"));
    let padded = plan_launch("  \t \"/opt/web browser/bin\" %u --flag \n ", &url("https://x.com"));
    assert_eq!(bare, padded);
}

#[test]
fn unbalanced_quote_falls_back_to_uri_launch() {
    let plan = plan_launch("firefox \"unclosed %u", &url("https://x.com"));
    assert_eq!(plan, LaunchPlan::OpenUri { uri: "https://x.com".to_string() });
}

#[test]
fn empty_template_falls_back_to_uri_launch() {
    assert_eq!(
        plan_launch("", &url("https://x.com")),
        LaunchPlan::OpenUri { uri: "https://x.com".to_string() }
    );
    assert_eq!(
        plan_launch("   ", &url("https://x.com")),
        LaunchPlan::OpenUri { uri: "https://x.com".to_string() }
    );
}

#[test]
fn all_field_codes_fall_back_to_uri_launch() {
    assert_eq!(
        plan_launch("%u %U %f %F", &url("https://x.com")),
        LaunchPlan::OpenUri { uri: "https://x.com".to_string() }
    );
}

#[test]
fn every_launch_failure_kind_can_be_told_apart() {
    let spawn = LaunchError::SpawnFailed("permission denied".to_string());
    let missing = LaunchError::HandlerNotFound("gone.desktop".to_string());
    let bad = LaunchError::UnsupportedTarget("hello world".to_string());
    assert!(matches!(spawn, LaunchError::SpawnFailed(_)));
    assert!(matches!(missing, LaunchError::HandlerNotFound(_)));
    assert!(matches!(bad, LaunchError::UnsupportedTarget(_)));
    assert_ne!(spawn, missing);
    assert_ne!(missing, bad);
}
