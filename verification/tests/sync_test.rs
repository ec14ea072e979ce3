use backlog::sources::heroic;
use backlog::sync::{self, HeroicOutcome, SteamOutcome, SyncReport, SyncStatus};

/// The contents of a library file, as the loaders receive them.
fn document(text: &str) -> Option<&str> {
    Some(text)
}

/// The library files of the usual Heroic directory.
fn heroic_files() -> (Option<&'static str>, Option<&'static str>, Option<&'static str>) {
    (
        document(r#"{"library": [{"title": "Celeste", "app_name": "abc"}]}"#),
        document(
            r#"{"games": [
            {"title": "Hollow Knight", "app_name": "hk"},
            {"title": "Redist", "app_name": "gog-redist"}
        ]}"#,
        ),
        document(r#"{"library": [{"title": "The Dig", "app_name": "amzn1"}]}"#),
    )
}

/// What a refresh comes to when every cache write succeeds.
fn outcome(file_exists: bool, count: usize) -> HeroicOutcome {
    if sync::source_missing(count, file_exists) {
        HeroicOutcome::Missing
    } else {
        HeroicOutcome::Written(count)
    }
}

fn heroic_reports() -> Vec<SyncReport> {
    let (epic, gog, amazon) = heroic_files();
    sync::sync_heroic(
        outcome(true, heroic::load_epic(epic).len()),
        outcome(true, heroic::load_gog(gog).len()),
        outcome(true, heroic::load_amazon(amazon).len()),
    )
}

#[test]
fn test_sync_heroic_writes_caches() {
    let (epic, gog, amazon) = heroic_files();
    let epic_games = heroic::load_epic(epic);
    assert_eq!(epic_games.len(), 1);
    assert_eq!(epic_games[0].name, "Celeste");
    let gog_games = heroic::load_gog(gog);
    assert_eq!(gog_games.len(), 1);
    assert_eq!(gog_games[0].name, "Hollow Knight");
    assert_eq!(heroic::load_amazon(amazon).len(), 1);
    let reports = heroic_reports();
    assert_eq!(reports.len(), 3);
    assert!(reports.iter().all(|r| r.game_count == 1));
}

#[test]
fn test_sync_steam_skips_when_no_config() {
    let report = sync::sync_steam(SteamOutcome::NoConfig);
    assert!(matches!(report.status, SyncStatus::Skipped(_)));
}

#[test]
fn test_sync_heroic_handles_missing_files() {
    let reports = sync::sync_heroic(outcome(false, 0), outcome(false, 0), outcome(false, 0));
    assert_eq!(reports.len(), 3);
    assert!(reports
        .iter()
        .all(|r| matches!(r.status, SyncStatus::Skipped(_))));
    match &reports[0].status {
        SyncStatus::Skipped(reason) => assert_eq!(reason, "legendary_library.json not found"),
        _ => panic!("expected a skip"),
    }
}

#[test]
fn test_sync_all_returns_four_reports() {
    let reports = sync::sync_all(heroic_reports(), sync::sync_steam(SteamOutcome::NoConfig));
    assert_eq!(reports.len(), 4);
    assert_eq!(reports[3].platform, "steam");
}

#[test]
fn test_sync_heroic_all_ok_status() {
    for report in &heroic_reports() {
        assert!(matches!(report.status, SyncStatus::Succeeded));
    }
}

#[test]
fn test_sync_heroic_reports_platform_names() {
    let reports = heroic_reports();
    let platforms: Vec<&str> = reports.iter().map(|r| r.platform.as_str()).collect();
    assert!(platforms.contains(&"epic"));
    assert!(platforms.contains(&"gog"));
    assert!(platforms.contains(&"amazon"));
}

#[test]
fn an_existing_empty_library_is_still_written() {
    assert!(!sync::source_missing(0, true));
    assert!(sync::source_missing(0, false));
}

#[test]
fn failures_report_errors_with_no_games() {
    let r = sync::sync_steam(SteamOutcome::FetchFailed("HTTP request failed: boom".to_string()));
    assert_eq!(r.game_count, 0);
    match r.status {
        SyncStatus::Error(e) => assert_eq!(e, "HTTP request failed: boom"),
        _ => panic!("expected an error"),
    }
    let w = sync::sync_heroic(
        HeroicOutcome::WriteFailed("disk full".to_string()),
        HeroicOutcome::Written(7),
        HeroicOutcome::Missing,
    );
    assert!(matches!(w[0].status, SyncStatus::Error(_)));
    assert_eq!(w[1].game_count, 7);
    assert_eq!(w[2].platform, "amazon");
    let s = sync::sync_steam(SteamOutcome::Written(42));
    assert_eq!(s.game_count, 42);
    assert!(matches!(s.status, SyncStatus::Succeeded));
    match sync::sync_steam(SteamOutcome::NoConfig).status {
        SyncStatus::Skipped(m) => assert_eq!(m, "no config found, run `backlog setup` first"),
        _ => panic!("expected a skip"),
    }
}
