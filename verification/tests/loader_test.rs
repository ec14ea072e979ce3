use backlog::cache::CacheFile;
use backlog::clock::Instant;
use backlog::loader;
use backlog::Game;

fn game(name: &str, platform: &str) -> Game {
    Game {
        name: name.to_string(),
        platform: platform.to_string(),
    }
}

fn cache(last_updated: &str, source: &str, games: Vec<Game>) -> CacheFile {
    CacheFile {
        last_updated: last_updated.to_string(),
        source: source.to_string(),
        games,
    }
}

fn instant(t: chrono::DateTime<chrono::Utc>) -> Instant {
    Instant {
        secs: t.timestamp(),
        nanos: t.timestamp_subsec_nanos(),
    }
}

fn fresh_caches() -> Vec<(String, CacheFile)> {
    let now = chrono::Utc::now().to_rfc3339();
    vec![
        (
            "epic".to_string(),
            cache(&now, "heroic_cache", vec![game("Celeste", "epic")]),
        ),
        (
            "steam".to_string(),
            cache(
                &now,
                "steam_api",
                vec![game("Half-Life", "steam"), game("Portal", "steam")],
            ),
        ),
    ]
}

#[test]
fn test_load_all_games_merges_platforms() {
    let result = loader::load_all_games(&fresh_caches());
    assert_eq!(result.games.len(), 3);
    assert!(result.warnings.is_empty());
    assert!(result.oldest_update.is_some());
}

#[test]
fn test_dedupe_collapses_cross_store_duplicates() {
    let games = vec![game("Card Shark", "epic"), game("Card Shark", "steam")];
    let entries = loader::dedupe(games);
    assert_eq!(entries.len(), 1);
    assert_eq!(entries[0].name, "Card Shark");
    assert_eq!(entries[0].platforms, vec!["epic", "steam"]);
}

#[test]
fn test_dedupe_keeps_distinct_games_separate() {
    let games = vec![game("Hades", "epic"), game("Celeste", "epic")];
    let entries = loader::dedupe(games);
    assert_eq!(entries.len(), 2);
}

#[test]
fn test_dedupe_folds_case_and_trim_but_keeps_first_seen_display() {
    let games = vec![game("Card Shark", "epic"), game("  card shark  ", "steam")];
    let entries = loader::dedupe(games);
    assert_eq!(entries.len(), 1);
    assert_eq!(entries[0].name, "Card Shark");
    assert_eq!(entries[0].platforms, vec!["epic", "steam"]);
}

#[test]
fn test_dedupe_collapses_intra_platform_duplicates() {
    let games = vec![game("Portal", "steam"), game("Portal", "steam")];
    let entries = loader::dedupe(games);
    assert_eq!(entries.len(), 1);
    assert_eq!(entries[0].platforms, vec!["steam"]);
}

#[test]
fn test_dedupe_preserves_first_seen_order() {
    let games = vec![game("Zelda", "steam"), game("Abzu", "epic")];
    let entries = loader::dedupe(games);
    let names: Vec<&str> = entries.iter().map(|e| e.name.as_str()).collect();
    assert_eq!(names, vec!["Zelda", "Abzu"]);
}

#[test]
fn test_load_all_games_warns_on_stale() {
    let caches = vec![(
        "steam".to_string(),
        cache(
            "2020-01-01T00:00:00+00:00",
            "steam_api",
            vec![game("Old Game", "steam")],
        ),
    )];
    let result = loader::load_all_games(&caches);
    assert_eq!(result.games.len(), 1);
    assert_eq!(result.warnings.len(), 1);
    assert!(result.warnings[0].contains("steam"));
}

#[test]
fn test_load_all_games_empty_dir() {
    let result = loader::load_all_games(&Vec::new());
    assert!(result.games.is_empty());
    assert!(result.warnings.is_empty());
    assert!(result.oldest_update.is_none());
}

#[test]
fn test_format_sync_age_none() {
    assert_eq!(loader::format_sync_age(None), "never synced");
}

#[test]
fn test_format_sync_age_recent() {
    let recent = chrono::Utc::now() - chrono::Duration::seconds(30);
    assert_eq!(
        loader::format_sync_age(Some(instant(recent))),
        "synced just now"
    );
}

#[test]
fn test_format_sync_age_hours() {
    let hours_ago = chrono::Utc::now() - chrono::Duration::hours(3);
    assert_eq!(
        loader::format_sync_age(Some(instant(hours_ago))),
        "synced 3h ago"
    );
}

#[test]
fn test_format_sync_age_days() {
    let days_ago = chrono::Utc::now() - chrono::Duration::days(5);
    assert_eq!(
        loader::format_sync_age(Some(instant(days_ago))),
        "synced 5d ago"
    );
}

#[test]
fn dedupe_merges_exactly_the_names_queue_normalize_key_agrees_on() {
    // Queue state is addressed by `queue::normalize_key`, so every library
    // entry `dedupe` produces must correspond to exactly one queue key.
    let names = [
        "Tunic",
        "  tunic",
        "TUNIC ",
        "Outer Wilds",
        "outer  wilds",
        "Café",
    ];
    for a in names {
        for b in names {
            let entries = loader::dedupe(vec![game(a, "steam"), game(b, "epic")]);
            let merged = entries.len() == 1;
            let same_key = backlog::queue::normalize_key(a) == backlog::queue::normalize_key(b);
            assert_eq!(
                merged, same_key,
                "dedupe and normalize_key disagree on {a:?} vs {b:?}"
            );
        }
    }
}

#[test]
fn stale_warning_names_the_date_and_the_fix() {
    let caches = vec![(
        "gog".to_string(),
        cache("2020-01-01T00:00:00+00:00", "heroic_cache", Vec::new()),
    )];
    let result = loader::load_all_games(&caches);
    assert_eq!(
        result.warnings,
        vec!["gog cache is stale (last updated: 2020-01-01). Run `backlog sync` to refresh."]
    );
}

#[test]
fn oldest_update_is_the_earliest_parsable_timestamp() {
    let caches = vec![
        ("epic".to_string(), cache("2021-06-01T00:00:00+00:00", "a", Vec::new())),
        ("gog".to_string(), cache("not a date", "b", Vec::new())),
        ("steam".to_string(), cache("2021-01-01T12:00:00+02:00", "c", Vec::new())),
    ];
    let result = loader::load_all_games(&caches);
    assert_eq!(
        result.oldest_update,
        Some(Instant { secs: 1609495200, nanos: 0 })
    );
    // The unparsable timestamp counts as stale; its whole text is shown.
    assert!(result.warnings.iter().any(|w| w.contains("(last updated: not a date)")));
}

#[test]
fn sync_age_at_picks_the_largest_whole_unit() {
    let now = Instant { secs: 1_000_000, nanos: 0 };
    let at = |secs: i64| loader::format_sync_age_at(Some(Instant { secs, nanos: 0 }), now);
    assert_eq!(at(1_000_000 - 2 * 86_400 - 5), "synced 2d ago");
    assert_eq!(at(1_000_000 - 86_399), "synced 23h ago");
    assert_eq!(at(1_000_000 - 61), "synced 1m ago");
    assert_eq!(at(1_000_000 - 59), "synced just now");
    assert_eq!(at(1_000_000 + 7200), "synced just now");
}

#[test]
fn dedupe_lists_platforms_in_encounter_order() {
    let entries = loader::dedupe(vec![
        game("Hades", "steam"),
        game("Celeste", "gog"),
        game("HADES", "epic"),
        game("hades ", "steam"),
    ]);
    assert_eq!(entries.len(), 2);
    assert_eq!(entries[0].name, "Hades");
    assert_eq!(entries[0].platforms, vec!["steam", "epic"]);
    assert_eq!(entries[1].platforms, vec!["gog"]);
}

#[test]
fn sync_age_at_a_known_time_uses_the_largest_whole_unit() {
    let synced = Instant { secs: 1_000_000, nanos: 0 };
    let at = |secs: i64| Instant { secs, nanos: 0 };
    assert_eq!(loader::format_sync_age_at(Some(synced), at(1_000_000 + 2 * 86_400 + 5)), "synced 2d ago");
    assert_eq!(loader::format_sync_age_at(Some(synced), at(1_000_000 + 3 * 3_600 + 59)), "synced 3h ago");
    assert_eq!(loader::format_sync_age_at(Some(synced), at(1_000_000 + 119)), "synced 1m ago");
    assert_eq!(loader::format_sync_age_at(Some(synced), at(1_000_000 + 59)), "synced just now");
    assert_eq!(loader::format_sync_age_at(Some(synced), at(999_000)), "synced just now");
    assert_eq!(loader::format_sync_age_at(None, at(0)), "never synced");
}

#[test]
fn stale_warnings_at_a_known_time() {
    let caches = vec![
        ("steam".to_string(), cache("2020-01-01T00:00:00+00:00", "steam_api", vec![game("Hades", "steam")])),
        ("epic".to_string(), cache("2020-01-09T12:00:00+00:00", "heroic_cache", vec![game("Tunic", "epic")])),
    ];
    let now = Instant { secs: 1_578_528_000, nanos: 0 }; // 2020-01-09T00:00:00Z
    let result = loader::load_all_games_at(&caches, now);
    assert_eq!(
        result.warnings,
        vec!["steam cache is stale (last updated: 2020-01-01). Run `backlog sync` to refresh.".to_string()]
    );
    assert_eq!(result.oldest_update, Some(Instant { secs: 1_577_836_800, nanos: 0 }));
    assert_eq!(result.games.len(), 2);
}
