use backlog::cache;
use backlog::clock::Instant;

#[test]
fn test_is_stale_with_old_timestamp() {
    assert!(cache::is_stale("2020-01-01T00:00:00+00:00", 7));
}

#[test]
fn test_is_stale_with_fresh_timestamp() {
    let now = chrono::Utc::now().to_rfc3339();
    assert!(!cache::is_stale(&now, 7));
}

#[test]
fn unparsable_timestamps_are_stale() {
    assert!(cache::is_stale("yesterday", 7));
    assert!(cache::is_stale("", 7000));
}

#[test]
fn staleness_is_strictly_more_than_the_limit() {
    let updated = Some(Instant { secs: 0, nanos: 0 });
    let week = 7 * 86_400;
    assert!(!cache::stale_at(updated, Instant { secs: week, nanos: 0 }, 7));
    assert!(cache::stale_at(updated, Instant { secs: week, nanos: 1 }, 7));
    assert!(cache::stale_at(None, Instant { secs: 0, nanos: 0 }, 7));
}

#[test]
fn a_leap_second_counts_as_chrono_counts_it() {

    // 03:00:59 plus one second of leap, then 03:01:00: one second apart.
    let leap = Instant { secs: 10_859, nanos: 1_000_000_000 };
    assert!(cache::stale_at(Some(leap), Instant { secs: 10_860, nanos: 0 }, 0));
    assert!(!cache::stale_at(Some(leap), Instant { secs: 10_859, nanos: 1_000_000_000 }, 0));
    assert_eq!(
        backlog::loader::format_sync_age_at(Some(leap), Instant { secs: 10_919, nanos: 0 }),
        "synced 1m ago"
    );
}
