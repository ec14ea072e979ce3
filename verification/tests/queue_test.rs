use backlog::queue::{self, apply_filter, Filter, GameState, Queue, QueueEntry, QUEUE_VERSION};
use backlog::LibraryEntry;

fn entry(name: &str, queued: bool, played: bool) -> QueueEntry {
    QueueEntry {
        key: queue::normalize_key(name),
        name: name.to_string(),
        queued,
        played,
    }
}

fn library(names: &[&str]) -> Vec<LibraryEntry> {
    names
        .iter()
        .map(|n| LibraryEntry {
            name: n.to_string(),
            platforms: vec!["steam".to_string()],
        })
        .collect()
}

fn names(entries: &[LibraryEntry]) -> Vec<&str> {
    entries.iter().map(|e| e.name.as_str()).collect()
}

#[test]
fn normalize_key_lowercases_and_trims() {
    assert_eq!(queue::normalize_key("  Hollow Knight "), "hollow knight");
    assert_eq!(queue::normalize_key("TUNIC"), "tunic");
}

#[test]
fn save_drops_entries_with_both_flags_cleared() {
    let q = Queue {
        entries: vec![entry("Tunic", false, false), entry("Pentiment", true, false)],
        ..Default::default()
    };
    let saved = q.pruned();
    assert_eq!(saved.entries.len(), 1);
    assert_eq!(saved.entries[0].name, "Pentiment");
    assert_eq!(saved.version, QUEUE_VERSION);
}

#[test]
fn state_matches_regardless_of_case_and_whitespace() {
    let q = Queue {
        entries: vec![entry("Hollow Knight", true, false)],
        ..Default::default()
    };
    assert_eq!(
        q.state("  hollow knight "),
        GameState {
            queued: true,
            played: false
        }
    );
    assert_eq!(q.state("Unknown Game"), GameState::default());
}

#[test]
fn toggle_queued_and_played_are_independent() {
    let mut q = Queue::default();
    q.toggle_queued("Tunic");
    assert_eq!(
        q.state("Tunic"),
        GameState {
            queued: true,
            played: false
        }
    );

    q.toggle_played("Tunic");
    assert_eq!(
        q.state("Tunic"),
        GameState {
            queued: true,
            played: true
        }
    );

    q.toggle_queued("Tunic");
    assert_eq!(
        q.state("Tunic"),
        GameState {
            queued: false,
            played: true
        }
    );
}

#[test]
fn toggling_both_flags_off_leaves_no_live_state() {
    let mut q = Queue::default();
    q.toggle_queued("Tunic");
    q.toggle_queued("Tunic");
    assert_eq!(q.state("Tunic"), GameState::default());
}

#[test]
fn new_entries_keep_the_trimmed_display_name() {
    let mut q = Queue::default();
    q.toggle_played("  Outer Wilds ");
    assert_eq!(q.entries.len(), 1);
    assert_eq!(q.entries[0].key, "outer wilds");
    assert_eq!(q.entries[0].name, "Outer Wilds");
    assert!(q.entries[0].played && !q.entries[0].queued);
}

#[test]
fn requeued_game_takes_the_last_rank() {
    let mut q = Queue::default();
    q.toggle_queued("A");
    q.toggle_queued("B");
    q.toggle_queued("C");
    q.toggle_queued("A");
    assert_eq!(q.rank("A"), None);
    q.toggle_queued("a");
    assert_eq!(q.rank("B"), Some(1));
    assert_eq!(q.rank("C"), Some(2));
    assert_eq!(q.rank("A"), Some(3));
    assert_eq!(q.queued_names(), vec!["B", "C", "A"]);
}

#[test]
fn toggle_played_keeps_every_rank() {
    let mut q = Queue::default();
    q.toggle_queued("A");
    q.toggle_queued("B");
    q.toggle_played("A");
    q.toggle_played("Z");
    assert_eq!(q.rank("A"), Some(1));
    assert_eq!(q.rank("B"), Some(2));
    assert_eq!(q.rank("Z"), None);
}

#[test]
fn moves_skip_played_only_entries_and_undo_each_other() {
    let mut q = Queue::default();
    q.toggle_queued("A");
    q.toggle_played("P");
    q.toggle_queued("B");
    let before = q.entries.clone();
    assert!(q.move_down("A"));
    assert_eq!(q.rank("A"), Some(2));
    assert_eq!(q.rank("B"), Some(1));
    assert!(!q.move_down("A"));
    assert!(q.move_up("A"));
    assert_eq!(q.entries, before);
    assert!(!q.move_up("A"));
    assert!(!q.move_up("P"));
    assert!(!q.move_down("nobody"));
}

#[test]
fn queued_filter_lists_library_games_in_rank_order() {
    let lib = library(&["Tunic", "Hades", "Celeste"]);
    let mut q = Queue::default();
    q.toggle_queued("Celeste");
    q.toggle_queued("Missing");
    q.toggle_queued("Tunic");
    q.toggle_played("Hades");
    assert_eq!(names(&apply_filter(&lib, &q, Filter::Queued)), vec!["Celeste", "Tunic"]);
    assert_eq!(names(&apply_filter(&lib, &q, Filter::Played)), vec!["Hades"]);
    assert_eq!(names(&apply_filter(&lib, &q, Filter::Unplayed)), vec!["Tunic", "Celeste"]);
    assert_eq!(names(&apply_filter(&lib, &q, Filter::All)), vec!["Tunic", "Hades", "Celeste"]);
}

#[test]
fn filters_cycle_through_all_four() {
    assert_eq!(Filter::default(), Filter::All);
    assert_eq!(Filter::All.next(), Filter::Queued);
    assert_eq!(Filter::Queued.next(), Filter::Played);
    assert_eq!(Filter::Played.next(), Filter::Unplayed);
    assert_eq!(Filter::Unplayed.next(), Filter::All);
    assert_eq!(Filter::All.prev(), Filter::Unplayed);
    assert_eq!(Filter::Queued.glyph(), Some('»'));
    assert_eq!(Filter::Played.glyph(), Some('✓'));
    assert_eq!(Filter::Unplayed.label(), "unplayed");
}

#[test]
fn pruning_keeps_states_and_ranks() {
    let q = Queue {
        entries: vec![
            entry("A", true, false),
            entry("B", false, false),
            entry("C", false, true),
            entry("D", true, true),
        ],
        ..Default::default()
    };
    let p = q.pruned();
    for name in ["A", "B", "C", "D", "E"] {
        assert_eq!(p.state(name), q.state(name));
        assert_eq!(p.rank(name), q.rank(name));
    }
    assert_eq!(p.entries.len(), 3);
}

#[test]
fn moving_up_trades_ranks_with_the_previous_queued_game() {
    let mut q = Queue::default();
    q.toggle_queued("A");
    q.toggle_queued("B");
    q.toggle_played("P");
    q.toggle_queued("C");
    assert_eq!(q.rank("C"), Some(3));
    assert!(q.move_up("C"));
    assert_eq!(q.rank("C"), Some(2));
    assert_eq!(q.rank("B"), Some(3));
    assert_eq!(q.rank("A"), Some(1));
    assert_eq!(q.state("P"), GameState { queued: false, played: true });
}

#[test]
fn normalize_key_trims_unicode_white_space_only() {
    assert_eq!(queue::normalize_key("\u{3000}Tunic\u{a0}\u{2009}"), "tunic");
    assert_eq!(queue::normalize_key("\t\nHades\r"), "hades");
    assert_eq!(queue::normalize_key("\u{200b}Hades"), "\u{200b}hades");
}
