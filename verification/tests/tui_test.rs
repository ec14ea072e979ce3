use backlog::queue::{Filter, GameState, Queue};
use backlog::sync::{SyncReport, SyncStatus};
use backlog::tui::{
    filter_chip, format_sync_summary, keybind_hint, marker_text, move_selected, selected_game,
    Command, Key, TuiState,
};
use backlog::LibraryEntry;

fn ok(platform: &str, count: usize) -> SyncReport {
    SyncReport {
        platform: platform.to_string(),
        game_count: count,
        status: SyncStatus::Succeeded,
    }
}

fn games(names: &[&str]) -> Vec<LibraryEntry> {
    names
        .iter()
        .map(|name| LibraryEntry {
            name: name.to_string(),
            platforms: vec!["steam".to_string()],
        })
        .collect()
}

fn typed(text: &str) -> TuiState {
    let mut s = TuiState::new();
    for c in text.chars() {
        s.handle_key(Key::Char(c));
    }
    s
}

#[test]
fn ok_reports_show_full_count_as_delta_when_no_prior_snapshot() {
    let reports = vec![ok("steam", 42), ok("epic", 10)];
    assert_eq!(format_sync_summary(&reports, &[]), "steam +42  epic +10");
}

#[test]
fn ok_reports_show_delta_from_before_counts() {
    let reports = vec![ok("steam", 42), ok("epic", 10)];
    let before = vec![("steam".to_string(), 39), ("epic".to_string(), 10)];
    assert_eq!(format_sync_summary(&reports, &before), "steam +3  epic +0");
}

#[test]
fn ok_report_shows_negative_delta_when_games_removed() {
    let reports = vec![ok("steam", 40)];
    let before = vec![("steam".to_string(), 42)];
    assert_eq!(format_sync_summary(&reports, &before), "steam -2");
}

#[test]
fn mixed_statuses_render_skip_and_error_words() {
    let reports = vec![
        ok("steam", 42),
        SyncReport {
            platform: "gog".to_string(),
            game_count: 0,
            status: SyncStatus::Skipped("gog_library.json not found".to_string()),
        },
        SyncReport {
            platform: "amazon".to_string(),
            game_count: 0,
            status: SyncStatus::Error("network error".to_string()),
        },
    ];
    assert_eq!(
        format_sync_summary(&reports, &[]),
        "steam +42  gog skip  amazon error"
    );
}

#[test]
fn empty_reports_produce_empty_string() {
    assert_eq!(format_sync_summary(&[], &[]), "");
}

#[test]
fn marker_spans_render_glyphs_blanks_and_a_trailing_space() {
    assert_eq!(marker_text(GameState { queued: true, played: false }), "»  ");
    assert_eq!(marker_text(GameState { queued: false, played: true }), " ✓ ");
    assert_eq!(marker_text(GameState { queued: true, played: true }), "»✓ ");
    assert_eq!(marker_text(GameState { queued: false, played: false }), "   ");
}

#[test]
fn filter_chip_repeats_the_row_glyph() {
    assert_eq!(filter_chip(Filter::All), " all ");
    assert_eq!(filter_chip(Filter::Queued), " » queued ");
    assert_eq!(filter_chip(Filter::Played), " ✓ played ");
    assert_eq!(filter_chip(Filter::Unplayed), " unplayed ");
}

#[test]
fn selected_game_is_none_on_the_blank_default_screen() {
    let lib = games(&["Hollow Knight", "Hades"]);
    let state = TuiState::new();
    assert_eq!(selected_game(&state, &lib, &Queue::default()), None);
}

#[test]
fn enter_on_the_blank_default_screen_does_not_queue_anything() {
    let lib = games(&["Hollow Knight", "Hades"]);
    let mut state = TuiState::new();
    let mut queue = Queue::default();
    assert_eq!(state.handle_key(Key::Enter), Command::ToggleQueued);
    if let Some(name) = selected_game(&state, &lib, &queue) {
        queue.toggle_queued(&name);
    }
    assert!(queue.entries.is_empty());
}

#[test]
fn selected_game_resolves_once_input_or_filter_shows_rows() {
    let lib = games(&["Hollow Knight", "Hades"]);
    let state = typed("hades");
    assert_eq!(
        selected_game(&state, &lib, &Queue::default()),
        Some("Hades".to_string())
    );
}

#[test]
fn move_selected_follows_the_moved_game_even_when_the_cursor_overshot() {
    let lib = games(&["A", "B", "C"]);
    let mut queue = Queue::default();
    queue.toggle_queued("A");
    queue.toggle_queued("B");
    queue.toggle_queued("C");
    let mut state = TuiState::new();
    state.filter = Filter::Queued;
    // Plain Down has no upper bound, so holding it past the end leaves
    // `selected` far past the last row.
    state.selected = 100;

    assert!(move_selected(&mut state, &mut queue, &lib, false));

    assert_eq!(queue.rank("C"), Some(2));
    assert_eq!(state.selected, 1, "cursor should self-heal onto C's new row");
}

#[test]
fn move_selected_stays_on_the_game_when_the_swap_moves_no_visible_row() {
    let lib = games(&["Tunic", "Hades"]);
    let mut queue = Queue::default();
    queue.toggle_queued("Tunic");
    queue.toggle_queued("Uninstalled Game");
    queue.toggle_queued("Hades");
    let mut state = TuiState::new();
    state.filter = Filter::Queued;
    state.selected = 0;

    assert!(move_selected(&mut state, &mut queue, &lib, true));

    // Tunic swapped past a queued game absent from the library, so its rank
    // changed but the visible rows did not.
    assert_eq!(queue.rank("Tunic"), Some(2));
    assert_eq!(state.selected, 0, "cursor should stay on Tunic");
}

#[test]
fn hint_advertises_reordering_only_under_the_queued_filter() {
    assert!(keybind_hint(Filter::Queued).contains("^j/^k rank"));
    assert!(!keybind_hint(Filter::All).contains("rank"));
    assert!(!keybind_hint(Filter::Played).contains("rank"));
    assert!(!keybind_hint(Filter::Unplayed).contains("rank"));
}

#[test]
fn keys_edit_the_input_at_the_cursor() {
    let mut s = typed("hdes");
    assert_eq!(s.handle_key(Key::Left), Command::Nothing);
    s.handle_key(Key::Left);
    s.handle_key(Key::Left);
    s.handle_key(Key::Char('a'));
    assert_eq!(s.query(), "hades");
    assert_eq!(s.cursor, 2);
    s.handle_key(Key::Backspace);
    assert_eq!(s.query(), "hdes");
    s.handle_key(Key::Ctrl('x'));
    assert_eq!(s.query(), "hxdes");
    for _ in 0..10 {
        s.handle_key(Key::Right);
    }
    assert_eq!(s.cursor, 5);
}

#[test]
fn keys_map_to_commands() {
    let mut s = TuiState::new();
    assert_eq!(s.handle_key(Key::Esc), Command::Quit);
    assert_eq!(s.handle_key(Key::Ctrl('c')), Command::Quit);
    assert_eq!(s.handle_key(Key::Ctrl('r')), Command::StartSync);
    assert_eq!(s.handle_key(Key::Ctrl('p')), Command::TogglePlayed);
    assert_eq!(s.handle_key(Key::Ctrl('j')), Command::Move(true));
    assert_eq!(s.handle_key(Key::ShiftUp), Command::Move(false));
    assert!(s.input.is_empty());
    s.handle_key(Key::Down);
    s.handle_key(Key::Down);
    assert_eq!(s.selected, 2);
    s.handle_key(Key::Tab);
    assert_eq!(s.selected, 0);
    assert_eq!(s.filter, Filter::Queued);
    s.handle_key(Key::Up);
    assert_eq!(s.selected, 0);
    s.handle_key(Key::BackTab);
    s.handle_key(Key::BackTab);
    assert_eq!(s.filter, Filter::Unplayed);
}

#[test]
fn scroll_offset_keeps_the_selected_row_on_screen() {
    assert_eq!(backlog::tui::scroll_offset(0, 10), 0);
    assert_eq!(backlog::tui::scroll_offset(9, 10), 0);
    assert_eq!(backlog::tui::scroll_offset(10, 10), 1);
    assert_eq!(backlog::tui::scroll_offset(25, 10), 16);
}

#[test]
fn name_column_leaves_thirteen_columns_for_the_rest() {
    assert_eq!(backlog::tui::name_column_width(20, 80), 20);
    assert_eq!(backlog::tui::name_column_width(70, 80), 67);
    assert_eq!(backlog::tui::name_column_width(5, 10), 0);
}

#[test]
fn down_stops_at_the_largest_selection() {
    let mut s = TuiState::new();
    s.selected = usize::MAX;
    assert_eq!(s.handle_key(Key::Down), Command::Nothing);
    assert_eq!(s.selected, usize::MAX);
    s.handle_key(Key::Up);
    assert_eq!(s.selected, usize::MAX - 1);
}

#[test]
fn rows_show_once_there_is_input_or_a_narrowing_filter() {
    let mut s = TuiState::new();
    assert!(!backlog::tui::lists_rows(&s));
    s.handle_key(Key::Tab);
    assert!(backlog::tui::lists_rows(&s));
    s.handle_key(Key::BackTab);
    s.handle_key(Key::Char('h'));
    assert!(backlog::tui::lists_rows(&s));
    assert_eq!(backlog::tui::clamp_selection(100, 3), 2);
    assert_eq!(backlog::tui::clamp_selection(1, 3), 1);
}

#[test]
fn highlight_mask_marks_the_matched_chars() {
    assert_eq!(backlog::tui::highlight_mask(5, &[0, 3]), vec![true, false, false, true, false]);
    assert_eq!(backlog::tui::highlight_mask(2, &[7]), vec![false, false]);
    assert!(backlog::tui::highlight_mask(0, &[0]).is_empty());
}
