//! The interactive view's state and decisions: what each key does, which game
//! the cursor is on, and the text of the status row. Drawing and the event
//! loop live outside the library.

use vstd::prelude::*;
use vstd::string::StringExecFns;

use crate::queue::{
    apply_filter, filtered, law_filtered_rows_come_from_library, move_positions, moved, EntryView, Filter,
    GameState, Queue, PLAYED_GLYPH, QUEUED_GLYPH,
};
use crate::queue::{keys_unique, normalized, rank_of};
use crate::queue_laws::law_move_shifts_rank_by_one;
use crate::search::{fuzzy_search, ranking, titles_of, Titled};
use crate::sync::{ReportView, StatusView, SyncReport, SyncStatus};
use crate::text::{decimal, decimal_string, joined, push_char, push_joined, str_eq, string_from_chars};
use crate::{library_view, string_views, LibraryEntry, LibraryEntryView};

verus! {

/// A key press, as the view distinguishes them.
#[derive(Clone, Copy, Debug, PartialEq, Eq, Structural)]
pub enum Key {
    Esc,
    Enter,
    Tab,
    BackTab,
    Backspace,
    Left,
    Right,
    Up,
    Down,
    /// Up with Shift alone held.
    ShiftUp,
    /// Down with Shift alone held.
    ShiftDown,
    /// A char typed with Control alone held.
    Ctrl(char),
    /// A char typed otherwise.
    Char(char),
    Other,
}

/// What the view asks of the program after a key.
#[derive(Clone, Copy, Debug, PartialEq, Eq, Structural)]
pub enum Command {
    Nothing,
    Quit,
    StartSync,
    ToggleQueued,
    TogglePlayed,
    /// Move the selected game one rank later (`true`) or earlier.
    Move(bool),
}

/// The search input, its cursor, the selected row and the active filter.
pub struct TuiState {
    /// The query, char by char.
    pub input: Vec<char>,
    /// The cursor's position in `input`, in chars.
    pub cursor: usize,
    /// The selected row; it may run past the last row, which then counts.
    pub selected: usize,
    pub filter: Filter,
}

/// The state, as mathematical values.
pub struct TuiView {
    pub input: Seq<char>,
    pub cursor: nat,
    pub selected: nat,
    pub filter: Filter,
}

impl View for TuiState {
    type V = TuiView;

    open spec fn view(&self) -> TuiView {
        TuiView { input: self.input@, cursor: self.cursor as nat, selected: self.selected as nat, filter: self.filter }
    }
}

/// The command a key gives.
pub open spec fn key_command(key: Key) -> Command {
    match key {
        Key::Esc | Key::Ctrl('c') => Command::Quit,
        Key::Ctrl('r') => Command::StartSync,
        Key::Enter => Command::ToggleQueued,
        Key::Ctrl('p') => Command::TogglePlayed,
        Key::Ctrl('j') | Key::ShiftDown => Command::Move(true),
        Key::Ctrl('k') | Key::ShiftUp => Command::Move(false),
        _ => Command::Nothing,
    }
}

/// The state after a key.
pub open spec fn after_key(s: TuiView, key: Key) -> TuiView {
    match key {
        Key::BackTab => TuiView { filter: s.filter.prev_spec(), selected: 0, ..s },
        Key::Tab => TuiView { filter: s.filter.next_spec(), selected: 0, ..s },
        Key::Char(c) => TuiView {
            input: s.input.insert(s.cursor as int, c),
            cursor: s.cursor + 1,
            selected: 0,
            ..s
        },
        Key::Ctrl(c) => if c == 'c' || c == 'r' || c == 'p' || c == 'j' || c == 'k' {
            s
        } else {
            TuiView { input: s.input.insert(s.cursor as int, c), cursor: s.cursor + 1, selected: 0, ..s }
        },
        Key::Backspace => if s.cursor > 0 {
            TuiView { input: s.input.remove(s.cursor - 1), cursor: (s.cursor - 1) as nat, selected: 0, ..s }
        } else {
            s
        },
        Key::Left => if s.cursor > 0 {
            TuiView { cursor: (s.cursor - 1) as nat, ..s }
        } else {
            s
        },
        Key::Right => if s.cursor < s.input.len() {
            TuiView { cursor: s.cursor + 1, ..s }
        } else {
            s
        },
        Key::Down => TuiView { selected: if s.selected < usize::MAX { s.selected + 1 } else { s.selected }, ..s },
        Key::Up => TuiView { selected: if s.selected > 0 { (s.selected - 1) as nat } else { 0 }, ..s },
        _ => s,
    }
}

/// Ctrl+J and Shift+Down ask to move the selected game, Ctrl+K and
/// Shift+Up too, in opposite directions: a move that Ctrl+J asks for puts
/// the game one rank later, one that Ctrl+K asks for one rank earlier.
pub proof fn law_move_keys_go_down_and_up(es: Seq<EntryView>, name: Seq<char>)
    requires
        keys_unique(es),
    ensures
        key_command(Key::ShiftDown) == key_command(Key::Ctrl('j')),
        key_command(Key::ShiftUp) == key_command(Key::Ctrl('k')),
        key_command(Key::Ctrl('j')) is Move,
        key_command(Key::Ctrl('k')) is Move,
        ({
            let down = key_command(Key::Ctrl('j'))->0;
            let up = key_command(Key::Ctrl('k'))->0;
            let key = normalized(name);
            &&& move_positions(es, name, down) is Some ==> rank_of(moved(es, name, down), key) == Some(
                rank_of(es, key)->0 + 1,
            )
            &&& move_positions(es, name, up) is Some ==> rank_of(moved(es, name, up), key) == Some(
                rank_of(es, key)->0 - 1,
            )
        }),
{
    let down = key_command(Key::Ctrl('j'))->0;
    let up = key_command(Key::Ctrl('k'))->0;
    if move_positions(es, name, down) is Some {
        law_move_shifts_rank_by_one(es, name, down);
    }
    if move_positions(es, name, up) is Some {
        law_move_shifts_rank_by_one(es, name, up);
    }
}

/// Typing a char puts it at the cursor and moves the cursor past it;
/// typing, deleting a char and switching filters send the selection back to
/// the first listed row, so the game under the cursor is the best match of
/// the new listing. Moving the text cursor keeps the selection.
pub proof fn law_edits_return_to_first_row(s: TuiView, c: char, lib: Seq<LibraryEntryView>, es: Seq<EntryView>)
    requires
        s.cursor <= s.input.len(),
    ensures
        after_key(s, Key::Char(c)).input == s.input.insert(s.cursor as int, c),
        after_key(s, Key::Char(c)).cursor == s.cursor + 1,
        after_key(s, Key::Char(c)).selected == 0,
        s.cursor > 0 ==> after_key(s, Key::Backspace).selected == 0,
        after_key(s, Key::Tab).selected == 0,
        after_key(s, Key::BackTab).selected == 0,
        after_key(s, Key::Left).selected == s.selected,
        after_key(s, Key::Right).selected == s.selected,
        ({
            let t = after_key(s, Key::Char(c));
            let rows = listed_rows(t, lib, es);
            rows.len() > 0 ==> clamped(t.selected, rows.len()) == 0
        }),
{
}

impl TuiState {
    /// The state the view opens with: no input, first row, all games.
    pub fn new() -> (s: TuiState)
        ensures
            s@.input.len() == 0,
            s@.cursor == 0,
            s@.selected == 0,
            s@.filter == Filter::All,
    {
        TuiState { input: Vec::new(), cursor: 0, selected: 0, filter: Filter::All }
    }

    /// The query as a string.
    pub fn query(&self) -> (r: String)
        ensures
            r@ == self.input@,
    {
        string_from_chars(&self.input, 0, self.input.len())
    }

    /// Applies a key: edits the input, moves the cursor or the selection, or
    /// cycles the filter, and says what the program should do next.
    ///
    /// Typing, deleting and changing the filter return the selection to the
    /// first row; Down stops at the largest `usize`, Up at the first row.
    pub fn handle_key(&mut self, key: Key) -> (c: Command)
        requires
            old(self).cursor <= old(self).input.len(),
            old(self).input.len() < usize::MAX,
        ensures
            c == key_command(key),
            final(self)@ == after_key(old(self)@, key),
            final(self).cursor <= final(self).input.len(),
    {
        match key {
            Key::Esc => Command::Quit,
            Key::Enter => Command::ToggleQueued,
            Key::ShiftDown => Command::Move(true),
            Key::ShiftUp => Command::Move(false),
            Key::Ctrl(c) => {
                if c == 'c' {
                    Command::Quit
                } else if c == 'r' {
                    Command::StartSync
                } else if c == 'p' {
                    Command::TogglePlayed
                } else if c == 'j' {
                    Command::Move(true)
                } else if c == 'k' {
                    Command::Move(false)
                } else {
                    self.insert_char(c);
                    Command::Nothing
                }
            },
            Key::Char(c) => {
                self.insert_char(c);
                Command::Nothing
            },
            Key::BackTab => {
                self.filter = self.filter.prev();
                self.selected = 0;
                Command::Nothing
            },
            Key::Tab => {
                self.filter = self.filter.next();
                self.selected = 0;
                Command::Nothing
            },
            Key::Backspace => {
                if self.cursor > 0 {
                    self.input.remove(self.cursor - 1);
                    self.cursor = self.cursor - 1;
                    self.selected = 0;
                }
                Command::Nothing
            },
            Key::Left => {
                if self.cursor > 0 {
                    self.cursor = self.cursor - 1;
                }
                Command::Nothing
            },
            Key::Right => {
                if self.cursor < self.input.len() {
                    self.cursor = self.cursor + 1;
                }
                Command::Nothing
            },
            Key::Down => {
                if self.selected < usize::MAX {
                    self.selected = self.selected + 1;
                }
                Command::Nothing
            },
            Key::Up => {
                if self.selected > 0 {
                    self.selected = self.selected - 1;
                }
                Command::Nothing
            },
            Key::Other => Command::Nothing,
        }
    }

    /// Inserts `c` at the cursor and moves past it; the selection returns to
    /// the first row.
    fn insert_char(&mut self, c: char)
        requires
            old(self).cursor <= old(self).input.len(),
            old(self).input.len() < usize::MAX,
        ensures
            final(self).input@ == old(self).input@.insert(old(self).cursor as int, c),
            final(self).cursor == old(self).cursor + 1,
            final(self).selected == 0,
            final(self).filter == old(self).filter,
    {
        self.input.insert(self.cursor, c);
        self.cursor = self.cursor + 1;
        self.selected = 0;
    }
}


/// The number of games before a sync for `platform`: the first count listed
/// for it, 0 when none is.
pub open spec fn count_before(before: Seq<(String, usize)>, platform: Seq<char>) -> nat
    decreases before.len(),
{
    if before.len() == 0 {
        0
    } else if before[0].0@ == platform {
        before[0].1 as nat
    } else {
        count_before(before.drop_first(), platform)
    }
}

/// A change in count: `+n` for a gain or none, `-n` for a loss.
pub open spec fn delta_text(after: nat, before: nat) -> Seq<char> {
    if after >= before {
        seq!['+'] + decimal((after - before) as nat)
    } else {
        seq!['-'] + decimal((before - after) as nat)
    }
}

/// One platform's part of the sync summary.
pub open spec fn summary_item(r: ReportView, before: Seq<(String, usize)>) -> Seq<char> {
    r.platform + seq![' '] + match r.status {
        StatusView::Succeeded => delta_text(r.game_count, count_before(before, r.platform)),
        StatusView::Skipped(_) => "skip"@,
        StatusView::Error(_) => "error"@,
    }
}

/// The sync summary: each report's item, two blanks apart.
pub open spec fn sync_summary(reports: Seq<SyncReport>, before: Seq<(String, usize)>) -> Seq<char> {
    joined(Seq::new(reports.len(), |k: int| summary_item(reports[k]@, before)), seq![' ', ' '])
}

/// How many games `platform` had before the sync.
fn lookup_count(before: &[(String, usize)], platform: &str) -> (r: usize)
    ensures
        r as nat == count_before(before@, platform@),
{
    let n = before.len();
    let mut i: usize = 0;
    assert(before@.skip(0) == before@);
    while i < n
        invariant
            n == before@.len(),
            i <= n,
            count_before(before@, platform@) == count_before(before@.skip(i as int), platform@),
        decreases n - i,
    {
        assert(before@.skip(i as int).drop_first() == before@.skip(i + 1));
        assert(before@.skip(i as int)[0] == before@[i as int]);
        if str_eq(before[i].0.as_str(), platform) {
            return before[i].1;
        }
        i += 1;
    }
    0
}

/// Summarizes a finished sync: per platform, the change in its game count
/// against `before_counts` (a platform missing there counts as 0), or `skip`
/// or `error`. The counts come as a list of pairs, the first pair for a
/// platform counting (a `HashMap` keyed by `String` has no usable contract
/// in vstd).
pub fn format_sync_summary(reports: &[SyncReport], before_counts: &[(String, usize)]) -> (r: String)
    ensures
        r@ == sync_summary(reports@, before_counts@),
{
    let ghost items = Seq::new(reports@.len(), |k: int| summary_item(reports@[k]@, before_counts@));
    let n = reports.len();
    let mut parts: Vec<String> = Vec::new();
    let mut k: usize = 0;
    while k < n
        invariant
            n == reports@.len() == items.len(),
            k <= n,
            items == Seq::new(reports@.len(), |k: int| summary_item(reports@[k]@, before_counts@)),
            parts@.len() == k,
            string_views(parts@) == items.take(k as int),
        decreases n - k,
    {
        let r = &reports[k];
        let mut item = r.platform.clone();
        item.append(" ");
        match &r.status {
            SyncStatus::Succeeded => {
                let before = lookup_count(before_counts, r.platform.as_str());
                if r.game_count >= before {
                    item.append("+");
                    item.append(decimal_string((r.game_count - before) as u128).as_str());
                } else {
                    item.append("-");
                    item.append(decimal_string((before - r.game_count) as u128).as_str());
                }
            },
            SyncStatus::Skipped(_) => {
                item.append("skip");
            },
            SyncStatus::Error(_) => {
                item.append("error");
            },
        }
        proof {
            reveal_strlit(" ");
            reveal_strlit("+");
            reveal_strlit("-");
        }
        assert(item@ =~= items[k as int]);
        let ghost prev = parts@;
        parts.push(item);
        assert(string_views(parts@) =~= items.take(k + 1)) by {
            assert forall|q: int| 0 <= q < k + 1 implies #[trigger] string_views(parts@)[q]
                == items.take(k + 1)[q] by {
                if q < k {
                    assert(parts@[q] == prev[q]);
                    assert(string_views(prev)[q] == items.take(k as int)[q]);
                }
            }
        }
        k += 1;
    }
    assert(items.take(n as int) == items);
    let mut out = String::new();
    proof {
        reveal_strlit("  ");
    }
    push_joined(&mut out, &parts, "  ");
    assert(seq![' ', ' '] =~= "  "@);
    out
}

/// The marker cells before a row's name: the two markers and a blank.
pub open spec fn marker_cells(st: GameState) -> Seq<char> {
    crate::output::marker(st) + seq![' ']
}

/// The text of a row's marker cells.
pub fn marker_text(state: GameState) -> (r: String)
    ensures
        r@ == marker_cells(state),
{
    let mut r = crate::output::marker_field(state);
    push_char(&mut r, ' ');
    r
}

/// The status-row chip of a filter: its row glyph, if it has one, and its
/// name, padded by blanks.
pub open spec fn chip_text(filter: Filter) -> Seq<char> {
    match filter {
        Filter::Queued => seq![' ', QUEUED_GLYPH, ' '] + "queued"@ + seq![' '],
        Filter::Played => seq![' ', PLAYED_GLYPH, ' '] + "played"@ + seq![' '],
        Filter::All => seq![' '] + "all"@ + seq![' '],
        Filter::Unplayed => seq![' '] + "unplayed"@ + seq![' '],
    }
}

/// Renders the status-row filter chip, repeating the filter's row glyph so
/// cycling filters teaches the marker vocabulary.
pub fn filter_chip(filter: Filter) -> (r: String)
    ensures
        r@ == chip_text(filter),
{
    let mut r = String::new();
    push_char(&mut r, ' ');
    match filter.glyph() {
        Some(g) => {
            push_char(&mut r, g);
            push_char(&mut r, ' ');
        },
        None => {},
    }
    r.append(filter.label());
    push_char(&mut r, ' ');
    assert(r@ =~= chip_text(filter));
    r
}

/// The keybind hints for a filter, advertising reordering only where it works.
pub fn keybind_hint(filter: Filter) -> (r: &'static str)
    ensures
        r@ == if filter == Filter::Queued {
            "enter queue   ^p played   ^j/^k rank   tab filter"@
        } else {
            "enter queue   ^p played   tab filter"@
        },
{
    if filter == Filter::Queued {
        "enter queue   ^p played   ^j/^k rank   tab filter"
    } else {
        "enter queue   ^p played   tab filter"
    }
}

/// The first row shown when `visible_rows` fit and row `selected` must show.
pub fn scroll_offset(selected: usize, visible_rows: usize) -> (r: usize)
    requires
        selected < usize::MAX,
    ensures
        r == if selected >= visible_rows {
            selected - visible_rows + 1
        } else {
            0
        },
{
    if selected >= visible_rows {
        selected - visible_rows + 1
    } else {
        0
    }
}

/// The width of the name column: the widest name, capped to leave 13
/// columns of `available` for markers and platforms.
pub fn name_column_width(widest: usize, available: usize) -> (r: usize)
    ensures
        r == if available >= 13 && widest > available - 13 {
            (available - 13) as usize
        } else if available < 13 {
            0usize
        } else {
            widest
        },
{
    let cap = if available >= 13 { available - 13 } else { 0 };
    if widest < cap { widest } else { cap }
}

/// The blanks after a name of `name_len` chars in a name column `width`
/// chars wide: what fills the column, then the two that part it from the
/// platforms.
pub fn name_padding(name_len: usize, width: usize) -> (r: usize)
    requires
        width <= usize::MAX - 2,
    ensures
        r == (if width > name_len { width - name_len } else { 0 }) + 2,
{
    if width > name_len {
        width - name_len + 2
    } else {
        2
    }
}

/// The names of library entries.
pub open spec fn entry_names(lv: Seq<LibraryEntryView>) -> Seq<Seq<char>> {
    lv.map_values(|e: LibraryEntryView| e.name)
}

/// Every name is short enough for the matcher (at most `u32::MAX` chars).
pub open spec fn names_fit(lv: Seq<LibraryEntryView>) -> bool {
    forall|j: int| 0 <= j < lv.len() ==> (#[trigger] lv[j]).name.len() <= u32::MAX
}

/// The rows the view lists: the library narrowed by the filter, then
/// searched for the input and ranked.
pub open spec fn listed_rows(s: TuiView, lib: Seq<LibraryEntryView>, es: Seq<EntryView>) -> Seq<LibraryEntryView> {
    let f = filtered(lib, es, s.filter);
    ranking(s.input, entry_names(f)).map_values(|i: int| f[i])
}

/// The row the cursor is on: the selected row, or the last one when the
/// selection runs past it.
pub open spec fn clamped(selected: nat, rows: nat) -> nat {
    if selected < rows {
        selected
    } else {
        (rows - 1) as nat
    }
}

/// The first row whose game is named `name`.
pub open spec fn row_named(rows: Seq<LibraryEntryView>, name: Seq<char>) -> Option<int>
    decreases rows.len(),
{
    if rows.len() == 0 {
        None
    } else {
        match row_named(rows.drop_last(), name) {
            Some(i) => Some(i),
            None => if rows.last().name == name {
                Some(rows.len() - 1)
            } else {
                None
            },
        }
    }
}

/// The rows listed for `state`, each a copy of its library entry.
fn listed(state: &TuiState, games: &[LibraryEntry], queue: &Queue) -> (r: Vec<LibraryEntry>)
    requires
        names_fit(library_view(games@)),
    ensures
        library_view(r@) == listed_rows(state@, library_view(games@), queue@),
{
    let rows = apply_filter(games, queue, state.filter);
    let ghost f = filtered(library_view(games@), queue@, state.filter);
    proof {
        law_filtered_rows_come_from_library(library_view(games@), queue@, state.filter);
        assert forall|i: int| 0 <= i < rows@.len() implies (#[trigger] rows@[i]).title_view().len() <= u32::MAX by {
            assert(f[i] == rows@[i]@);
            let j = choose|j: int| 0 <= j < library_view(games@).len() && #[trigger] library_view(games@)[j] == f[i];
        }
        assert(titles_of(rows@) =~= entry_names(f));
    }
    let query = state.query();
    let found = fuzzy_search(query.as_str(), rows.as_slice());
    let ghost rk = ranking(query@, titles_of(rows@));
    assert forall|q: int| 0 <= q < rk.len() implies 0 <= #[trigger] rk[q] < f.len() by {
        assert(crate::search::kept(query@, titles_of(rows@), rk[q]));
    }
    let n = found.len();
    let mut r: Vec<LibraryEntry> = Vec::new();
    let mut k: usize = 0;
    while k < n
        invariant
            n == found@.len() == rk.len(),
            k <= n,
            f == library_view(rows@),
            rk == ranking(state@.input, entry_names(f)),
            forall|q: int| 0 <= q < n ==> *(#[trigger] found@[q]).game == rows@[rk[q]],
            forall|q: int| 0 <= q < rk.len() ==> 0 <= #[trigger] rk[q] < f.len(),
            r@.len() == k,
            library_view(r@) == rk.take(k as int).map_values(|i: int| f[i]),
        decreases n - k,
    {
        let ghost prev = r@;
        r.push(crate::copy_library_entry(found[k].game));
        proof {
            crate::lemma_library_view_push(prev, r@.last());
            assert(rk.take(k + 1).map_values(|i: int| f[i]) =~= rk.take(k as int).map_values(|i: int| f[i]).push(
                f[rk[k as int]],
            ));
        }
        k += 1;
    }
    assert(rk.take(n as int) == rk);
    r
}

/// Whether the view lists rows at all: not on the blank start screen, with
/// no input under the filter showing every game.
pub fn lists_rows(state: &TuiState) -> (r: bool)
    ensures
        r == !(state@.input.len() == 0 && state@.filter == Filter::All),
{
    !(state.input.len() == 0 && state.filter == Filter::All)
}

/// The row the cursor is on among `rows` rows: the selected one, or the
/// last when the selection runs past it.
pub fn clamp_selection(selected: usize, rows: usize) -> (r: usize)
    requires
        rows > 0,
    ensures
        r == clamped(selected as nat, rows as nat),
{
    if selected < rows {
        selected
    } else {
        rows - 1
    }
}

/// Some match position is `i`.
pub open spec fn matched_at(positions: Seq<u32>, i: int) -> bool {
    exists|q: int| 0 <= q < positions.len() && positions[q] as int == i
}

/// Which chars of a name of `len` chars to highlight: those whose position
/// is among the match positions.
pub fn highlight_mask(len: usize, positions: &[u32]) -> (r: Vec<bool>)
    ensures
        r@.len() == len,
        forall|i: int| 0 <= i < len ==> (#[trigger] r@[i] <==> matched_at(positions@, i)),
{
    let mut r: Vec<bool> = Vec::new();
    let mut i: usize = 0;
    while i < len
        invariant
            i <= len,
            r@.len() == i,
            forall|k: int| 0 <= k < i ==> (#[trigger] r@[k] <==> matched_at(positions@, k)),
        decreases len - i,
    {
        let mut hit = false;
        let mut j: usize = 0;
        while j < positions.len()
            invariant
                j <= positions@.len(),
                hit <==> exists|q: int| 0 <= q < j && positions@[q] as int == i,
            decreases positions@.len() - j,
        {
            if positions[j] as usize == i {
                hit = true;
            }
            proof {
                if exists|q: int| 0 <= q < j + 1 && positions@[q] as int == i {
                    let q = choose|q: int| 0 <= q < j + 1 && positions@[q] as int == i;
                    if q < j {
                        assert(exists|q: int| 0 <= q < j && positions@[q] as int == i);
                    }
                }
            }
            j += 1;
        }
        r.push(hit);
        i += 1;
    }
    r
}

/// The cursor's row and the name of its game, resolved against the rows the
/// view lists; `None` when it lists none.
pub fn selected_row(state: &TuiState, games: &[LibraryEntry], queue: &Queue) -> (r: Option<(usize, String)>)
    requires
        names_fit(library_view(games@)),
    ensures
        ({
            let rows = listed_rows(state@, library_view(games@), queue@);
            &&& r is None <==> rows.len() == 0
            &&& r matches Some((c, name)) ==> c == clamped(state@.selected, rows.len()) && name@ == rows[c as int].name
        }),
{
    let rows = listed(state, games, queue);
    if rows.len() == 0 {
        return None;
    }
    let c = if state.selected < rows.len() { state.selected } else { rows.len() - 1 };
    Some((c, rows[c].name.clone()))
}

/// The game under the cursor. The blank start screen (no input, every game)
/// lists no rows, so it has none either.
pub fn selected_game(state: &TuiState, games: &[LibraryEntry], queue: &Queue) -> (r: Option<String>)
    requires
        names_fit(library_view(games@)),
    ensures
        ({
            let rows = listed_rows(state@, library_view(games@), queue@);
            if state@.input.len() == 0 && state@.filter == Filter::All {
                r is None
            } else {
                &&& r is None <==> rows.len() == 0
                &&& r matches Some(name) ==> name@ == rows[clamped(state@.selected, rows.len()) as int].name
            }
        }),
{
    if state.input.len() == 0 && state.filter == Filter::All {
        return None;
    }
    match selected_row(state, games, queue) {
        Some((_, name)) => Some(name),
        None => None,
    }
}

/// Moves the selected game one rank later (`down`) or earlier, under the
/// queued filter only, and keeps the cursor on it: the cursor goes to the
/// game's row in the rows listed afterwards. Returns whether the queue
/// changed.
pub fn move_selected(state: &mut TuiState, queue: &mut Queue, games: &[LibraryEntry], down: bool) -> (changed: bool)
    requires
        names_fit(library_view(games@)),
    ensures
        final(state)@.input == old(state)@.input,
        final(state)@.cursor == old(state)@.cursor,
        final(state)@.filter == old(state)@.filter,
        final(queue).version == old(queue).version,
        ({
            let lib = library_view(games@);
            let rows = listed_rows(old(state)@, lib, old(queue)@);
            if old(state)@.filter != Filter::Queued || rows.len() == 0 {
                &&& !changed
                &&& final(state)@ == old(state)@
                &&& final(queue)@ == old(queue)@
            } else {
                let c = clamped(old(state)@.selected, rows.len());
                let name = rows[c as int].name;
                &&& changed == move_positions(old(queue)@, name, down) is Some
                &&& final(queue)@ == moved(old(queue)@, name, down)
                &&& final(state)@.selected == if !changed {
                    c
                } else {
                    match row_named(listed_rows(old(state)@, lib, final(queue)@), name) {
                        Some(i) => i as nat,
                        None => c,
                    }
                }
            }
        }),
{
    if state.filter != Filter::Queued {
        return false;
    }
    let (c, name) = match selected_row(state, games, queue) {
        Some(x) => x,
        None => {
            return false;
        },
    };
    state.selected = c;
    let changed = if down {
        queue.move_down(name.as_str())
    } else {
        queue.move_up(name.as_str())
    };
    if !changed {
        return false;
    }
    let rows = listed(state, games, queue);
    if let Some(i) = find_row(&rows, name.as_str()) {
        state.selected = i;
    }
    true
}

/// The first of `rows` whose game is named `name`.
fn find_row(rows: &Vec<LibraryEntry>, name: &str) -> (r: Option<usize>)
    ensures
        r matches Some(i) ==> row_named(library_view(rows@), name@) == Some(i as int),
        r is None ==> row_named(library_view(rows@), name@) is None,
{
    let ghost lv = library_view(rows@);
    let n = rows.len();
    let mut i: usize = 0;
    while i < n
        invariant
            n == rows@.len(),
            i <= n,
            lv == library_view(rows@),
            row_named(lv.take(i as int), name@) is None,
        decreases n - i,
    {
        assert(lv.take(i + 1).drop_last() == lv.take(i as int));
        assert(lv.take(i + 1).last() == lv[i as int]);
        if str_eq(rows[i].name.as_str(), name) {
            proof {
                lemma_row_named_prefix(lv, name@, i + 1);
            }
            return Some(i);
        }
        i += 1;
    }
    assert(lv.take(n as int) == lv);
    None
}

/// A row found among the first rows is found at the same place in all of them.
proof fn lemma_row_named_prefix(rows: Seq<LibraryEntryView>, name: Seq<char>, k: int)
    requires
        0 <= k <= rows.len(),
        row_named(rows.take(k), name) is Some,
    ensures
        row_named(rows, name) == row_named(rows.take(k), name),
    decreases rows.len() - k,
{
    if k < rows.len() {
        assert(rows.take(k + 1).drop_last() == rows.take(k));
        lemma_row_named_prefix(rows, name, k + 1);
    } else {
        assert(rows.take(k) == rows);
    }
}
} // verus!
