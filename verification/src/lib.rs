//! Game library search and play-queue logic.
//!
//! Games come from several launchers; the library merges them by a
//! normalized title key, ranks fuzzy matches, and keeps a per-game queue of
//! what to play next.

pub mod text;
pub mod queue;
pub mod queue_laws;
pub mod loader;
pub mod search;
pub mod output;
pub mod json;
pub mod sources;
pub mod sync;
pub mod clock;
pub mod config;
pub mod cache;
pub mod tui;

use vstd::prelude::*;

verus! {

/// A game entry from one launcher.
#[derive(Clone, Debug)]
pub struct Game {
    pub name: String,
    pub platform: String,
}

/// A game of the merged library, with every launcher that owns it.
#[derive(Clone, Debug)]
pub struct LibraryEntry {
    pub name: String,
    pub platforms: Vec<String>,
}

/// What a game entry holds, as mathematical values.
pub struct GameView {
    pub name: Seq<char>,
    pub platform: Seq<char>,
}

impl View for Game {
    type V = GameView;

    open spec fn view(&self) -> GameView {
        GameView { name: self.name@, platform: self.platform@ }
    }
}

/// The views of a list of games.
pub open spec fn game_views(gs: Seq<Game>) -> Seq<GameView> {
    gs.map_values(|g: Game| g@)
}

/// What a library entry holds, as mathematical values.
pub struct LibraryEntryView {
    pub name: Seq<char>,
    pub platforms: Seq<Seq<char>>,
}

impl View for LibraryEntry {
    type V = LibraryEntryView;

    open spec fn view(&self) -> LibraryEntryView {
        LibraryEntryView {
            name: self.name@,
            platforms: string_views(self.platforms@),
        }
    }
}

/// The char sequences of a list of strings.
pub open spec fn string_views(v: Seq<String>) -> Seq<Seq<char>> {
    v.map_values(|p: String| p@)
}

/// The views of a slice of library entries.
pub open spec fn library_view(lib: Seq<LibraryEntry>) -> Seq<LibraryEntryView> {
    lib.map_values(|e: LibraryEntry| e@)
}

/// A copy of `e`.
pub fn copy_library_entry(e: &LibraryEntry) -> (r: LibraryEntry)
    ensures
        r@ == e@,
{
    let mut platforms: Vec<String> = Vec::new();
    let n = e.platforms.len();
    let mut i: usize = 0;
    while i < n
        invariant
            n == e.platforms.len(),
            i <= n,
            platforms@.len() == i,
            string_views(platforms@) == string_views(e.platforms@.take(i as int)),
        decreases n - i,
    {
        let ghost prev = platforms@;
        platforms.push(e.platforms[i].clone());
        assert forall|k: int| 0 <= k < i + 1 implies #[trigger] string_views(platforms@)[k]
            == string_views(e.platforms@.take(i + 1))[k] by {
            if k < i {
                assert(string_views(prev)[k] == string_views(e.platforms@.take(i as int))[k]);
                assert(platforms@[k] == prev[k]);
            }
        }
        assert(string_views(platforms@) =~= string_views(e.platforms@.take(i + 1)));
        i += 1;
    }
    assert(e.platforms@.take(n as int) == e.platforms@);
    LibraryEntry { name: e.name.clone(), platforms }
}

/// The views of `s` with one more entry.
pub proof fn lemma_library_view_push(s: Seq<LibraryEntry>, x: LibraryEntry)
    ensures
        library_view(s.push(x)) == library_view(s).push(x@),
{
    let a = library_view(s.push(x));
    let b = library_view(s).push(x@);
    assert forall|k: int| 0 <= k < a.len() implies a[k] == b[k] by {
        if k < s.len() {
            assert(s.push(x)[k] == s[k]);
        }
    }
    assert(a =~= b);
}

/// The views of the first `k + 1` entries.
pub proof fn lemma_library_view_take(s: Seq<LibraryEntry>, k: int)
    requires
        0 <= k < s.len(),
    ensures
        library_view(s.take(k + 1)) == library_view(s.take(k)).push(s[k]@),
{
    assert(s.take(k + 1) == s.take(k).push(s[k]));
    lemma_library_view_push(s.take(k), s[k]);
}

} // verus!
