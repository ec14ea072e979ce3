//! Per-game queue state: which games are queued to play next, in what rank,
//! and which have been played.
//!
//! The order of `Queue::entries` is the queue rank: a game's rank is its
//! 1-based position among the entries whose `queued` flag is set.

use vstd::prelude::*;

use crate::text::{lowercase, str_eq, to_lowercase, trim, trimmed};
use crate::{
    copy_library_entry, lemma_library_view_push, lemma_library_view_take, library_view, LibraryEntry,
    LibraryEntryView,
};

verus! {

/// Schema version written into the queue file.
pub const QUEUE_VERSION: u32 = 1;

/// Row marker of a queued game.
pub const QUEUED_GLYPH: char = '\u{bb}';

/// Row marker of a played game.
pub const PLAYED_GLYPH: char = '\u{2713}';

/// Per-game queue state, stored in the order that defines queue rank.
#[derive(Clone, Debug, PartialEq, Eq)]
pub struct QueueEntry {
    /// Normalized match key, produced by `normalize_key`.
    pub key: String,
    /// Display name as first seen, kept so the file is readable on its own.
    pub name: String,
    pub queued: bool,
    pub played: bool,
}

/// The full set of per-game queue state, persisted as one file.
///
/// Entry order is the queue rank: a game's rank is its 1-based position among
/// the entries with `queued == true`.
#[derive(Clone, Debug)]
pub struct Queue {
    pub version: u32,
    pub entries: Vec<QueueEntry>,
}

/// Queue flags for a single game.
#[derive(Clone, Copy, Debug, Default, PartialEq, Eq)]
pub struct GameState {
    pub queued: bool,
    pub played: bool,
}

/// What an entry holds, as mathematical values.
pub struct EntryView {
    pub key: Seq<char>,
    pub name: Seq<char>,
    pub queued: bool,
    pub played: bool,
}

impl View for QueueEntry {
    type V = EntryView;

    open spec fn view(&self) -> EntryView {
        EntryView { key: self.key@, name: self.name@, queued: self.queued, played: self.played }
    }
}

impl View for Queue {
    type V = Seq<EntryView>;

    open spec fn view(&self) -> Seq<EntryView> {
        self.entries@.map_values(|e: QueueEntry| e@)
    }
}

/// The match key of a game name: trimmed, then lowercased.
pub open spec fn normalized(name: Seq<char>) -> Seq<char> {
    lowercase(trimmed(name))
}

/// Position of the first entry whose key is `key`.
pub open spec fn first_index(es: Seq<EntryView>, key: Seq<char>) -> Option<int>
    decreases es.len(),
{
    if es.len() == 0 {
        None
    } else if es[0].key == key {
        Some(0)
    } else {
        match first_index(es.drop_first(), key) {
            Some(i) => Some(i + 1),
            None => None,
        }
    }
}

/// The entries whose `queued` flag is set, in order.
pub open spec fn queued_entries(es: Seq<EntryView>) -> Seq<EntryView>
    decreases es.len(),
{
    if es.len() == 0 {
        Seq::empty()
    } else if es.last().queued {
        queued_entries(es.drop_last()).push(es.last())
    } else {
        queued_entries(es.drop_last())
    }
}

/// Flags of the game with key `key`: those of its first entry, all false
/// when it has none.
pub open spec fn state_of(es: Seq<EntryView>, key: Seq<char>) -> GameState {
    match first_index(es, key) {
        Some(i) => GameState { queued: es[i].queued, played: es[i].played },
        None => GameState { queued: false, played: false },
    }
}

/// The 1-based rank of the first queued entry with key `key`.
pub open spec fn rank_of(es: Seq<EntryView>, key: Seq<char>) -> Option<int> {
    match first_index(queued_entries(es), key) {
        Some(p) => Some(p + 1),
        None => None,
    }
}

/// No two entries share a key. Every operation of `Queue` keeps this.
pub open spec fn keys_unique(es: Seq<EntryView>) -> bool {
    forall|i: int, j: int| 0 <= i < j < es.len() ==> es[i].key != es[j].key
}

/// The entries after `toggle_queued(name)`.
pub open spec fn toggled_queued(es: Seq<EntryView>, name: Seq<char>) -> Seq<EntryView> {
    let key = normalized(name);
    match first_index(es, key) {
        Some(i) => if es[i].queued {
            es.update(i, EntryView { queued: false, ..es[i] })
        } else {
            es.remove(i).push(EntryView { queued: true, ..es[i] })
        },
        None => es.push(EntryView { key, name: trimmed(name), queued: true, played: false }),
    }
}

/// The entries after `toggle_played(name)`.
pub open spec fn toggled_played(es: Seq<EntryView>, name: Seq<char>) -> Seq<EntryView> {
    let key = normalized(name);
    match first_index(es, key) {
        Some(i) => es.update(i, EntryView { played: !es[i].played, ..es[i] }),
        None => es.push(EntryView { key, name: trimmed(name), queued: false, played: true }),
    }
}

/// `j` is the first queued position after `i`.
pub open spec fn is_next_queued(es: Seq<EntryView>, i: int, j: int) -> bool {
    &&& i < j < es.len()
    &&& es[j].queued
    &&& forall|k: int| i < k < j ==> !#[trigger] es[k].queued
}

/// `j` is the last queued position before `i`.
pub open spec fn is_prev_queued(es: Seq<EntryView>, i: int, j: int) -> bool {
    &&& 0 <= j < i
    &&& es[j].queued
    &&& forall|k: int| j < k < i ==> !#[trigger] es[k].queued
}

/// The queued neighbour of position `i`: the next one when `forward`, else
/// the previous one.
pub open spec fn neighbor(es: Seq<EntryView>, i: int, forward: bool) -> Option<int> {
    if forward {
        if exists|j: int| is_next_queued(es, i, j) {
            Some(choose|j: int| is_next_queued(es, i, j))
        } else {
            None
        }
    } else {
        if exists|j: int| is_prev_queued(es, i, j) {
            Some(choose|j: int| is_prev_queued(es, i, j))
        } else {
            None
        }
    }
}

/// `es` with positions `i` and `j` exchanged.
pub open spec fn swapped(es: Seq<EntryView>, i: int, j: int) -> Seq<EntryView> {
    es.update(i, es[j]).update(j, es[i])
}

/// Where a queued game named `name` swaps to when moved one rank later
/// (`forward`) or earlier: its own position and its queued neighbour's, when
/// the move is possible.
pub open spec fn move_positions(es: Seq<EntryView>, name: Seq<char>, forward: bool) -> Option<(int, int)> {
    match first_index(es, normalized(name)) {
        Some(i) => if es[i].queued {
            match neighbor(es, i, forward) {
                Some(j) => Some((i, j)),
                None => None,
            }
        } else {
            None
        },
        None => None,
    }
}

/// The entries after a move of `name` one rank later (`forward`) or earlier.
pub open spec fn moved(es: Seq<EntryView>, name: Seq<char>, forward: bool) -> Seq<EntryView> {
    match move_positions(es, name, forward) {
        Some((i, j)) => swapped(es, i, j),
        None => es,
    }
}

/// The entries that saving keeps: those with a flag set.
pub open spec fn live_entries(es: Seq<EntryView>) -> Seq<EntryView>
    decreases es.len(),
{
    if es.len() == 0 {
        Seq::empty()
    } else if es.last().queued || es.last().played {
        live_entries(es.drop_last()).push(es.last())
    } else {
        live_entries(es.drop_last())
    }
}

/// The library entries whose game has key `key`, in library order.
pub open spec fn entries_with_key(lib: Seq<LibraryEntryView>, key: Seq<char>) -> Seq<LibraryEntryView>
    decreases lib.len(),
{
    if lib.len() == 0 {
        Seq::empty()
    } else if normalized(lib.last().name) == key {
        entries_with_key(lib.drop_last(), key).push(lib.last())
    } else {
        entries_with_key(lib.drop_last(), key)
    }
}

/// The library entries that hold a rank, ordered by it: for each queued entry
/// (the first of its key), the library entries with that key.
pub open spec fn ranked_entries(lib: Seq<LibraryEntryView>, qs: Seq<EntryView>) -> Seq<LibraryEntryView>
    decreases qs.len(),
{
    if qs.len() == 0 {
        Seq::empty()
    } else {
        let earlier = ranked_entries(lib, qs.drop_last());
        if first_index(qs.drop_last(), qs.last().key) is None {
            earlier + entries_with_key(lib, qs.last().key)
        } else {
            earlier
        }
    }
}

/// The library entries whose played flag equals `played`, in library order.
pub open spec fn entries_played(lib: Seq<LibraryEntryView>, es: Seq<EntryView>, played: bool) -> Seq<
    LibraryEntryView,
>
    decreases lib.len(),
{
    if lib.len() == 0 {
        Seq::empty()
    } else if state_of(es, normalized(lib.last().name)).played == played {
        entries_played(lib.drop_last(), es, played).push(lib.last())
    } else {
        entries_played(lib.drop_last(), es, played)
    }
}

/// The rows a filter shows.
pub open spec fn filtered(lib: Seq<LibraryEntryView>, es: Seq<EntryView>, filter: Filter) -> Seq<
    LibraryEntryView,
> {
    match filter {
        Filter::All => lib,
        Filter::Queued => ranked_entries(lib, queued_entries(es)),
        Filter::Played => entries_played(lib, es, true),
        Filter::Unplayed => entries_played(lib, es, false),
    }
}

/// Which games a list shows.
#[derive(Clone, Copy, Debug, Default, PartialEq, Eq, Structural)]
pub enum Filter {
    /// Every game.
    #[default]
    All,
    /// Queued games, in rank order.
    Queued,
    /// Played games.
    Played,
    /// Games not yet played.
    Unplayed,
}

impl Filter {
    /// The filter after this one.
    pub open spec fn next_spec(self) -> Filter {
        match self {
            Filter::All => Filter::Queued,
            Filter::Queued => Filter::Played,
            Filter::Played => Filter::Unplayed,
            Filter::Unplayed => Filter::All,
        }
    }

    /// The filter before this one.
    pub open spec fn prev_spec(self) -> Filter {
        match self {
            Filter::All => Filter::Unplayed,
            Filter::Queued => Filter::All,
            Filter::Played => Filter::Queued,
            Filter::Unplayed => Filter::Played,
        }
    }

    /// The filter after this one in the cycle all, queued, played, unplayed.
    pub fn next(self) -> (r: Filter)
        ensures
            r == self.next_spec(),
    {
        match self {
            Filter::All => Filter::Queued,
            Filter::Queued => Filter::Played,
            Filter::Played => Filter::Unplayed,
            Filter::Unplayed => Filter::All,
        }
    }

    /// The filter before this one in the cycle all, queued, played, unplayed.
    pub fn prev(self) -> (r: Filter)
        ensures
            r == self.prev_spec(),
    {
        match self {
            Filter::All => Filter::Unplayed,
            Filter::Queued => Filter::All,
            Filter::Played => Filter::Queued,
            Filter::Unplayed => Filter::Played,
        }
    }

    /// Stepping back undoes stepping forward, and four steps forward come
    /// back to where they started: the filters form one cycle.
    pub proof fn law_filter_cycle(self)
        ensures
            self.next_spec().prev_spec() == self,
            self.prev_spec().next_spec() == self,
            self.next_spec().next_spec().next_spec().next_spec() == self,
    {
    }

    /// The row glyph this filter selects by, if any.
    pub fn glyph(self) -> (r: Option<char>)
        ensures
            r == (match self {
                Filter::Queued => Some(QUEUED_GLYPH),
                Filter::Played => Some(PLAYED_GLYPH),
                _ => None::<char>,
            }),
    {
        match self {
            Filter::Queued => Some(QUEUED_GLYPH),
            Filter::Played => Some(PLAYED_GLYPH),
            _ => None,
        }
    }

    /// The filter's name as the status row shows it.
    pub fn label(self) -> (r: &'static str)
        ensures
            r@ == (match self {
                Filter::All => "all"@,
                Filter::Queued => "queued"@,
                Filter::Played => "played"@,
                Filter::Unplayed => "unplayed"@,
            }),
    {
        match self {
            Filter::All => "all",
            Filter::Queued => "queued",
            Filter::Played => "played",
            Filter::Unplayed => "unplayed",
        }
    }
}

/// Normalizes a game name into the match key used to look up queue state.
///
/// The loader's deduplication uses the same key, so state survives re-syncs
/// and casing changes.
pub fn normalize_key(name: &str) -> (r: String)
    ensures
        r@ == normalized(name@),
{
    let t = trim(name);
    to_lowercase(t.as_str())
}

/// `first_index` finds position `i` when `key` is there and nowhere before.
pub proof fn lemma_first_index_found(es: Seq<EntryView>, key: Seq<char>, i: int)
    requires
        0 <= i < es.len(),
        es[i].key == key,
        forall|j: int| 0 <= j < i ==> es[j].key != key,
    ensures
        first_index(es, key) == Some(i),
    decreases i,
{
    if i > 0 {
        let t = es.drop_first();
        assert forall|j: int| 0 <= j < i - 1 implies t[j].key != key by {
            assert(t[j] == es[j + 1]);
        }
        lemma_first_index_found(t, key, i - 1);
    }
}

/// `first_index` finds nothing when no entry holds `key`.
pub proof fn lemma_first_index_absent(es: Seq<EntryView>, key: Seq<char>)
    requires
        forall|j: int| 0 <= j < es.len() ==> es[j].key != key,
    ensures
        first_index(es, key) == None::<int>,
    decreases es.len(),
{
    if es.len() > 0 {
        let t = es.drop_first();
        assert forall|j: int| 0 <= j < t.len() implies t[j].key != key by {
            assert(t[j] == es[j + 1]);
        }
        lemma_first_index_absent(t, key);
    }
}

/// What `first_index` returns: the first position holding `key`.
pub proof fn lemma_first_index_spec(es: Seq<EntryView>, key: Seq<char>)
    ensures
        match first_index(es, key) {
            Some(i) => 0 <= i < es.len() && es[i].key == key && forall|j: int|
                0 <= j < i ==> es[j].key != key,
            None => forall|j: int| 0 <= j < es.len() ==> es[j].key != key,
        },
    decreases es.len(),
{
    if es.len() > 0 {
        let t = es.drop_first();
        lemma_first_index_spec(t, key);
        if es[0].key != key {
            assert forall|j: int| 0 < j < es.len() && !(t[j - 1].key != key) implies !(es[j].key
                != key) by {
                assert(es[j] == t[j - 1]);
            }
            assert forall|j: int| 0 < j < es.len() && t[j - 1].key != key implies es[j].key
                != key by {
                assert(es[j] == t[j - 1]);
            }
        }
    }
}

/// `first_index` of a sequence with one more entry at its end.
pub proof fn lemma_first_index_push(es: Seq<EntryView>, x: EntryView, key: Seq<char>)
    ensures
        first_index(es.push(x), key) == (match first_index(es, key) {
            Some(i) => Some(i),
            None => if x.key == key {
                Some(es.len() as int)
            } else {
                None
            },
        }),
{
    let s = es.push(x);
    lemma_first_index_spec(es, key);
    match first_index(es, key) {
        Some(i) => {
            assert(s[i] == es[i]);
            lemma_first_index_found(s, key, i);
        },
        None => {
            if x.key == key {
                lemma_first_index_found(s, key, es.len() as int);
            } else {
                assert forall|j: int| 0 <= j < s.len() implies s[j].key != key by {
                    if j < es.len() {
                        assert(s[j] == es[j]);
                    }
                }
                lemma_first_index_absent(s, key);
            }
        },
    }
}

/// The queued entries of a prefix one entry longer.
pub proof fn lemma_queued_entries_step(es: Seq<EntryView>, i: int)
    requires
        0 <= i < es.len(),
    ensures
        queued_entries(es.take(i + 1)) == (if es[i].queued {
            queued_entries(es.take(i)).push(es[i])
        } else {
            queued_entries(es.take(i))
        }),
{
    assert(es.take(i + 1).drop_last() == es.take(i));
    assert(es.take(i + 1).last() == es[i]);
}

proof fn lemma_queued_entries_len(es: Seq<EntryView>)
    ensures
        queued_entries(es).len() <= es.len(),
    decreases es.len(),
{
    if es.len() > 0 {
        lemma_queued_entries_len(es.drop_last());
    }
}

/// The entries queued among the first `i` form a prefix of all queued entries.
proof fn lemma_queued_prefix(es: Seq<EntryView>, i: int)
    requires
        0 <= i <= es.len(),
    ensures
        queued_entries(es.take(i)).len() <= queued_entries(es).len(),
        queued_entries(es).take(queued_entries(es.take(i)).len() as int) == queued_entries(es.take(i)),
    decreases es.len() - i,
{
    if i == es.len() {
        assert(es.take(i) == es);
        assert(queued_entries(es).take(queued_entries(es).len() as int) == queued_entries(es));
    } else {
        lemma_queued_prefix(es, i + 1);
        lemma_queued_entries_step(es, i);
        let a = queued_entries(es.take(i));
        let b = queued_entries(es.take(i + 1));
        let c = queued_entries(es);
        assert(c.take(a.len() as int) == c.take(b.len() as int).take(a.len() as int));
        assert(b.take(a.len() as int) == a);
    }
}

/// A key found in `s` is found at the same place in any extension of `s`.
proof fn lemma_first_index_prefix(s: Seq<EntryView>, t: Seq<EntryView>, key: Seq<char>)
    requires
        s.len() <= t.len(),
        t.take(s.len() as int) == s,
        first_index(s, key) is Some,
    ensures
        first_index(t, key) == first_index(s, key),
{
    lemma_first_index_spec(s, key);
    let i = first_index(s, key)->0;
    assert(t[i] == s[i]);
    assert forall|j: int| 0 <= j < i implies t[j].key != key by {
        assert(t[j] == s[j]);
    }
    lemma_first_index_found(t, key, i);
}

/// Exchanges `v[i]` and `v[j]`.
fn swap_entries(v: &mut Vec<QueueEntry>, i: usize, j: usize)
    requires
        i < j < old(v).len(),
    ensures
        final(v)@ == old(v)@.update(i as int, old(v)@[j as int]).update(j as int, old(v)@[i as int]),
{
    let ej = v.remove(j);
    let ei = v.remove(i);
    v.insert(i, ej);
    v.insert(j, ei);
    assert(v@ =~= old(v)@.update(i as int, old(v)@[j as int]).update(j as int, old(v)@[i as int]));
}

impl Queue {
    /// An empty queue at the current schema version.
    pub fn new() -> (q: Queue)
        ensures
            q.version == QUEUE_VERSION,
            q@ == Seq::<EntryView>::empty(),
    {
        Queue { version: QUEUE_VERSION, entries: Vec::new() }
    }

    /// Position of the first entry whose key is `key`.
    fn index_of(&self, key: &str) -> (r: Option<usize>)
        ensures
            r matches Some(i) ==> first_index(self@, key@) == Some(i as int) && i
                < self.entries.len(),
            r is None ==> first_index(self@, key@) is None,
    {
        let n = self.entries.len();
        let mut i: usize = 0;
        while i < n
            invariant
                n == self.entries.len(),
                i <= n,
                forall|j: int| 0 <= j < i ==> self@[j].key != key@,
            decreases n - i,
        {
            if str_eq(self.entries[i].key.as_str(), key) {
                proof {
                    lemma_first_index_found(self@, key@, i as int);
                }
                return Some(i);
            }
            i += 1;
        }
        proof {
            lemma_first_index_absent(self@, key@);
        }
        None
    }

    /// Returns the queue flags for `name`, defaulting to all-false when absent.
    pub fn state(&self, name: &str) -> (r: GameState)
        ensures
            r == state_of(self@, normalized(name@)),
    {
        let key = normalize_key(name);
        match self.index_of(key.as_str()) {
            Some(i) => GameState { queued: self.entries[i].queued, played: self.entries[i].played },
            None => GameState { queued: false, played: false },
        }
    }

    /// Returns the 1-based rank of a queued game, or `None` if it is not queued.
    pub fn rank(&self, name: &str) -> (r: Option<usize>)
        ensures
            r matches Some(k) ==> rank_of(self@, normalized(name@)) == Some(k as int),
            r is None ==> rank_of(self@, normalized(name@)) is None,
    {
        let key = normalize_key(name);
        let n = self.entries.len();
        let mut count: usize = 0;
        let mut i: usize = 0;
        while i < n
            invariant
                n == self.entries.len(),
                i <= n,
                key@ == normalized(name@),
                count as int == queued_entries(self@.take(i as int)).len(),
                count <= i,
                first_index(queued_entries(self@.take(i as int)), key@) is None,
            decreases n - i,
        {
            proof {
                lemma_queued_entries_step(self@, i as int);
                lemma_first_index_push(queued_entries(self@.take(i as int)), self@[i as int], key@);
            }
            if self.entries[i].queued {
                if str_eq(self.entries[i].key.as_str(), key.as_str()) {
                    proof {
                        lemma_queued_prefix(self@, i + 1);
                        lemma_first_index_prefix(
                            queued_entries(self@.take(i + 1)),
                            queued_entries(self@),
                            key@,
                        );
                    }
                    return Some(count + 1);
                }
                count += 1;
            }
            i += 1;
        }
        assert(self@.take(n as int) == self@);
        None
    }

    /// Returns the display names of queued games in rank order.
    pub fn queued_names(&self) -> (r: Vec<&str>)
        ensures
            r@.len() == queued_entries(self@).len(),
            forall|k: int| 0 <= k < r@.len() ==> (#[trigger] r@[k])@ == queued_entries(self@)[k].name,
    {
        let n = self.entries.len();
        let mut r: Vec<&str> = Vec::new();
        let mut i: usize = 0;
        while i < n
            invariant
                n == self.entries.len(),
                i <= n,
                r@.len() == queued_entries(self@.take(i as int)).len(),
                forall|k: int| 0 <= k < r@.len() ==> (#[trigger] r@[k])@ == queued_entries(self@.take(i as int))[k].name,
            decreases n - i,
        {
            proof {
                lemma_queued_entries_step(self@, i as int);
            }
            if self.entries[i].queued {
                r.push(self.entries[i].name.as_str());
            }
            i += 1;
        }
        assert(self@.take(n as int) == self@);
        r
    }

    /// Toggles the queued flag, appending newly queued games to the end of the
    /// queue so they take the last rank.
    pub fn toggle_queued(&mut self, name: &str)
        ensures
            final(self)@ == toggled_queued(old(self)@, name@),
            final(self).version == old(self).version,
    {
        let key = normalize_key(name);
        match self.index_of(key.as_str()) {
            Some(idx) => {
                if self.entries[idx].queued {
                    self.entries[idx].queued = false;
                    assert(self@ =~= toggled_queued(old(self)@, name@));
                } else {
                    let mut entry = self.entries.remove(idx);
                    entry.queued = true;
                    self.entries.push(entry);
                    assert(self@ =~= toggled_queued(old(self)@, name@));
                }
            },
            None => {
                let display = trim(name);
                self.entries.push(QueueEntry { key, name: display, queued: true, played: false });
                assert(self@ =~= toggled_queued(old(self)@, name@));
            },
        }
    }

    /// Toggles the played flag, leaving queue membership and rank untouched.
    pub fn toggle_played(&mut self, name: &str)
        ensures
            final(self)@ == toggled_played(old(self)@, name@),
            final(self).version == old(self).version,
    {
        let key = normalize_key(name);
        match self.index_of(key.as_str()) {
            Some(idx) => {
                let p = self.entries[idx].played;
                self.entries[idx].played = !p;
                assert(self@ =~= toggled_played(old(self)@, name@));
            },
            None => {
                let display = trim(name);
                self.entries.push(QueueEntry { key, name: display, queued: false, played: true });
                assert(self@ =~= toggled_played(old(self)@, name@));
            },
        }
    }

    /// Moves a queued game one rank later. Returns `false` if it is already last
    /// or is not queued.
    pub fn move_down(&mut self, name: &str) -> (r: bool)
        ensures
            r == move_positions(old(self)@, name@, true) is Some,
            final(self)@ == moved(old(self)@, name@, true),
            final(self).version == old(self).version,
    {
        self.swap_with_neighbor(name, true)
    }

    /// Moves a queued game one rank earlier. Returns `false` if it is already
    /// first or is not queued.
    pub fn move_up(&mut self, name: &str) -> (r: bool)
        ensures
            r == move_positions(old(self)@, name@, false) is Some,
            final(self)@ == moved(old(self)@, name@, false),
            final(self).version == old(self).version,
    {
        self.swap_with_neighbor(name, false)
    }

    /// Swaps a queued entry with the nearest queued entry after (or before) it.
    ///
    /// Played-only entries are skipped: they occupy positions in `entries` but
    /// hold no rank, so swapping across them would leave rank order unchanged.
    fn swap_with_neighbor(&mut self, name: &str, forward: bool) -> (r: bool)
        ensures
            r == move_positions(old(self)@, name@, forward) is Some,
            final(self)@ == moved(old(self)@, name@, forward),
            final(self).version == old(self).version,
    {
        let key = normalize_key(name);
        let idx = match self.index_of(key.as_str()) {
            Some(i) => i,
            None => {
                return false;
            },
        };
        if !self.entries[idx].queued {
            return false;
        }
        let n = self.entries.len();
        let ghost es = self@;
        let mut found: Option<usize> = None;
        if forward {
            let mut j = idx + 1;
            while j < n
                invariant_except_break
                    found is None,
                invariant
                    es == self@,
                    n == self.entries.len(),
                    idx < j <= n,
                    forall|k: int| idx < k < j ==> !#[trigger] es[k].queued,
                ensures
                    found matches Some(f) ==> is_next_queued(es, idx as int, f as int),
                    found is None ==> forall|k: int| idx < k < n ==> !#[trigger] es[k].queued,
                decreases n - j,
            {
                if self.entries[j].queued {
                    found = Some(j);
                    break;
                }
                j += 1;
            }
            proof {
                match found {
                    Some(j) => {
                        assert(is_next_queued(es, idx as int, j as int));
                        let c = choose|c: int| is_next_queued(es, idx as int, c);
                        if c < j {
                            assert(!es[c].queued);
                        }
                        if j < c {
                            assert(!es[j as int].queued);
                        }
                    },
                    None => {
                        assert forall|c: int| !is_next_queued(es, idx as int, c) by {
                            if idx < c < n {
                                assert(!es[c].queued);
                            }
                        }
                    },
                }
            }
        } else {
            let mut j = idx;
            while j > 0
                invariant_except_break
                    found is None,
                invariant
                    es == self@,
                    n == self.entries.len(),
                    j <= idx < n,
                    forall|k: int| j <= k < idx ==> !#[trigger] es[k].queued,
                ensures
                    found matches Some(f) ==> is_prev_queued(es, idx as int, f as int),
                    found is None ==> forall|k: int| 0 <= k < idx ==> !#[trigger] es[k].queued,
                decreases j,
            {
                if self.entries[j - 1].queued {
                    found = Some(j - 1);
                    break;
                }
                j -= 1;
            }
            proof {
                match found {
                    Some(j) => {
                        assert(is_prev_queued(es, idx as int, j as int));
                        let c = choose|c: int| is_prev_queued(es, idx as int, c);
                        if c < j {
                            assert(!es[j as int].queued);
                        }
                        if j < c {
                            assert(!es[c].queued);
                        }
                    },
                    None => {
                        assert forall|c: int| !is_prev_queued(es, idx as int, c) by {
                            if 0 <= c < idx {
                                assert(!es[c].queued);
                            }
                        }
                    },
                }
            }
        }
        match found {
            None => false,
            Some(j) => {
                if idx < j {
                    swap_entries(&mut self.entries, idx, j);
                } else {
                    swap_entries(&mut self.entries, j, idx);
                }
                assert(self@ =~= swapped(es, idx as int, j as int));
                true
            },
        }
    }
}


impl Default for Queue {
    /// An empty queue at the current schema version.
    fn default() -> (q: Self)
        ensures
            q.version == QUEUE_VERSION,
            q@ == Seq::<EntryView>::empty(),
    {
        Queue::new()
    }
}

/// A copy of `e`.
fn copy_entry(e: &QueueEntry) -> (r: QueueEntry)
    ensures
        r@ == e@,
{
    QueueEntry { key: e.key.clone(), name: e.name.clone(), queued: e.queued, played: e.played }
}

proof fn lemma_live_entries_step(es: Seq<EntryView>, i: int)
    requires
        0 <= i < es.len(),
    ensures
        live_entries(es.take(i + 1)) == (if es[i].queued || es[i].played {
            live_entries(es.take(i)).push(es[i])
        } else {
            live_entries(es.take(i))
        }),
{
    assert(es.take(i + 1).drop_last() == es.take(i));
    assert(es.take(i + 1).last() == es[i]);
}

impl Queue {
    /// The queue as it is saved: at the current schema version, without the
    /// entries whose flags are all cleared.
    pub fn pruned(&self) -> (q: Queue)
        ensures
            q.version == QUEUE_VERSION,
            q@ == live_entries(self@),
    {
        let n = self.entries.len();
        let mut entries: Vec<QueueEntry> = Vec::new();
        let mut i: usize = 0;
        while i < n
            invariant
                n == self.entries.len(),
                i <= n,
                entries@.map_values(|e: QueueEntry| e@) == live_entries(self@.take(i as int)),
            decreases n - i,
        {
            proof {
                lemma_live_entries_step(self@, i as int);
            }
            if self.entries[i].queued || self.entries[i].played {
                let e = copy_entry(&self.entries[i]);
                entries.push(e);
                assert(entries@.map_values(|e: QueueEntry| e@) =~= live_entries(self@.take(i + 1)));
            }
            i += 1;
        }
        assert(self@.take(n as int) == self@);
        Queue { version: QUEUE_VERSION, entries }
    }
}


proof fn lemma_entries_with_key_step(lib: Seq<LibraryEntryView>, key: Seq<char>, k: int)
    requires
        0 <= k < lib.len(),
    ensures
        entries_with_key(lib.take(k + 1), key) == (if normalized(lib[k].name) == key {
            entries_with_key(lib.take(k), key).push(lib[k])
        } else {
            entries_with_key(lib.take(k), key)
        }),
{
    assert(lib.take(k + 1).drop_last() == lib.take(k));
    assert(lib.take(k + 1).last() == lib[k]);
}

proof fn lemma_entries_played_step(lib: Seq<LibraryEntryView>, es: Seq<EntryView>, played: bool, k: int)
    requires
        0 <= k < lib.len(),
    ensures
        entries_played(lib.take(k + 1), es, played) == (if state_of(es, normalized(lib[k].name)).played
            == played {
            entries_played(lib.take(k), es, played).push(lib[k])
        } else {
            entries_played(lib.take(k), es, played)
        }),
{
    assert(lib.take(k + 1).drop_last() == lib.take(k));
    assert(lib.take(k + 1).last() == lib[k]);
}


/// Copies of all entries of `lib`.
fn copy_library(lib: &[LibraryEntry]) -> (r: Vec<LibraryEntry>)
    ensures
        library_view(r@) == library_view(lib@),
{
    let n = lib.len();
    let mut r: Vec<LibraryEntry> = Vec::new();
    let mut k: usize = 0;
    while k < n
        invariant
            n == lib@.len(),
            k <= n,
            library_view(r@) == library_view(lib@.take(k as int)),
        decreases n - k,
    {
        let ghost prev = r@;
        r.push(copy_library_entry(&lib[k]));
        proof {
            lemma_library_view_push(prev, r@.last());
            lemma_library_view_take(lib@, k as int);
        }
        k += 1;
    }
    assert(lib@.take(n as int) == lib@);
    r
}

/// The match keys of the names in `lib`.
fn library_keys(lib: &[LibraryEntry]) -> (keys: Vec<String>)
    ensures
        keys@.len() == lib@.len(),
        forall|k: int| 0 <= k < lib@.len() ==> (#[trigger] keys@[k])@ == normalized(lib@[k].name@),
{
    let n = lib.len();
    let mut keys: Vec<String> = Vec::new();
    let mut k: usize = 0;
    while k < n
        invariant
            n == lib@.len(),
            k <= n,
            keys@.len() == k,
            forall|j: int| 0 <= j < k ==> (#[trigger] keys@[j])@ == normalized(lib@[j].name@),
        decreases n - k,
    {
        keys.push(normalize_key(lib[k].name.as_str()));
        k += 1;
    }
    keys
}

/// Appends copies of the entries of `lib` whose key is `key`.
fn push_entries_with_key(out: &mut Vec<LibraryEntry>, lib: &[LibraryEntry], keys: &Vec<String>, key: &str)
    requires
        keys@.len() == lib@.len(),
        forall|k: int| 0 <= k < lib@.len() ==> (#[trigger] keys@[k])@ == normalized(lib@[k].name@),
    ensures
        library_view(final(out)@) == library_view(old(out)@) + entries_with_key(library_view(lib@), key@),
{
    let ghost lv = library_view(lib@);
    let ghost start = library_view(out@);
    let n = lib.len();
    let mut k: usize = 0;
    while k < n
        invariant
            n == lib@.len() == keys@.len(),
            k <= n,
            lv == library_view(lib@),
            forall|j: int| 0 <= j < lib@.len() ==> (#[trigger] keys@[j])@ == normalized(lib@[j].name@),
            library_view(out@) == start + entries_with_key(lv.take(k as int), key@),
        decreases n - k,
    {
        proof {
            lemma_entries_with_key_step(lv, key@, k as int);
        }
        if str_eq(keys[k].as_str(), key) {
            let ghost prev = out@;
            out.push(copy_library_entry(&lib[k]));
            proof {
                lemma_library_view_push(prev, out@.last());
            }
        }
        assert(library_view(out@) =~= start + entries_with_key(lv.take(k + 1), key@));
        k += 1;
    }
    assert(lv.take(n as int) == lv);
}

/// Whether a queued entry before position `i` has key `key`.
fn queued_key_before(queue: &Queue, i: usize, key: &str) -> (r: bool)
    requires
        i <= queue.entries.len(),
    ensures
        r == first_index(queued_entries(queue@.take(i as int)), key@) is Some,
{
    let mut j: usize = 0;
    while j < i
        invariant
            i <= queue.entries.len(),
            j <= i,
            first_index(queued_entries(queue@.take(j as int)), key@) is None,
        decreases i - j,
    {
        proof {
            lemma_queued_entries_step(queue@, j as int);
            lemma_first_index_push(queued_entries(queue@.take(j as int)), queue@[j as int], key@);
        }
        if queue.entries[j].queued && str_eq(queue.entries[j].key.as_str(), key) {
            proof {
                lemma_queued_prefix(queue@.take(i as int), j + 1);
                assert(queue@.take(i as int).take(j + 1) == queue@.take(j + 1));
                lemma_first_index_prefix(
                    queued_entries(queue@.take(j + 1)),
                    queued_entries(queue@.take(i as int)),
                    key@,
                );
            }
            return true;
        }
        j += 1;
    }
    false
}

/// The library narrowed to `filter`, in the order it renders: queued games
/// in rank order, every other filter in library order.
pub fn apply_filter(library: &[LibraryEntry], queue: &Queue, filter: Filter) -> (r: Vec<LibraryEntry>)
    ensures
        library_view(r@) == filtered(library_view(library@), queue@, filter),
{
    let ghost lv = library_view(library@);
    match filter {
        Filter::All => copy_library(library),
        Filter::Played | Filter::Unplayed => {
            let want = filter == Filter::Played;
            let n = library.len();
            let mut r: Vec<LibraryEntry> = Vec::new();
            let mut k: usize = 0;
            while k < n
                invariant
                    n == library@.len(),
                    k <= n,
                    lv == library_view(library@),
                    library_view(r@) == entries_played(lv.take(k as int), queue@, want),
                decreases n - k,
            {
                proof {
                    lemma_entries_played_step(lv, queue@, want, k as int);
                }
                let st = queue.state(library[k].name.as_str());
                if st.played == want {
                    let ghost prev = r@;
                    r.push(copy_library_entry(&library[k]));
                    proof {
                        lemma_library_view_push(prev, r@.last());
                    }
                }
                assert(library_view(r@) =~= entries_played(lv.take(k + 1), queue@, want));
                k += 1;
            }
            assert(lv.take(n as int) == lv);
            r
        },
        Filter::Queued => {
            let keys = library_keys(library);
            let n = queue.entries.len();
            let mut r: Vec<LibraryEntry> = Vec::new();
            let mut i: usize = 0;
            while i < n
                invariant
                    n == queue.entries.len(),
                    i <= n,
                    lv == library_view(library@),
                    keys@.len() == library@.len(),
                    forall|k: int| 0 <= k < library@.len() ==> (#[trigger] keys@[k])@ == normalized(library@[k].name@),
                    library_view(r@) == ranked_entries(lv, queued_entries(queue@.take(i as int))),
                decreases n - i,
            {
                proof {
                    lemma_queued_entries_step(queue@, i as int);
                }
                if queue.entries[i].queued {
                    let qs = Ghost(queued_entries(queue@.take(i + 1)));
                    assert(qs@.drop_last() == queued_entries(queue@.take(i as int)));
                    if !queued_key_before(queue, i, queue.entries[i].key.as_str()) {
                        push_entries_with_key(&mut r, library, &keys, queue.entries[i].key.as_str());
                    }
                }
                i += 1;
            }
            assert(queue@.take(n as int) == queue@);
            r
        },
    }
}


proof fn lemma_entries_with_key_from(lib: Seq<LibraryEntryView>, key: Seq<char>)
    ensures
        forall|k: int|
            0 <= k < entries_with_key(lib, key).len() ==> normalized(
                (#[trigger] entries_with_key(lib, key)[k]).name,
            ) == key,
    decreases lib.len(),
{
    if lib.len() > 0 {
        let t = lib.drop_last();
        lemma_entries_with_key_from(t, key);
        let e = entries_with_key(lib, key);
        let et = entries_with_key(t, key);
        assert forall|k: int| 0 <= k < e.len() implies normalized((#[trigger] e[k]).name) == key by {
            if k < et.len() {
                assert(e[k] == et[k]);
            }
        }
    }
}

/// Every game the queued filter lists holds a rank.
pub proof fn lemma_ranked_entries_have_rank(lib: Seq<LibraryEntryView>, es: Seq<EntryView>)
    ensures
        forall|k: int|
            0 <= k < filtered(lib, es, Filter::Queued).len() ==> rank_of(
                es,
                normalized((#[trigger] filtered(lib, es, Filter::Queued)[k]).name),
            ) is Some,
{
    lemma_ranked_have_key(lib, queued_entries(es));
}

proof fn lemma_ranked_have_key(lib: Seq<LibraryEntryView>, qs: Seq<EntryView>)
    ensures
        forall|k: int|
            0 <= k < ranked_entries(lib, qs).len() ==> first_index(
                qs,
                normalized((#[trigger] ranked_entries(lib, qs)[k]).name),
            ) is Some,
    decreases qs.len(),
{
    if qs.len() > 0 {
        let t = qs.drop_last();
        let x = qs.last();
        lemma_ranked_have_key(lib, t);
        assert(qs == t.push(x));
        let r = ranked_entries(lib, qs);
        let rt = ranked_entries(lib, t);
        assert forall|k: int| 0 <= k < r.len() implies first_index(qs, normalized((#[trigger] r[k]).name)) is Some by {
            let key = normalized(r[k].name);
            lemma_first_index_push(t, x, key);
            if k >= rt.len() {
                lemma_entries_with_key_from(lib, x.key);
                assert(r[k] == entries_with_key(lib, x.key)[k - rt.len()]);
            } else {
                assert(r[k] == rt[k]);
            }
        }
    }
}

/// `x` is one of the entries of `lib`.
pub open spec fn in_library(lib: Seq<LibraryEntryView>, x: LibraryEntryView) -> bool {
    exists|j: int| 0 <= j < lib.len() && #[trigger] lib[j] == x
}

proof fn lemma_entries_with_key_in(lib: Seq<LibraryEntryView>, key: Seq<char>)
    ensures
        forall|k: int|
            0 <= k < entries_with_key(lib, key).len() ==> in_library(lib, #[trigger] entries_with_key(lib, key)[k]),
    decreases lib.len(),
{
    if lib.len() > 0 {
        let t = lib.drop_last();
        lemma_entries_with_key_in(t, key);
        let e = entries_with_key(lib, key);
        let et = entries_with_key(t, key);
        assert forall|k: int| 0 <= k < e.len() implies in_library(lib, #[trigger] e[k]) by {
            if k < et.len() {
                assert(e[k] == et[k]);
                let j = choose|j: int| 0 <= j < t.len() && #[trigger] t[j] == et[k];
                assert(lib[j] == t[j]);
            } else {
                assert(lib[lib.len() - 1] == e[k]);
            }
        }
    }
}

proof fn lemma_ranked_entries_in(lib: Seq<LibraryEntryView>, qs: Seq<EntryView>)
    ensures
        forall|k: int| 0 <= k < ranked_entries(lib, qs).len() ==> in_library(lib, #[trigger] ranked_entries(lib, qs)[k]),
    decreases qs.len(),
{
    if qs.len() > 0 {
        let t = qs.drop_last();
        lemma_ranked_entries_in(lib, t);
        lemma_entries_with_key_in(lib, qs.last().key);
        let r = ranked_entries(lib, qs);
        let rt = ranked_entries(lib, t);
        assert forall|k: int| 0 <= k < r.len() implies in_library(lib, #[trigger] r[k]) by {
            if k < rt.len() {
                assert(r[k] == rt[k]);
            } else {
                assert(r[k] == entries_with_key(lib, qs.last().key)[k - rt.len()]);
            }
        }
    }
}

proof fn lemma_entries_played_in(lib: Seq<LibraryEntryView>, es: Seq<EntryView>, played: bool)
    ensures
        forall|k: int|
            0 <= k < entries_played(lib, es, played).len() ==> in_library(lib, #[trigger] entries_played(lib, es, played)[k]),
    decreases lib.len(),
{
    if lib.len() > 0 {
        let t = lib.drop_last();
        lemma_entries_played_in(t, es, played);
        let e = entries_played(lib, es, played);
        let et = entries_played(t, es, played);
        assert forall|k: int| 0 <= k < e.len() implies in_library(lib, #[trigger] e[k]) by {
            if k < et.len() {
                assert(e[k] == et[k]);
                let j = choose|j: int| 0 <= j < t.len() && #[trigger] t[j] == et[k];
                assert(lib[j] == t[j]);
            } else {
                assert(lib[lib.len() - 1] == e[k]);
            }
        }
    }
}

/// Every row a filter shows is an entry of the library.
pub proof fn law_filtered_rows_come_from_library(lib: Seq<LibraryEntryView>, es: Seq<EntryView>, filter: Filter)
    ensures
        forall|k: int| 0 <= k < filtered(lib, es, filter).len() ==> in_library(lib, #[trigger] filtered(lib, es, filter)[k]),
{
    match filter {
        Filter::All => {
            assert forall|k: int| 0 <= k < lib.len() implies in_library(lib, #[trigger] lib[k]) by {}
        },
        Filter::Queued => lemma_ranked_entries_in(lib, queued_entries(es)),
        Filter::Played => lemma_entries_played_in(lib, es, true),
        Filter::Unplayed => lemma_entries_played_in(lib, es, false),
    }
}
} // verus!
