//! Merging the launchers' game lists into one library.

use vstd::prelude::*;

use vstd::string::{StringExecFns, StringSliceAdditionalSpecFns};
use vstd::utf8::{decode_utf8, encode_utf8, encode_utf8_decode_utf8, is_char_boundary};

use crate::cache::{stale, stale_at, CacheFile};
use crate::clock::{earlier, elapsed_nanos, is_earlier, law_earlier_is_time_order, nanos_between, now, parse_rfc3339, rfc3339_instant, Instant};
use crate::queue::{normalize_key, normalized};
use crate::text::{decimal, decimal_string, str_eq};
use crate::{game_views, library_view, string_views, Game, GameView, LibraryEntry, LibraryEntryView};

verus! {

/// Position of the first entry whose name has key `key`.
pub open spec fn entry_index(es: Seq<LibraryEntryView>, key: Seq<char>) -> Option<int>
    decreases es.len(),
{
    if es.len() == 0 {
        None
    } else {
        match entry_index(es.drop_last(), key) {
            Some(i) => Some(i),
            None => if normalized(es.last().name) == key {
                Some(es.len() - 1)
            } else {
                None
            },
        }
    }
}

/// The library after one more game: a new entry for a new key, else the
/// game's platform added to its entry unless already listed.
pub open spec fn add_game(es: Seq<LibraryEntryView>, g: GameView) -> Seq<LibraryEntryView> {
    match entry_index(es, normalized(g.name)) {
        Some(i) => if es[i].platforms.contains(g.platform) {
            es
        } else {
            es.update(i, LibraryEntryView { name: es[i].name, platforms: es[i].platforms.push(g.platform) })
        },
        None => es.push(LibraryEntryView { name: g.name, platforms: seq![g.platform] }),
    }
}

/// The library that `dedupe` builds from `gs`: the games added one by one.
pub open spec fn deduped(gs: Seq<GameView>) -> Seq<LibraryEntryView>
    decreases gs.len(),
{
    if gs.len() == 0 {
        Seq::empty()
    } else {
        add_game(deduped(gs.drop_last()), gs.last())
    }
}

proof fn lemma_entry_index_spec(es: Seq<LibraryEntryView>, key: Seq<char>)
    ensures
        match entry_index(es, key) {
            Some(i) => 0 <= i < es.len() && normalized(es[i].name) == key && forall|j: int|
                0 <= j < i ==> normalized(#[trigger] es[j].name) != key,
            None => forall|j: int| 0 <= j < es.len() ==> normalized(#[trigger] es[j].name) != key,
        },
    decreases es.len(),
{
    if es.len() > 0 {
        let t = es.drop_last();
        lemma_entry_index_spec(t, key);
        assert forall|j: int| 0 <= j < t.len() implies #[trigger] es[j] == t[j] by {}
    }
}

proof fn lemma_entry_index_at(es: Seq<LibraryEntryView>, key: Seq<char>, i: int)
    requires
        0 <= i < es.len(),
        normalized(es[i].name) == key,
        forall|j: int| 0 <= j < i ==> normalized(#[trigger] es[j].name) != key,
    ensures
        entry_index(es, key) == Some(i),
{
    lemma_entry_index_spec(es, key);
    let f = entry_index(es, key);
    if f is Some {
        let k = f->0;
        if k > i {
            assert(normalized(es[i].name) != key);
        }
    }
}

/// Whether `v` holds a string equal to `s`.
fn contains_string(v: &Vec<String>, s: &str) -> (r: bool)
    ensures
        r == string_views(v@).contains(s@),
{
    let n = v.len();
    let mut i: usize = 0;
    while i < n
        invariant
            n == v.len(),
            i <= n,
            forall|j: int| 0 <= j < i ==> v@[j]@ != s@,
        decreases n - i,
    {
        if str_eq(v[i].as_str(), s) {
            assert(string_views(v@)[i as int] == s@);
            return true;
        }
        i += 1;
    }
    proof {
        if string_views(v@).contains(s@) {
            let j = choose|j: int| 0 <= j < string_views(v@).len() && string_views(v@)[j] == s@;
            assert(v@[j]@ != s@);
        }
    }
    false
}

/// Deduplicates a flat list of games into library entries, merging
/// cross-store duplicates.
///
/// The match key is `queue::normalize_key`, shared with queue state so that
/// every queued or played flag stays reachable. First-seen display casing is
/// kept. Platforms are listed in encounter order with duplicates removed.
///
/// Keys are looked up in a list kept beside the entries: vstd specifies
/// `HashMap` lookups only for key types known to obey its key model, and
/// `String` is not among them.
pub fn dedupe(games: Vec<Game>) -> (entries: Vec<LibraryEntry>)
    ensures
        library_view(entries@) == deduped(game_views(games@)),
{
    let ghost gv = game_views(games@);
    let n = games.len();
    let mut entries: Vec<LibraryEntry> = Vec::new();
    let mut keys: Vec<String> = Vec::new();
    let mut i: usize = 0;
    while i < n
        invariant
            n == games.len(),
            i <= n,
            gv == game_views(games@),
            keys@.len() == entries@.len(),
            forall|k: int| 0 <= k < keys@.len() ==> (#[trigger] keys@[k])@ == normalized(entries@[k].name@),
            library_view(entries@) == deduped(gv.take(i as int)),
        decreases n - i,
    {
        let ghost before = library_view(entries@);
        assert(gv.take(i + 1).drop_last() == gv.take(i as int));
        assert(gv.take(i + 1).last() == games@[i as int]@);
        let key = normalize_key(games[i].name.as_str());
        let m = keys.len();
        let mut j: usize = 0;
        while j < m
            invariant
                m == keys@.len() == entries@.len(),
                j <= m,
                before == library_view(entries@),
                forall|k: int| 0 <= k < keys@.len() ==> (#[trigger] keys@[k])@ == normalized(entries@[k].name@),
                forall|k: int| 0 <= k < j ==> normalized(#[trigger] before[k].name) != key@,
            ensures
                j <= m,
                j < m ==> keys@[j as int]@ == key@,
                forall|k: int| 0 <= k < j ==> normalized(#[trigger] before[k].name) != key@,
            decreases m - j,
        {
            if str_eq(keys[j].as_str(), key.as_str()) {
                break;
            }
            j += 1;
        }
        if j < m {
            proof {
                lemma_entry_index_at(before, key@, j as int);
            }
            if !contains_string(&entries[j].platforms, games[i].platform.as_str()) {
                let ghost old_entry = entries@[j as int];
                entries[j].platforms.push(games[i].platform.clone());
                assert(string_views(entries@[j as int].platforms@) =~= string_views(old_entry.platforms@).push(
                    games@[i as int].platform@,
                ));
                assert(library_view(entries@) =~= add_game(before, games@[i as int]@));
            }
        } else {
            proof {
                lemma_entry_index_spec(before, key@);
            }
            let mut platforms: Vec<String> = Vec::new();
            platforms.push(games[i].platform.clone());
            entries.push(LibraryEntry { name: games[i].name.clone(), platforms });
            keys.push(key);
            assert(string_views(entries@.last().platforms@) =~= seq![games@[i as int].platform@]);
            assert(library_view(entries@) =~= add_game(before, games@[i as int]@));
        }
        i += 1;
    }
    assert(gv.take(n as int) == gv);
    entries
}


/// The key of a library entry: that of its display name.
pub open spec fn entry_key(e: LibraryEntryView) -> Seq<char> {
    normalized(e.name)
}

/// Some game is named `name`.
pub open spec fn game_named(gs: Seq<GameView>, name: Seq<char>) -> bool {
    exists|k: int| 0 <= k < gs.len() && #[trigger] gs[k].name == name
}

/// Some game has key `key` and platform `platform`.
pub open spec fn game_on(gs: Seq<GameView>, key: Seq<char>, platform: Seq<char>) -> bool {
    exists|k: int| 0 <= k < gs.len() && normalized(#[trigger] gs[k].name) == key && gs[k].platform == platform
}

/// Some entry has key `key` and lists `platform`.
pub open spec fn entry_on(es: Seq<LibraryEntryView>, key: Seq<char>, platform: Seq<char>) -> bool {
    exists|i: int| 0 <= i < es.len() && entry_key(#[trigger] es[i]) == key && es[i].platforms.contains(platform)
}

/// No two entries share a key.
pub open spec fn keys_distinct(es: Seq<LibraryEntryView>) -> bool {
    forall|i: int, j: int| 0 <= i < j < es.len() ==> entry_key(es[i]) != entry_key(es[j])
}

/// Every game's key has an entry that lists the game's platform.
pub open spec fn covers_games(gs: Seq<GameView>, es: Seq<LibraryEntryView>) -> bool {
    forall|k: int| 0 <= k < gs.len() ==> entry_on(es, normalized(#[trigger] gs[k].name), gs[k].platform)
}

/// Every entry is named after one of the games.
pub open spec fn names_from_games(gs: Seq<GameView>, es: Seq<LibraryEntryView>) -> bool {
    forall|i: int| 0 <= i < es.len() ==> game_named(gs, #[trigger] es[i].name)
}

/// Every platform an entry lists is that of a game with the entry's key.
pub open spec fn platforms_from_games(gs: Seq<GameView>, es: Seq<LibraryEntryView>) -> bool {
    forall|i: int, p: int|
        0 <= i < es.len() && 0 <= p < es[i].platforms.len() ==> game_on(
            gs,
            entry_key(es[i]),
            #[trigger] es[i].platforms[p],
        )
}

/// No entry lists a platform twice.
pub open spec fn platforms_distinct(es: Seq<LibraryEntryView>) -> bool {
    forall|i: int, p: int, q: int|
        0 <= i < es.len() && 0 <= p < q < es[i].platforms.len() ==> #[trigger] es[i].platforms[p]
            != #[trigger] es[i].platforms[q]
}

/// What `dedupe` guarantees of its result `es` for the games `gs`: one entry
/// per key, named after a game of that key, listing without repeats exactly
/// the platforms of the games with that key.
pub open spec fn merges_by_key(gs: Seq<GameView>, es: Seq<LibraryEntryView>) -> bool {
    &&& keys_distinct(es)
    &&& covers_games(gs, es)
    &&& names_from_games(gs, es)
    &&& platforms_from_games(gs, es)
    &&& platforms_distinct(es)
}

proof fn lemma_more_games(t: Seq<GameView>, g: GameView, es: Seq<LibraryEntryView>)
    requires
        names_from_games(t, es),
        platforms_from_games(t, es),
    ensures
        names_from_games(t.push(g), es),
        platforms_from_games(t.push(g), es),
{
    let gs = t.push(g);
    assert forall|n: Seq<char>| game_named(t, n) implies game_named(gs, n) by {
        let k = choose|k: int| 0 <= k < t.len() && #[trigger] t[k].name == n;
        assert(gs[k] == t[k]);
    }
    assert forall|key: Seq<char>, p: Seq<char>| game_on(t, key, p) implies game_on(gs, key, p) by {
        let k = choose|k: int| 0 <= k < t.len() && normalized(#[trigger] t[k].name) == key && t[k].platform == p;
        assert(gs[k] == t[k]);
    }
}

proof fn lemma_covers_known(t: Seq<GameView>, g: GameView, d: Seq<LibraryEntryView>)
    requires
        covers_games(t, d),
        entry_on(d, normalized(g.name), g.platform),
    ensures
        covers_games(t.push(g), d),
{
    let gs = t.push(g);
    assert forall|k: int| 0 <= k < gs.len() implies entry_on(d, normalized(#[trigger] gs[k].name), gs[k].platform) by {
        if k < t.len() {
            assert(gs[k] == t[k]);
        }
    }
}

#[verifier::spinoff_prover]
proof fn lemma_update_platform(t: Seq<GameView>, g: GameView, d: Seq<LibraryEntryView>, i: int)
    requires
        merges_by_key(t, d),
        0 <= i < d.len(),
        entry_key(d[i]) == normalized(g.name),
        !d[i].platforms.contains(g.platform),
    ensures
        merges_by_key(
            t.push(g),
            d.update(i, LibraryEntryView { name: d[i].name, platforms: d[i].platforms.push(g.platform) }),
        ),
{
    let gs = t.push(g);
    let e = d.update(i, LibraryEntryView { name: d[i].name, platforms: d[i].platforms.push(g.platform) });
    lemma_more_games(t, g, d);
    assert forall|ii: int| 0 <= ii < e.len() implies #[trigger] e[ii].name == d[ii].name by {}
    assert(keys_distinct(e)) by {
        assert forall|ii: int, jj: int| 0 <= ii < jj < e.len() implies entry_key(e[ii]) != entry_key(e[jj]) by {
            assert(e[ii].name == d[ii].name);
            assert(e[jj].name == d[jj].name);
        }
    }
    assert(names_from_games(gs, e)) by {
        assert forall|ii: int| 0 <= ii < e.len() implies game_named(gs, #[trigger] e[ii].name) by {
            assert(e[ii].name == d[ii].name);
        }
    }
    assert(platforms_from_games(gs, e)) by {
        assert forall|ii: int, p: int|
            0 <= ii < e.len() && 0 <= p < e[ii].platforms.len() implies game_on(
            gs,
            entry_key(e[ii]),
            #[trigger] e[ii].platforms[p],
        ) by {
            if ii == i && p == d[i].platforms.len() {
                assert(gs[gs.len() - 1] == g);
                assert(normalized(gs[gs.len() - 1].name) == entry_key(e[ii]));
            } else {
                assert(e[ii].platforms[p] == d[ii].platforms[p]);
                assert(entry_key(e[ii]) == entry_key(d[ii]));
            }
        }
    }
    assert(platforms_distinct(e)) by {
        assert forall|ii: int, p: int, q: int|
            0 <= ii < e.len() && 0 <= p < q < e[ii].platforms.len() implies #[trigger] e[ii].platforms[p]
            != #[trigger] e[ii].platforms[q] by {
            if ii == i {
                assert(e[ii].platforms[p] == d[i].platforms[p]);
                if q < d[i].platforms.len() {
                    assert(e[ii].platforms[q] == d[i].platforms[q]);
                }
            }
        }
    }
    assert(covers_games(gs, e)) by {
        assert forall|key: Seq<char>, p: Seq<char>| entry_on(d, key, p) implies entry_on(e, key, p) by {
            let ii = choose|ii: int| 0 <= ii < d.len() && entry_key(#[trigger] d[ii]) == key && d[ii].platforms.contains(p);
            let pp = choose|pp: int| 0 <= pp < d[ii].platforms.len() && d[ii].platforms[pp] == p;
            assert(e[ii].platforms[pp] == d[ii].platforms[pp]);
            assert(entry_key(e[ii]) == key);
        }
        assert forall|k: int| 0 <= k < gs.len() implies entry_on(e, normalized(#[trigger] gs[k].name), gs[k].platform) by {
            if k == gs.len() - 1 {
                assert(e[i].platforms[d[i].platforms.len() as int] == g.platform);
                assert(entry_key(e[i]) == normalized(g.name));
            } else {
                assert(gs[k] == t[k]);
            }
        }
    }
}

#[verifier::spinoff_prover]
proof fn lemma_new_entry(t: Seq<GameView>, g: GameView, d: Seq<LibraryEntryView>)
    requires
        merges_by_key(t, d),
        forall|j: int| 0 <= j < d.len() ==> entry_key(#[trigger] d[j]) != normalized(g.name),
    ensures
        merges_by_key(t.push(g), d.push(LibraryEntryView { name: g.name, platforms: seq![g.platform] })),
{
    let gs = t.push(g);
    let e = d.push(LibraryEntryView { name: g.name, platforms: seq![g.platform] });
    lemma_more_games(t, g, d);
    assert(keys_distinct(e)) by {
        assert forall|ii: int, jj: int| 0 <= ii < jj < e.len() implies entry_key(e[ii]) != entry_key(e[jj]) by {
            assert(e[ii] == d[ii]);
            if jj < d.len() {
                assert(e[jj] == d[jj]);
            }
        }
    }
    assert(covers_games(gs, e)) by {
        assert forall|key: Seq<char>, p: Seq<char>| entry_on(d, key, p) implies entry_on(e, key, p) by {
            let ii = choose|ii: int| 0 <= ii < d.len() && entry_key(#[trigger] d[ii]) == key && d[ii].platforms.contains(p);
            assert(e[ii] == d[ii]);
        }
        assert forall|k: int| 0 <= k < gs.len() implies entry_on(e, normalized(#[trigger] gs[k].name), gs[k].platform) by {
            if k == gs.len() - 1 {
                assert(e[d.len() as int].platforms[0] == g.platform);
                assert(entry_key(e[d.len() as int]) == normalized(g.name));
            } else {
                assert(gs[k] == t[k]);
            }
        }
    }
    assert(names_from_games(gs, e)) by {
        assert forall|ii: int| 0 <= ii < e.len() implies game_named(gs, #[trigger] e[ii].name) by {
            if ii == d.len() {
                assert(gs[gs.len() - 1].name == e[ii].name);
            } else {
                assert(e[ii] == d[ii]);
            }
        }
    }
    assert(platforms_from_games(gs, e)) by {
        assert forall|ii: int, p: int|
            0 <= ii < e.len() && 0 <= p < e[ii].platforms.len() implies game_on(
            gs,
            entry_key(e[ii]),
            #[trigger] e[ii].platforms[p],
        ) by {
            if ii == d.len() {
                assert(gs[gs.len() - 1] == g);
                assert(normalized(gs[gs.len() - 1].name) == entry_key(e[ii]));
            } else {
                assert(e[ii] == d[ii]);
            }
        }
    }
    assert(platforms_distinct(e)) by {
        assert forall|ii: int, p: int, q: int|
            0 <= ii < e.len() && 0 <= p < q < e[ii].platforms.len() implies #[trigger] e[ii].platforms[p]
            != #[trigger] e[ii].platforms[q] by {
            if ii < d.len() {
                assert(e[ii] == d[ii]);
            }
        }
    }
}

/// `dedupe` merges exactly the games whose names share a key: its entries
/// have distinct keys, every game's key has an entry listing the game's
/// platform, and every entry and platform comes from the games.
pub proof fn law_dedupe_merges_by_key(gs: Seq<GameView>)
    ensures
        merges_by_key(gs, deduped(gs)),
    decreases gs.len(),
{
    if gs.len() > 0 {
        let t = gs.drop_last();
        let g = gs.last();
        law_dedupe_merges_by_key(t);
        let d = deduped(t);
        let key = normalized(g.name);
        assert(t.push(g) == gs);
        lemma_entry_index_spec(d, key);
        match entry_index(d, key) {
            Some(i) => {
                if d[i].platforms.contains(g.platform) {
                    assert(entry_key(d[i]) == key);
                    lemma_covers_known(t, g, d);
                    lemma_more_games(t, g, d);
                } else {
                    lemma_update_platform(t, g, d, i);
                }
            },
            None => {
                lemma_new_entry(t, g, d);
            },
        }
    }
}

/// Two games collapse into one entry exactly when their names share a key.
pub proof fn law_dedupe_pair_merges_iff_same_key(a: GameView, b: GameView)
    ensures
        deduped(seq![a, b]).len() == 1 <==> normalized(a.name) == normalized(b.name),
{
    let gs = seq![a, b];
    assert(gs.drop_last() == seq![a]);
    assert(gs.last() == b);
    assert(seq![a].drop_last() == Seq::<GameView>::empty());
    assert(seq![a].last() == a);
    let e0 = Seq::<LibraryEntryView>::empty();
    assert(deduped(Seq::<GameView>::empty()) == e0);
    assert(entry_index(e0, normalized(a.name)) is None);
    let d1 = deduped(seq![a]);
    assert(d1 == e0.push(LibraryEntryView { name: a.name, platforms: seq![a.platform] }));
    assert(d1.len() == 1);
    assert(d1.drop_last() == e0);
    assert(entry_index(e0, normalized(b.name)) is None);
    if normalized(a.name) == normalized(b.name) {
        assert(entry_index(d1, normalized(b.name)) == Some(0int));
    } else {
        assert(entry_index(d1, normalized(b.name)) is None);
    }
}


/// The platforms whose caches the library is loaded from, in load order.
pub open spec fn platform_order() -> Seq<Seq<char>> {
    seq!["epic"@, "gog"@, "amazon"@, "steam"@]
}

/// The platforms whose caches the library is loaded from, in load order.
pub fn platforms() -> (r: Vec<&'static str>)
    ensures
        r@.len() == 4,
        forall|i: int| 0 <= i < 4 ==> (#[trigger] r@[i])@ == platform_order()[i],
{
    let mut r: Vec<&'static str> = Vec::new();
    r.push("epic");
    r.push("gog");
    r.push("amazon");
    r.push("steam");
    r
}

/// The library loaded from the platform caches.
pub struct LoadResult {
    pub games: Vec<LibraryEntry>,
    pub warnings: Vec<String>,
    /// The earliest update time among the caches whose timestamp parses.
    pub oldest_update: Option<Instant>,
}

/// The date part of a timestamp: its first ten bytes when there are ten and
/// they end on a char boundary, else the whole text.
pub open spec fn date_part(s: Seq<char>) -> Seq<char> {
    let b = encode_utf8(s);
    if is_char_boundary(b, 10) {
        decode_utf8(b.subrange(0, 10))
    } else {
        s
    }
}

/// The warning for a stale cache of `platform` last updated at `last_updated`.
pub open spec fn stale_warning(platform: Seq<char>, last_updated: Seq<char>) -> Seq<char> {
    platform + " cache is stale (last updated: "@ + date_part(last_updated)
        + "). Run `backlog sync` to refresh."@
}

/// All games of the caches, cache after cache.
pub open spec fn all_games(caches: Seq<(String, CacheFile)>) -> Seq<GameView>
    decreases caches.len(),
{
    if caches.len() == 0 {
        Seq::empty()
    } else {
        all_games(caches.drop_last()) + game_views(caches.last().1.games@)
    }
}

/// The earliest parsable update time among the caches.
pub open spec fn oldest_update(caches: Seq<(String, CacheFile)>) -> Option<Instant>
    decreases caches.len(),
{
    if caches.len() == 0 {
        None
    } else {
        let o = oldest_update(caches.drop_last());
        match rfc3339_instant(caches.last().1.last_updated@) {
            Some(u) => if o is None || earlier(u, o->0) {
                Some(u)
            } else {
                o
            },
            None => o,
        }
    }
}

/// The instant of cache `i`'s update time, when it parses.
pub open spec fn cache_instant(caches: Seq<(String, CacheFile)>, i: int) -> Option<Instant> {
    rfc3339_instant(caches[i].1.last_updated@)
}

/// The oldest update is the chronological minimum of the update times that
/// parse: one of them, none earlier than it, and (outside leap seconds) no
/// time passes backwards from it to any of them; `None` exactly when none
/// parses.
pub proof fn law_oldest_update_is_earliest(caches: Seq<(String, CacheFile)>)
    ensures
        oldest_update(caches) is None <==> forall|i: int| 0 <= i < caches.len() ==> #[trigger] cache_instant(caches, i) is None,
        oldest_update(caches) matches Some(o) ==> {
            &&& exists|i: int| 0 <= i < caches.len() && #[trigger] cache_instant(caches, i) == Some(o)
            &&& forall|i: int| 0 <= i < caches.len() && #[trigger] cache_instant(caches, i) is Some ==> {
                let u = cache_instant(caches, i)->0;
                &&& !earlier(u, o)
                &&& (u.nanos < 1_000_000_000 && o.nanos < 1_000_000_000 ==> elapsed_nanos(o, u) >= 0)
            }
        },
    decreases caches.len(),
{
    if caches.len() > 0 {
        let t = caches.drop_last();
        law_oldest_update_is_earliest(t);
        assert forall|i: int| 0 <= i < t.len() implies #[trigger] cache_instant(t, i) == cache_instant(caches, i) by {
            assert(t[i] == caches[i]);
        }
        let n = caches.len() - 1;
        assert(cache_instant(caches, n) == rfc3339_instant(caches.last().1.last_updated@));
        match oldest_update(caches) {
            Some(o) => {
                assert forall|i: int| 0 <= i < caches.len() && #[trigger] cache_instant(caches, i) is Some implies {
                    let u = cache_instant(caches, i)->0;
                    &&& !earlier(u, o)
                    &&& (u.nanos < 1_000_000_000 && o.nanos < 1_000_000_000 ==> elapsed_nanos(o, u) >= 0)
                } by {
                    let u = cache_instant(caches, i)->0;
                    if i < n {
                        assert(cache_instant(t, i) == cache_instant(caches, i));
                    }
                    if u.nanos < 1_000_000_000 && o.nanos < 1_000_000_000 {
                        law_earlier_is_time_order(o, u);
                        law_earlier_is_time_order(u, o);
                    }
                }
                if oldest_update(t) == Some(o) {
                    let j = choose|j: int| 0 <= j < t.len() && #[trigger] cache_instant(t, j) == Some(o);
                    assert(cache_instant(caches, j) == Some(o));
                } else {
                    assert(cache_instant(caches, n) == Some(o));
                }
            },
            None => {
                assert forall|i: int| 0 <= i < caches.len() implies #[trigger] cache_instant(caches, i) is None by {
                    if i < n {
                        assert(cache_instant(t, i) == cache_instant(caches, i));
                    }
                }
            },
        }
        if forall|i: int| 0 <= i < caches.len() ==> #[trigger] cache_instant(caches, i) is None {
            assert forall|i: int| 0 <= i < t.len() implies #[trigger] cache_instant(t, i) is None by {
                assert(cache_instant(caches, i) is None);
            }
            assert(cache_instant(caches, n) is None);
        }
    }
}

/// The warnings for the caches that are more than a week old at `now`.
pub open spec fn stale_warnings(caches: Seq<(String, CacheFile)>, now: Instant) -> Seq<Seq<char>>
    decreases caches.len(),
{
    if caches.len() == 0 {
        Seq::empty()
    } else {
        let w = stale_warnings(caches.drop_last(), now);
        let c = caches.last();
        if stale(rfc3339_instant(c.1.last_updated@), now, 7) {
            w.push(stale_warning(c.0@, c.1.last_updated@))
        } else {
            w
        }
    }
}

/// The first ten bytes of `s` when they end on a char boundary, else `s`.
fn date_of(s: &str) -> (r: &str)
    ensures
        r@ == date_part(s@),
{
    assert(s.spec_bytes() == encode_utf8(s@));
    if s.is_char_boundary(10) {
        let (head, _) = s.split_at(10);
        proof {
            encode_utf8_decode_utf8(head@);
            assert(head.spec_bytes() == encode_utf8(head@));
            assert(head.spec_bytes() == encode_utf8(s@).subrange(0, 10));
        }
        head
    } else {
        s
    }
}

/// A copy of `g`.
fn copy_game(g: &Game) -> (r: Game)
    ensures
        r@ == g@,
{
    Game { name: g.name.clone(), platform: g.platform.clone() }
}

/// Merges the caches found for the platforms, in platform order, into the
/// library as of `now`: the games deduplicated, a warning for each cache
/// older than seven days, and the oldest update time.
pub fn load_all_games_at(caches: &Vec<(String, CacheFile)>, now: Instant) -> (r: LoadResult)
    ensures
        library_view(r.games@) == deduped(all_games(caches@)),
        string_views(r.warnings@) == stale_warnings(caches@, now),
        r.oldest_update == oldest_update(caches@),
{
    let n = caches.len();
    let mut raw: Vec<Game> = Vec::new();
    let mut warnings: Vec<String> = Vec::new();
    let mut oldest: Option<Instant> = None;
    let mut i: usize = 0;
    while i < n
        invariant
            n == caches@.len(),
            i <= n,
            game_views(raw@) == all_games(caches@.take(i as int)),
            string_views(warnings@) == stale_warnings(caches@.take(i as int), now),
            oldest == oldest_update(caches@.take(i as int)),
        decreases n - i,
    {
        let ghost pre = caches@.take(i as int);
        assert(caches@.take(i + 1).drop_last() == pre);
        assert(caches@.take(i + 1).last() == caches@[i as int]);
        let (platform, data) = (&caches[i].0, &caches[i].1);
        let updated = parse_rfc3339(data.last_updated.as_str());
        if let Some(u) = updated {
            let replace = match oldest {
                None => true,
                Some(o) => is_earlier(u, o),
            };
            if replace {
                oldest = Some(u);
            }
        }
        if stale_at(updated, now, 7) {
            let mut w = String::from_str(platform.as_str());
            w.append(" cache is stale (last updated: ");
            w.append(date_of(data.last_updated.as_str()));
            w.append("). Run `backlog sync` to refresh.");
            let ghost prev = warnings@;
            warnings.push(w);
            assert(string_views(warnings@) =~= string_views(prev).push(w@));
        }
        let m = data.games.len();
        let mut k: usize = 0;
        let ghost before = game_views(raw@);
        while k < m
            invariant
                m == data.games@.len(),
                k <= m,
                game_views(raw@) == before + game_views(data.games@.take(k as int)),
            decreases m - k,
        {
            let ghost prev = raw@;
            raw.push(copy_game(&data.games[k]));
            assert(game_views(raw@) =~= game_views(prev).push(data.games@[k as int]@));
            assert(game_views(data.games@.take(k + 1)) =~= game_views(data.games@.take(k as int)).push(
                data.games@[k as int]@,
            ));
            k += 1;
        }
        assert(data.games@.take(m as int) == data.games@);
        i += 1;
    }
    assert(caches@.take(n as int) == caches@);
    LoadResult { games: dedupe(raw), warnings, oldest_update: oldest }
}

/// Merges the caches found for the platforms, in platform order, into the
/// library: the games deduplicated, a warning for each cache older than
/// seven days (as of the current time), and the oldest update time.
pub fn load_all_games(caches: &Vec<(String, CacheFile)>) -> (r: LoadResult)
    ensures
        library_view(r.games@) == deduped(all_games(caches@)),
        r.oldest_update == oldest_update(caches@),
        exists|t: Instant| string_views(r.warnings@) == stale_warnings(caches@, t),
{
    let t = now();
    load_all_games_at(caches, t)
}

/// How long ago the library was synced, as the status line says it: whole
/// days, else whole hours, else whole minutes, else "just now".
pub open spec fn sync_age_text(synced_at: Option<Instant>, now: Instant) -> Seq<char> {
    match synced_at {
        None => "never synced"@,
        Some(t) => {
            let age = elapsed_nanos(t, now);
            let secs = age / 1_000_000_000;
            if age > 0 && secs / 86_400 > 0 {
                "synced "@ + decimal((secs / 86_400) as nat) + "d ago"@
            } else if age > 0 && secs / 3_600 > 0 {
                "synced "@ + decimal((secs / 3_600) as nat) + "h ago"@
            } else if age > 0 && secs / 60 > 0 {
                "synced "@ + decimal((secs / 60) as nat) + "m ago"@
            } else {
                "synced just now"@
            }
        },
    }
}

/// Formats how long before `now` the library was last synced.
pub fn format_sync_age_at(synced_at: Option<Instant>, now: Instant) -> (r: String)
    ensures
        r@ == sync_age_text(synced_at, now),
{
    match synced_at {
        None => String::from_str("never synced"),
        Some(t) => {
            let age = nanos_between(t, now);
            if age <= 0 {
                return String::from_str("synced just now");
            }
            let secs: u128 = age as u128 / 1_000_000_000;
            let (count, unit) = if secs / 86_400 > 0 {
                (secs / 86_400, "d ago")
            } else if secs / 3_600 > 0 {
                (secs / 3_600, "h ago")
            } else if secs / 60 > 0 {
                (secs / 60, "m ago")
            } else {
                return String::from_str("synced just now");
            };
            let mut r = String::from_str("synced ");
            r.append(decimal_string(count).as_str());
            r.append(unit);
            r
        },
    }
}

/// Formats how long ago the library was last synced into a human-readable string.
pub fn format_sync_age(synced_at: Option<Instant>) -> (r: String)
    ensures
        exists|t: Instant| r@ == sync_age_text(synced_at, t),
        synced_at is None ==> r@ == "never synced"@,
{
    let t = now();
    format_sync_age_at(synced_at, t)
}
} // verus!
