//! What every queue operation keeps, what one call undoes, and what stays
//! unchanged, stated over the queue's entries.

use vstd::prelude::*;

use crate::queue::{
    first_index, keys_unique, lemma_first_index_absent, lemma_first_index_found,
    lemma_first_index_push, lemma_first_index_spec, live_entries, move_positions, moved, normalized,
    queued_entries, rank_of, state_of, toggled_played, toggled_queued, is_next_queued,
    is_prev_queued, swapped, EntryView, GameState,
};
use crate::text::trimmed;

verus! {

/// `first_index` finds `key` exactly when some entry holds it.
proof fn lemma_first_index_some(es: Seq<EntryView>, key: Seq<char>)
    ensures
        first_index(es, key) is Some <==> exists|i: int| 0 <= i < es.len() && #[trigger] es[i].key == key,
{
    lemma_first_index_spec(es, key);
    if first_index(es, key) is Some {
        let i = first_index(es, key)->0;
        assert(es[i].key == key);
    }
}

/// With unique keys, an entry holding `key` is the one `first_index` finds.
proof fn lemma_first_index_unique(es: Seq<EntryView>, key: Seq<char>, i: int)
    requires
        keys_unique(es),
        0 <= i < es.len(),
        es[i].key == key,
    ensures
        first_index(es, key) == Some(i),
{
    lemma_first_index_spec(es, key);
    let f = first_index(es, key)->0;
    if f != i {
        if f < i {
            assert(es[f].key != es[i].key);
        } else {
            assert(es[i].key != es[f].key);
        }
    }
}

/// Entries whose keys match position by position have the same `first_index`.
proof fn lemma_first_index_same_keys(a: Seq<EntryView>, b: Seq<EntryView>, key: Seq<char>)
    requires
        a.len() == b.len(),
        forall|k: int| 0 <= k < a.len() ==> #[trigger] a[k].key == b[k].key,
    ensures
        first_index(a, key) == first_index(b, key),
{
    lemma_first_index_spec(a, key);
    lemma_first_index_spec(b, key);
    match first_index(a, key) {
        Some(i) => {
            assert forall|j: int| 0 <= j < i implies b[j].key != key by {
                assert(a[j].key == b[j].key);
            }
            assert(a[i].key == b[i].key);
            lemma_first_index_found(b, key, i);
        },
        None => {
            assert forall|j: int| 0 <= j < b.len() implies b[j].key != key by {
                assert(a[j].key == b[j].key);
            }
            lemma_first_index_absent(b, key);
        },
    }
}

/// Every queued entry is an entry.
proof fn lemma_queued_entries_from(es: Seq<EntryView>)
    ensures
        forall|k: int|
            0 <= k < queued_entries(es).len() ==> exists|i: int|
                0 <= i < es.len() && es[i] == #[trigger] queued_entries(es)[k],
        forall|k: int| 0 <= k < queued_entries(es).len() ==> (#[trigger] queued_entries(es)[k]).queued,
    decreases es.len(),
{
    if es.len() > 0 {
        let t = es.drop_last();
        lemma_queued_entries_from(t);
        assert forall|k: int| 0 <= k < queued_entries(es).len() implies exists|i: int|
            0 <= i < es.len() && es[i] == #[trigger] queued_entries(es)[k] by {
            if k < queued_entries(t).len() {
                let i = choose|i: int| 0 <= i < t.len() && t[i] == queued_entries(t)[k];
                assert(es[i] == t[i]);
            } else {
                assert(es[es.len() - 1] == queued_entries(es)[k]);
            }
        }
    }
}

/// Every queued entry appears among the queued entries.
proof fn lemma_queued_entries_has(es: Seq<EntryView>, i: int)
    requires
        0 <= i < es.len(),
        es[i].queued,
    ensures
        exists|k: int| 0 <= k < queued_entries(es).len() && #[trigger] queued_entries(es)[k] == es[i],
    decreases es.len(),
{
    let t = es.drop_last();
    if i == es.len() - 1 {
        assert(queued_entries(es)[queued_entries(t).len() as int] == es[i]);
    } else {
        assert(t[i] == es[i]);
        lemma_queued_entries_has(t, i);
        let k = choose|k: int| 0 <= k < queued_entries(t).len() && #[trigger] queued_entries(t)[k] == t[i];
        if es.last().queued {
            assert(queued_entries(es)[k] == queued_entries(t)[k]);
        } else {
            assert(queued_entries(es) == queued_entries(t));
        }
        assert(queued_entries(es)[k] == es[i]);
    }
}

/// With unique keys, a game holds a rank exactly when it is queued.
pub proof fn law_rank_iff_queued(es: Seq<EntryView>, key: Seq<char>)
    requires
        keys_unique(es),
    ensures
        rank_of(es, key) is Some <==> state_of(es, key).queued,
{
    let qs = queued_entries(es);
    lemma_first_index_spec(es, key);
    lemma_first_index_some(qs, key);
    lemma_queued_entries_from(es);
    if rank_of(es, key) is Some {
        let k = choose|k: int| 0 <= k < qs.len() && #[trigger] qs[k].key == key;
        let i = choose|i: int| 0 <= i < es.len() && es[i] == #[trigger] qs[k];
        lemma_first_index_unique(es, key, i);
    }
    if state_of(es, key).queued {
        let i = first_index(es, key)->0;
        lemma_queued_entries_has(es, i);
        let k = choose|k: int| 0 <= k < qs.len() && #[trigger] qs[k] == es[i];
        assert(qs[k].key == key);
    }
}


/// Removing an entry of another key keeps a key's flags.
proof fn lemma_state_remove_other(es: Seq<EntryView>, i: int, key: Seq<char>)
    requires
        0 <= i < es.len(),
        es[i].key != key,
    ensures
        state_of(es.remove(i), key) == state_of(es, key),
{
    let r = es.remove(i);
    lemma_first_index_spec(es, key);
    match first_index(es, key) {
        Some(j) => {
            let jj = if j < i { j } else { j - 1 };
            assert(r[jj] == es[j]);
            assert forall|m: int| 0 <= m < jj implies r[m].key != key by {
                if m < i {
                    assert(r[m] == es[m]);
                } else {
                    assert(r[m] == es[m + 1]);
                }
            }
            lemma_first_index_found(r, key, jj);
        },
        None => {
            assert forall|m: int| 0 <= m < r.len() implies r[m].key != key by {
                if m < i {
                    assert(r[m] == es[m]);
                } else {
                    assert(r[m] == es[m + 1]);
                }
            }
            lemma_first_index_absent(r, key);
        },
    }
}

/// Changing an entry's flags but not its key keeps every other key's flags.
proof fn lemma_state_update_other(es: Seq<EntryView>, i: int, e: EntryView, key: Seq<char>)
    requires
        0 <= i < es.len(),
        e.key == es[i].key,
        es[i].key != key,
    ensures
        state_of(es.update(i, e), key) == state_of(es, key),
{
    let u = es.update(i, e);
    lemma_first_index_same_keys(es, u, key);
    lemma_first_index_spec(es, key);
}

/// Appending an entry of another key keeps a key's flags.
proof fn lemma_state_push_other(es: Seq<EntryView>, x: EntryView, key: Seq<char>)
    requires
        x.key != key,
    ensures
        state_of(es.push(x), key) == state_of(es, key),
{
    lemma_first_index_push(es, x, key);
    lemma_first_index_spec(es, key);
    if first_index(es, key) is Some {
        let i = first_index(es, key)->0;
        assert(es.push(x)[i] == es[i]);
    }
}

/// `toggle_queued` flips the game's queued flag and keeps its played flag.
pub proof fn law_toggle_queued_flips_queued(es: Seq<EntryView>, name: Seq<char>)
    requires
        keys_unique(es),
    ensures
        state_of(toggled_queued(es, name), normalized(name)) == (GameState {
            queued: !state_of(es, normalized(name)).queued,
            played: state_of(es, normalized(name)).played,
        }),
{
    let key = normalized(name);
    let after = toggled_queued(es, name);
    lemma_first_index_spec(es, key);
    match first_index(es, key) {
        Some(i) => {
            if es[i].queued {
                lemma_first_index_same_keys(es, after, key);
            } else {
                let r = es.remove(i);
                assert forall|m: int| 0 <= m < r.len() implies r[m].key != key by {
                    if m < i {
                        assert(r[m] == es[m]);
                    } else {
                        assert(r[m] == es[m + 1]);
                        assert(es[i].key != es[m + 1].key);
                    }
                }
                lemma_first_index_absent(r, key);
                lemma_first_index_push(r, EntryView { queued: true, ..es[i] }, key);
            }
        },
        None => {
            lemma_first_index_push(es, EntryView { key, name: trimmed(name), queued: true, played: false }, key);
        },
    }
}

/// `toggle_queued` leaves the flags of every other game as they were.
pub proof fn law_toggle_queued_keeps_others(es: Seq<EntryView>, name: Seq<char>, other: Seq<char>)
    requires
        other != normalized(name),
    ensures
        state_of(toggled_queued(es, name), other) == state_of(es, other),
{
    let key = normalized(name);
    lemma_first_index_spec(es, key);
    match first_index(es, key) {
        Some(i) => {
            if es[i].queued {
                lemma_state_update_other(es, i, EntryView { queued: false, ..es[i] }, other);
            } else {
                lemma_state_remove_other(es, i, other);
                lemma_state_push_other(es.remove(i), EntryView { queued: true, ..es[i] }, other);
            }
        },
        None => {
            lemma_state_push_other(es, EntryView { key, name: trimmed(name), queued: true, played: false }, other);
        },
    }
}

/// `toggle_played` flips the game's played flag and keeps its queued flag.
pub proof fn law_toggle_played_flips_played(es: Seq<EntryView>, name: Seq<char>)
    ensures
        state_of(toggled_played(es, name), normalized(name)) == (GameState {
            queued: state_of(es, normalized(name)).queued,
            played: !state_of(es, normalized(name)).played,
        }),
{
    let key = normalized(name);
    let after = toggled_played(es, name);
    lemma_first_index_spec(es, key);
    match first_index(es, key) {
        Some(i) => {
            lemma_first_index_same_keys(es, after, key);
        },
        None => {
            lemma_first_index_push(es, EntryView { key, name: trimmed(name), queued: false, played: true }, key);
        },
    }
}

/// `toggle_played` leaves the flags of every other game as they were.
pub proof fn law_toggle_played_keeps_others(es: Seq<EntryView>, name: Seq<char>, other: Seq<char>)
    requires
        other != normalized(name),
    ensures
        state_of(toggled_played(es, name), other) == state_of(es, other),
{
    let key = normalized(name);
    lemma_first_index_spec(es, key);
    match first_index(es, key) {
        Some(i) => {
            lemma_state_update_other(es, i, EntryView { played: !es[i].played, ..es[i] }, other);
        },
        None => {
            lemma_state_push_other(es, EntryView { key, name: trimmed(name), queued: false, played: true }, other);
        },
    }
}

/// Every operation keeps keys unique: toggling either flag, and moving a game.
pub proof fn law_operations_keep_keys_unique(es: Seq<EntryView>, name: Seq<char>, forward: bool)
    requires
        keys_unique(es),
    ensures
        keys_unique(toggled_queued(es, name)),
        keys_unique(toggled_played(es, name)),
        keys_unique(moved(es, name, forward)),
{
    let key = normalized(name);
    lemma_first_index_spec(es, key);
    match first_index(es, key) {
        Some(i) => {
            let a = toggled_queued(es, name);
            if !es[i].queued {
                let r = es.remove(i);
                assert forall|p: int, q: int| 0 <= p < q < a.len() implies a[p].key != a[q].key by {
                    let pp = if p < i { p } else { p + 1 };
                    assert(a[p] == es[pp]);
                    if q < a.len() - 1 {
                        let qq = if q < i { q } else { q + 1 };
                        assert(a[q] == es[qq]);
                    } else {
                        assert(a[q].key == es[i].key);
                        assert(pp != i);
                    }
                }
            } else {
                assert forall|p: int, q: int| 0 <= p < q < a.len() implies a[p].key != a[q].key by {
                    assert(a[p].key == es[p].key);
                    assert(a[q].key == es[q].key);
                }
            }
            let b = toggled_played(es, name);
            assert forall|p: int, q: int| 0 <= p < q < b.len() implies b[p].key != b[q].key by {
                assert(b[p].key == es[p].key);
                assert(b[q].key == es[q].key);
            }
        },
        None => {
            let a = toggled_queued(es, name);
            assert forall|p: int, q: int| 0 <= p < q < a.len() implies a[p].key != a[q].key by {
                assert(a[p] == es[p]);
                if q < es.len() {
                    assert(a[q] == es[q]);
                }
            }
            let b = toggled_played(es, name);
            assert forall|p: int, q: int| 0 <= p < q < b.len() implies b[p].key != b[q].key by {
                assert(b[p] == es[p]);
                if q < es.len() {
                    assert(b[q] == es[q]);
                }
            }
        },
    }
    match move_positions(es, name, forward) {
        Some((i, j)) => {
            let m = moved(es, name, forward);
            if forward {
                assert(is_next_queued(es, i, j));
            } else {
                assert(is_prev_queued(es, i, j));
            }
            assert forall|p: int, q: int| 0 <= p < q < m.len() implies m[p].key != m[q].key by {
                let pp = if p == i { j } else if p == j { i } else { p };
                let qq = if q == i { j } else if q == j { i } else { q };
                assert(m[p] == es[pp]);
                assert(m[q] == es[qq]);
                if pp < qq {
                    assert(es[pp].key != es[qq].key);
                } else {
                    assert(es[qq].key != es[pp].key);
                }
            }
        },
        None => {},
    }
}


/// Changing one entry's played flag keeps the queued entries' keys.
proof fn lemma_queued_update_played(es: Seq<EntryView>, i: int, e: EntryView)
    requires
        0 <= i < es.len(),
        e.key == es[i].key,
        e.queued == es[i].queued,
    ensures
        queued_entries(es.update(i, e)).len() == queued_entries(es).len(),
        forall|k: int|
            0 <= k < queued_entries(es).len() ==> #[trigger] queued_entries(es.update(i, e))[k].key
                == queued_entries(es)[k].key,
    decreases es.len(),
{
    let u = es.update(i, e);
    let t = es.drop_last();
    if i < es.len() - 1 {
        assert(u.drop_last() == t.update(i, e));
        lemma_queued_update_played(t, i, e);
    } else {
        assert(u.drop_last() == t);
    }
}

/// `toggle_played` leaves every game's rank as it was.
pub proof fn law_toggle_played_keeps_ranks(es: Seq<EntryView>, name: Seq<char>, key: Seq<char>)
    ensures
        rank_of(toggled_played(es, name), key) == rank_of(es, key),
{
    let k = normalized(name);
    lemma_first_index_spec(es, k);
    match first_index(es, k) {
        Some(i) => {
            let e = EntryView { played: !es[i].played, ..es[i] };
            lemma_queued_update_played(es, i, e);
            lemma_first_index_same_keys(queued_entries(es), queued_entries(es.update(i, e)), key);
        },
        None => {
            let x = EntryView { key: k, name: trimmed(name), queued: false, played: true };
            assert(es.push(x).drop_last() == es);
        },
    }
}

/// A game that was not queued takes the last rank once `toggle_queued` queues it.
pub proof fn law_newly_queued_takes_last_rank(es: Seq<EntryView>, name: Seq<char>)
    requires
        keys_unique(es),
        !state_of(es, normalized(name)).queued,
    ensures
        rank_of(toggled_queued(es, name), normalized(name)) == Some(
            queued_entries(toggled_queued(es, name)).len() as int,
        ),
{
    let key = normalized(name);
    lemma_first_index_spec(es, key);
    let (r, x) = match first_index(es, key) {
        Some(i) => (es.remove(i), EntryView { queued: true, ..es[i] }),
        None => (es, EntryView { key, name: trimmed(name), queued: true, played: false }),
    };
    assert(toggled_queued(es, name) == r.push(x));
    assert forall|m: int| 0 <= m < r.len() implies r[m].key != key by {
        match first_index(es, key) {
            Some(i) => {
                if m < i {
                    assert(r[m] == es[m]);
                } else {
                    assert(r[m] == es[m + 1]);
                    assert(es[i].key != es[m + 1].key);
                }
            },
            None => {},
        }
    }
    lemma_queued_entries_from(r);
    let qr = queued_entries(r);
    assert forall|m: int| 0 <= m < qr.len() implies qr[m].key != key by {
        let j = choose|j: int| 0 <= j < r.len() && r[j] == #[trigger] qr[m];
    }
    lemma_first_index_absent(qr, key);
    assert(r.push(x).drop_last() == r);
    lemma_first_index_push(qr, x, key);
}

/// Moving a game one rank and then back the other way restores the queue.
pub proof fn law_move_then_move_back_restores(es: Seq<EntryView>, name: Seq<char>, forward: bool)
    requires
        keys_unique(es),
        move_positions(es, name, forward) is Some,
    ensures
        move_positions(moved(es, name, forward), name, !forward) is Some,
        moved(moved(es, name, forward), name, !forward) == es,
{
    let key = normalized(name);
    let (i, j) = move_positions(es, name, forward)->0;
    lemma_first_index_spec(es, key);
    let m = moved(es, name, forward);
    law_operations_keep_keys_unique(es, name, forward);
    if forward {
        assert(is_next_queued(es, i, j));
    } else {
        assert(is_prev_queued(es, i, j));
    }
    assert(m[j] == es[i]);
    lemma_first_index_unique(m, key, j);
    if forward {
        assert(is_prev_queued(m, j, i)) by {
            assert forall|k: int| i < k < j implies !#[trigger] m[k].queued by {
                assert(m[k] == es[k]);
            }
        }
        let c = choose|c: int| is_prev_queued(m, j, c);
        if c < i {
            assert(!m[i].queued);
        }
        if i < c {
            assert(m[c] == es[c]);
        }
    } else {
        assert(is_next_queued(m, j, i)) by {
            assert forall|k: int| j < k < i implies !#[trigger] m[k].queued by {
                assert(m[k] == es[k]);
            }
        }
        let c = choose|c: int| is_next_queued(m, j, c);
        if c < i {
            assert(m[c] == es[c]);
        }
        if i < c {
            assert(!m[i].queued);
        }
    }
    assert(move_positions(m, name, !forward) == Some((j, i)));
    assert(swapped(m, j, i) =~= es);
}

/// Dropping the entries without flags keeps the queued entries.
proof fn lemma_live_queued(es: Seq<EntryView>)
    ensures
        queued_entries(live_entries(es)) == queued_entries(es),
    decreases es.len(),
{
    if es.len() > 0 {
        let t = es.drop_last();
        lemma_live_queued(t);
        if es.last().queued || es.last().played {
            assert(live_entries(es).drop_last() == live_entries(t));
            assert(live_entries(es).last() == es.last());
        }
    }
}

/// Saving keeps every game's rank.
pub proof fn law_pruning_keeps_ranks(es: Seq<EntryView>, key: Seq<char>)
    ensures
        rank_of(live_entries(es), key) == rank_of(es, key),
{
    lemma_live_queued(es);
}

/// Every kept entry is an entry with a flag set, and keys stay unique.
proof fn lemma_live_from(es: Seq<EntryView>)
    ensures
        forall|k: int|
            0 <= k < live_entries(es).len() ==> exists|i: int|
                0 <= i < es.len() && es[i] == #[trigger] live_entries(es)[k],
        forall|k: int|
            0 <= k < live_entries(es).len() ==> (#[trigger] live_entries(es)[k]).queued
                || live_entries(es)[k].played,
        keys_unique(es) ==> keys_unique(live_entries(es)),
    decreases es.len(),
{
    if es.len() > 0 {
        let t = es.drop_last();
        lemma_live_from(t);
        let l = live_entries(es);
        let lt = live_entries(t);
        assert forall|k: int| 0 <= k < l.len() implies exists|i: int|
            0 <= i < es.len() && es[i] == #[trigger] l[k] by {
            if k < lt.len() {
                let i = choose|i: int| 0 <= i < t.len() && t[i] == lt[k];
                assert(es[i] == t[i]);
            } else {
                assert(es[es.len() - 1] == l[k]);
            }
        }
        if keys_unique(es) {
            assert(keys_unique(t));
            assert forall|p: int, q: int| 0 <= p < q < l.len() implies l[p].key != l[q].key by {
                if q == lt.len() {
                    let i = choose|i: int| 0 <= i < t.len() && t[i] == #[trigger] lt[p];
                    assert(es[i] == t[i]);
                    assert(es[i].key != es[es.len() - 1].key);
                } else {
                    assert(l[p] == lt[p]);
                    assert(l[q] == lt[q]);
                }
            }
        }
    }
}

/// Every entry with a flag set is kept.
proof fn lemma_live_has(es: Seq<EntryView>, i: int)
    requires
        0 <= i < es.len(),
        es[i].queued || es[i].played,
    ensures
        exists|k: int| 0 <= k < live_entries(es).len() && #[trigger] live_entries(es)[k] == es[i],
    decreases es.len(),
{
    let t = es.drop_last();
    if i == es.len() - 1 {
        assert(live_entries(es)[live_entries(t).len() as int] == es[i]);
    } else {
        assert(t[i] == es[i]);
        lemma_live_has(t, i);
        let k = choose|k: int| 0 <= k < live_entries(t).len() && #[trigger] live_entries(t)[k] == t[i];
        if es.last().queued || es.last().played {
            assert(live_entries(es)[k] == live_entries(t)[k]);
        } else {
            assert(live_entries(es) == live_entries(t));
        }
        assert(live_entries(es)[k] == es[i]);
    }
}

/// With unique keys, saving keeps every game's flags.
pub proof fn law_pruning_keeps_state(es: Seq<EntryView>, key: Seq<char>)
    requires
        keys_unique(es),
    ensures
        state_of(live_entries(es), key) == state_of(es, key),
        keys_unique(live_entries(es)),
{
    let l = live_entries(es);
    lemma_live_from(es);
    lemma_first_index_spec(es, key);
    lemma_first_index_spec(l, key);
    match first_index(es, key) {
        Some(i) => {
            if es[i].queued || es[i].played {
                lemma_live_has(es, i);
                let k = choose|k: int| 0 <= k < l.len() && #[trigger] l[k] == es[i];
                lemma_first_index_unique(l, key, k);
            } else {
                assert forall|k: int| 0 <= k < l.len() implies l[k].key != key by {
                    let j = choose|j: int| 0 <= j < es.len() && es[j] == #[trigger] l[k];
                    if j != i {
                        if j < i {
                            assert(es[j].key != es[i].key);
                        } else {
                            assert(es[i].key != es[j].key);
                        }
                    }
                }
                lemma_first_index_absent(l, key);
            }
        },
        None => {
            assert forall|k: int| 0 <= k < l.len() implies l[k].key != key by {
                let j = choose|j: int| 0 <= j < es.len() && es[j] == #[trigger] l[k];
            }
            lemma_first_index_absent(l, key);
        },
    }
}


/// The queued entries of two sequences one after the other.
proof fn lemma_queued_concat(s: Seq<EntryView>, t: Seq<EntryView>)
    ensures
        queued_entries(s + t) == queued_entries(s) + queued_entries(t),
    decreases t.len(),
{
    if t.len() == 0 {
        assert(s + t =~= s);
        assert(queued_entries(s) + queued_entries(t) =~= queued_entries(s));
    } else {
        let t1 = t.drop_last();
        lemma_queued_concat(s, t1);
        assert((s + t).drop_last() =~= s + t1);
        assert((s + t).last() == t.last());
        if t.last().queued {
            assert(queued_entries(s) + queued_entries(t) =~= (queued_entries(s) + queued_entries(t1)).push(
                t.last(),
            ));
        }
    }
}

/// A run of entries none of which is queued has no queued entries.
proof fn lemma_queued_none(b: Seq<EntryView>)
    requires
        forall|k: int| 0 <= k < b.len() ==> !(#[trigger] b[k]).queued,
    ensures
        queued_entries(b) == Seq::<EntryView>::empty(),
    decreases b.len(),
{
    if b.len() > 0 {
        let t = b.drop_last();
        assert forall|k: int| 0 <= k < t.len() implies !(#[trigger] t[k]).queued by {
            assert(t[k] == b[k]);
        }
        lemma_queued_none(t);
        assert(!b[b.len() - 1].queued);
    }
}

/// Two queued entries at `lo` and `hi` with nothing queued between: the
/// queued entries are those before `lo`, the two, and those after `hi`.
proof fn lemma_queued_around(es: Seq<EntryView>, lo: int, hi: int, x: EntryView, y: EntryView)
    requires
        0 <= lo < hi < es.len(),
        x.queued,
        y.queued,
        forall|k: int| lo < k < hi ==> !(#[trigger] es[k]).queued,
    ensures
        queued_entries(es.update(lo, x).update(hi, y)) == queued_entries(es.take(lo)) + seq![x, y]
            + queued_entries(es.skip(hi + 1)),
{
    let s = es.update(lo, x).update(hi, y);
    let a = es.take(lo);
    let b = es.subrange(lo + 1, hi);
    let c = es.skip(hi + 1);
    assert(s =~= a + seq![x] + b + seq![y] + c);
    assert forall|k: int| 0 <= k < b.len() implies !(#[trigger] b[k]).queued by {
        assert(b[k] == es[lo + 1 + k]);
    }
    lemma_queued_none(b);
    lemma_queued_concat(a + seq![x] + b + seq![y], c);
    lemma_queued_concat(a + seq![x] + b, seq![y]);
    lemma_queued_concat(a + seq![x], b);
    lemma_queued_concat(a, seq![x]);
    assert(seq![x].drop_last() =~= Seq::<EntryView>::empty());
    assert(seq![y].drop_last() =~= Seq::<EntryView>::empty());
    assert(queued_entries(Seq::<EntryView>::empty()) == Seq::<EntryView>::empty());
    assert(seq![x].last() == x);
    assert(seq![y].last() == y);
    assert(queued_entries(seq![x]) =~= seq![x]);
    assert(queued_entries(seq![y]) =~= seq![y]);
    assert(queued_entries(b) + seq![y] =~= seq![y]);
    assert(queued_entries(a) + seq![x] + queued_entries(b) =~= queued_entries(a) + seq![x]);
    assert(queued_entries(a) + seq![x] + seq![y] + queued_entries(c) =~= queued_entries(a) + seq![x, y]
        + queued_entries(c));
}

/// Where the two entries' keys are found among `qa + [x, y] + qc`, when no
/// entry of `qa` holds either key and the two keys differ.
proof fn lemma_first_index_pair(qa: Seq<EntryView>, x: EntryView, y: EntryView, qc: Seq<EntryView>)
    requires
        x.key != y.key,
        forall|k: int| 0 <= k < qa.len() ==> (#[trigger] qa[k]).key != x.key && qa[k].key != y.key,
    ensures
        first_index(qa + seq![x, y] + qc, x.key) == Some(qa.len() as int),
        first_index(qa + seq![x, y] + qc, y.key) == Some(qa.len() + 1int),
{
    let q = qa + seq![x, y] + qc;
    assert(q[qa.len() as int] == x);
    assert(q[qa.len() + 1int] == y);
    assert forall|k: int| 0 <= k < qa.len() implies q[k].key != x.key by {
        assert(q[k] == qa[k]);
    }
    assert forall|k: int| 0 <= k < qa.len() + 1 implies q[k].key != y.key by {
        if k < qa.len() {
            assert(q[k] == qa[k]);
        }
    }
    lemma_first_index_found(q, x.key, qa.len() as int);
    lemma_first_index_found(q, y.key, qa.len() + 1int);
}

/// The ranks of two queued entries at `lo < hi` with nothing queued between,
/// before and after they swap places: they trade adjacent ranks.
proof fn lemma_swap_ranks(es: Seq<EntryView>, lo: int, hi: int)
    requires
        keys_unique(es),
        0 <= lo < hi < es.len(),
        es[lo].queued,
        es[hi].queued,
        forall|k: int| lo < k < hi ==> !(#[trigger] es[k]).queued,
    ensures
        ({
            let p = queued_entries(es.take(lo)).len() as int;
            let t = es.update(lo, es[hi]).update(hi, es[lo]);
            &&& rank_of(es, es[lo].key) == Some(p + 1)
            &&& rank_of(es, es[hi].key) == Some(p + 2)
            &&& rank_of(t, es[lo].key) == Some(p + 2)
            &&& rank_of(t, es[hi].key) == Some(p + 1)
        }),
{
    let a = es.take(lo);
    let qa = queued_entries(a);
    let qc = queued_entries(es.skip(hi + 1));
    let x = es[lo];
    let y = es[hi];
    assert(es.update(lo, x).update(hi, y) =~= es);
    lemma_queued_around(es, lo, hi, x, y);
    lemma_queued_around(es, lo, hi, y, x);
    lemma_queued_entries_from(a);
    assert(x.key != y.key);
    assert forall|k: int| 0 <= k < qa.len() implies (#[trigger] qa[k]).key != x.key && qa[k].key != y.key by {
        let i = choose|i: int| 0 <= i < a.len() && a[i] == #[trigger] qa[k];
        assert(a[i] == es[i]);
    }
    lemma_first_index_pair(qa, x, y, qc);
    lemma_first_index_pair(qa, y, x, qc);
}

/// A move that happens shifts the game exactly one rank, later when moved
/// down and earlier when moved up, and the queued game it passes shifts one
/// rank the other way.
pub proof fn law_move_shifts_rank_by_one(es: Seq<EntryView>, name: Seq<char>, forward: bool)
    requires
        keys_unique(es),
        move_positions(es, name, forward) is Some,
    ensures
        ({
            let key = normalized(name);
            let (i, j) = move_positions(es, name, forward)->0;
            let step: int = if forward { 1 } else { -1 };
            &&& rank_of(es, key) is Some
            &&& rank_of(moved(es, name, forward), key) == Some(rank_of(es, key)->0 + step)
            &&& rank_of(es, es[j].key) is Some
            &&& rank_of(moved(es, name, forward), es[j].key) == Some(rank_of(es, es[j].key)->0 - step)
        }),
{
    let key = normalized(name);
    let (i, j) = move_positions(es, name, forward)->0;
    lemma_first_index_spec(es, key);
    assert(es[i].key == key);
    if forward {
        assert(is_next_queued(es, i, j));
        lemma_swap_ranks(es, i, j);
        assert(moved(es, name, forward) == swapped(es, i, j));
    } else {
        assert(is_prev_queued(es, i, j));
        lemma_swap_ranks(es, j, i);
        assert(swapped(es, i, j) =~= es.update(j, es[i]).update(i, es[j]));
    }
}

} // verus!
