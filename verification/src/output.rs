//! Plain-text rows for the one-shot search and the queue listing.

use vstd::prelude::*;
use vstd::string::StringExecFns;

use crate::queue::{
    apply_filter, filtered, lemma_ranked_entries_have_rank, normalized, rank_of, state_of, EntryView,
    Filter, GameState, Queue, PLAYED_GLYPH, QUEUED_GLYPH,
};
use crate::search::SearchResult;
use crate::text::{
    chars_of, decimal, decimal_string, joined, pad_left, push_char, push_joined, push_spaces, spaces,
};
use crate::{library_view, LibraryEntry, LibraryEntryView};

verus! {

/// The two marker chars of a game: the queued glyph or a blank, then the
/// played glyph or a blank.
pub open spec fn marker(st: GameState) -> Seq<char> {
    seq![if st.queued { QUEUED_GLYPH } else { ' ' }, if st.played { PLAYED_GLYPH } else { ' ' }]
}

/// The widest name, in chars (0 for no names).
pub open spec fn name_width(es: Seq<LibraryEntryView>) -> nat
    decreases es.len(),
{
    if es.len() == 0 {
        0
    } else {
        let w = name_width(es.drop_last());
        if es.last().name.len() > w {
            es.last().name.len()
        } else {
            w
        }
    }
}

/// The entry's name padded to `width` chars, two blanks, and its platforms
/// joined by " / ".
pub open spec fn name_and_platforms(e: LibraryEntryView, width: nat) -> Seq<char> {
    e.name + spaces((width - e.name.len()) as nat) + seq![' ', ' '] + joined(e.platforms, seq![' ', '/', ' '])
}

/// One search row: markers, a blank, then name and platforms.
pub open spec fn search_row(e: LibraryEntryView, st: GameState, width: nat) -> Seq<char> {
    marker(st) + seq![' '] + name_and_platforms(e, width)
}

/// One queue row: the rank right-aligned in two columns, a blank, the played
/// glyph or a blank, a blank, then name and platforms.
pub open spec fn queue_row(e: LibraryEntryView, es: Seq<EntryView>, width: nat) -> Seq<char> {
    let key = normalized(e.name);
    pad_left(decimal(rank_of(es, key)->0 as nat), 2) + seq![
        ' ',
        if state_of(es, key).played { PLAYED_GLYPH } else { ' ' },
        ' ',
    ] + name_and_platforms(e, width)
}

/// The search rows of the matched entries `rs`, one per line.
pub open spec fn search_rows(rs: Seq<LibraryEntryView>, es: Seq<EntryView>) -> Seq<char> {
    joined(
        Seq::new(
            rs.len(),
            |k: int| search_row(rs[k], state_of(es, normalized(rs[k].name)), name_width(rs)),
        ),
        seq!['\n'],
    )
}

/// The queue rows of the ranked entries `rs`, one per line.
pub open spec fn queue_rows(rs: Seq<LibraryEntryView>, es: Seq<EntryView>) -> Seq<char> {
    joined(Seq::new(rs.len(), |k: int| queue_row(rs[k], es, name_width(rs))), seq!['\n'])
}

/// The library entries of search results.
pub open spec fn result_entries(results: Seq<SearchResult<'_, LibraryEntry>>) -> Seq<LibraryEntryView> {
    results.map_values(|r: SearchResult<'_, LibraryEntry>| r.game@)
}

/// Renders the two-character queue marker field for a game.
///
/// Uncolored, so piped output stays clean.
pub fn marker_field(state: GameState) -> (r: String)
    ensures
        r@ == marker(state),
{
    let mut r = String::new();
    push_char(&mut r, if state.queued { QUEUED_GLYPH } else { ' ' });
    push_char(&mut r, if state.played { PLAYED_GLYPH } else { ' ' });
    assert(r@ =~= marker(state));
    r
}

/// Appends the name padded to `width`, two blanks and the platforms.
fn push_name_and_platforms(s: &mut String, e: &LibraryEntry, width: usize)
    requires
        e@.name.len() <= width,
    ensures
        final(s)@ == old(s)@ + name_and_platforms(e@, width as nat),
{
    let len = chars_of(e.name.as_str()).len();
    s.append(e.name.as_str());
    push_spaces(s, width - len);
    s.append("  ");
    proof {
        reveal_strlit("  ");
        reveal_strlit(" / ");
    }
    push_joined(s, &e.platforms, " / ");
    assert(seq![' ', ' '] =~= "  "@);
    assert(seq![' ', '/', ' '] =~= " / "@);
    assert(final(s)@ =~= old(s)@ + name_and_platforms(e@, width as nat));
}

proof fn lemma_name_width_step(es: Seq<LibraryEntryView>, k: int)
    requires
        0 <= k < es.len(),
    ensures
        name_width(es.take(k + 1)) == if es[k].name.len() > name_width(es.take(k)) {
            es[k].name.len()
        } else {
            name_width(es.take(k))
        },
{
    assert(es.take(k + 1).drop_last() == es.take(k));
    assert(es.take(k + 1).last() == es[k]);
}

proof fn lemma_name_width_bound(es: Seq<LibraryEntryView>)
    ensures
        forall|k: int| 0 <= k < es.len() ==> (#[trigger] es[k]).name.len() <= name_width(es),
        es.len() > 0 ==> exists|k: int| 0 <= k < es.len() && (#[trigger] es[k]).name.len() == name_width(es),
    decreases es.len(),
{
    if es.len() > 0 {
        let t = es.drop_last();
        lemma_name_width_bound(t);
        assert forall|k: int| 0 <= k < es.len() implies (#[trigger] es[k]).name.len() <= name_width(es) by {
            if k < t.len() {
                assert(es[k] == t[k]);
            }
        }
        if es.last().name.len() <= name_width(t) && t.len() > 0 {
            let k = choose|k: int| 0 <= k < t.len() && (#[trigger] t[k]).name.len() == name_width(t);
            assert(es[k] == t[k]);
        }
    }
}

/// The widest name among `es`, in chars.
fn widest_name(es: &[LibraryEntry]) -> (w: usize)
    ensures
        w as nat == name_width(library_view(es@)),
{
    let ghost lv = library_view(es@);
    let n = es.len();
    let mut w: usize = 0;
    let mut k: usize = 0;
    while k < n
        invariant
            n == es@.len(),
            k <= n,
            lv == library_view(es@),
            w as nat == name_width(lv.take(k as int)),
        decreases n - k,
    {
        proof {
            lemma_name_width_step(lv, k as int);
        }
        let len = chars_of(es[k].name.as_str()).len();
        if len > w {
            w = len;
        }
        k += 1;
    }
    assert(lv.take(n as int) == lv);
    w
}

/// Formats one-shot search results as aligned rows prefixed with queue markers.
pub fn format_search_rows(results: &[SearchResult<'_>], queue: &Queue) -> (r: String)
    ensures
        r@ == search_rows(result_entries(results@), queue@),
{
    let ghost rs = result_entries(results@);
    let n = results.len();
    let mut entries: Vec<LibraryEntry> = Vec::new();
    let mut k: usize = 0;
    while k < n
        invariant
            n == results@.len(),
            k <= n,
            rs == result_entries(results@),
            library_view(entries@) == rs.take(k as int),
        decreases n - k,
    {
        let ghost prev = entries@;
        entries.push(crate::copy_library_entry(results[k].game));
        proof {
            crate::lemma_library_view_push(prev, entries@.last());
            assert(rs.take(k + 1) =~= rs.take(k as int).push(results@[k as int].game@));
        }
        k += 1;
    }
    assert(rs.take(n as int) == rs);
    let width = widest_name(entries.as_slice());
    proof {
        lemma_name_width_bound(rs);
    }
    let ghost rows_spec = Seq::new(
        rs.len(),
        |q: int| search_row(rs[q], state_of(queue@, normalized(rs[q].name)), name_width(rs)),
    );
    let mut rows: Vec<String> = Vec::new();
    let mut k: usize = 0;
    while k < n
        invariant
            n == entries@.len() == rs.len() == rows_spec.len(),
            k <= n,
            rs == library_view(entries@),
            width as nat == name_width(rs),
            forall|q: int| 0 <= q < rs.len() ==> (#[trigger] rs[q]).name.len() <= name_width(rs),
            rows_spec == Seq::new(
                rs.len(),
                |q: int| search_row(rs[q], state_of(queue@, normalized(rs[q].name)), name_width(rs)),
            ),
            rows@.len() == k,
            crate::string_views(rows@) == rows_spec.take(k as int),
        decreases n - k,
    {
        let e = &entries[k];
        assert(rs[k as int] == e@);
        let mut row = marker_field(queue.state(e.name.as_str()));
        row.append(" ");
        proof {
            reveal_strlit(" ");
        }
        push_name_and_platforms(&mut row, e, width);
        assert(row@ =~= rows_spec[k as int]);
        let ghost prev = rows@;
        rows.push(row);
        assert(crate::string_views(rows@) =~= rows_spec.take(k + 1)) by {
            assert forall|q: int| 0 <= q < k + 1 implies #[trigger] crate::string_views(rows@)[q]
                == rows_spec.take(k + 1)[q] by {
                if q < k {
                    assert(rows@[q] == prev[q]);
                    assert(crate::string_views(prev)[q] == rows_spec.take(k as int)[q]);
                }
            }
        }
        k += 1;
    }
    assert(rows_spec.take(n as int) == rows_spec);
    let mut out = String::new();
    proof {
        reveal_strlit("\n");
    }
    push_joined(&mut out, &rows, "\n");
    assert(seq!['\n'] =~= "\n"@);
    out
}

/// A rank right-aligned in two columns, as `{:>2}` writes it.
pub fn rank_field(rank: usize) -> (r: String)
    ensures
        r@ == pad_left(decimal(rank as nat), 2),
{
    let digits = decimal_string(rank as u128);
    let mut r = String::new();
    if chars_of(digits.as_str()).len() < 2 {
        push_char(&mut r, ' ');
    }
    r.append(digits.as_str());
    assert(r@ =~= pad_left(decimal(rank as nat), 2));
    r
}

/// Formats the queue as ranked rows, skipping games no longer in the library.
///
/// Each row shows the game's rank, so a queued game missing from the
/// library leaves a gap in the numbering.
pub fn format_queue_rows(library: &[LibraryEntry], queue: &Queue) -> (r: String)
    ensures
        r@ == queue_rows(filtered(library_view(library@), queue@, Filter::Queued), queue@),
{
    let entries = apply_filter(library, queue, Filter::Queued);
    let ghost rs = library_view(entries@);
    proof {
        lemma_ranked_entries_have_rank(library_view(library@), queue@);
        lemma_name_width_bound(rs);
    }
    let width = widest_name(entries.as_slice());
    let n = entries.len();
    let ghost rows_spec = Seq::new(rs.len(), |q: int| queue_row(rs[q], queue@, name_width(rs)));
    let mut rows: Vec<String> = Vec::new();
    let mut k: usize = 0;
    while k < n
        invariant
            n == entries@.len() == rs.len() == rows_spec.len(),
            k <= n,
            rs == library_view(entries@),
            forall|q: int| 0 <= q < rs.len() ==> rank_of(queue@, normalized((#[trigger] rs[q]).name)) is Some,
            width as nat == name_width(rs),
            forall|q: int| 0 <= q < rs.len() ==> (#[trigger] rs[q]).name.len() <= name_width(rs),
            rows_spec == Seq::new(rs.len(), |q: int| queue_row(rs[q], queue@, name_width(rs))),
            rows@.len() == k,
            crate::string_views(rows@) == rows_spec.take(k as int),
        decreases n - k,
    {
        let e = &entries[k];
        assert(rs[k as int] == e@);
        let rank = match queue.rank(e.name.as_str()) {
            Some(v) => v,
            None => 0,
        };
        let mut row = rank_field(rank);
        push_char(&mut row, ' ');
        let played = queue.state(e.name.as_str()).played;
        push_char(&mut row, if played { PLAYED_GLYPH } else { ' ' });
        push_char(&mut row, ' ');
        push_name_and_platforms(&mut row, e, width);
        assert(row@ =~= rows_spec[k as int]);
        let ghost prev = rows@;
        rows.push(row);
        assert(crate::string_views(rows@) =~= rows_spec.take(k + 1)) by {
            assert forall|q: int| 0 <= q < k + 1 implies #[trigger] crate::string_views(rows@)[q]
                == rows_spec.take(k + 1)[q] by {
                if q < k {
                    assert(rows@[q] == prev[q]);
                    assert(crate::string_views(prev)[q] == rows_spec.take(k as int)[q]);
                }
            }
        }
        k += 1;
    }
    assert(rows_spec.take(n as int) == rows_spec);
    let mut out = String::new();
    proof {
        reveal_strlit("\n");
    }
    push_joined(&mut out, &rows, "\n");
    assert(seq!['\n'] =~= "\n"@);
    out
}

} // verus!
