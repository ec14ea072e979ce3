//! Fuzzy search over the library, ranked by nucleo's match score.

use nucleo_matcher::pattern::{AtomKind, CaseMatching, Normalization, Pattern};
use nucleo_matcher::{Config, Matcher, Utf32Str};
use vstd::prelude::*;

use crate::text::chars_of;
use crate::{Game, LibraryEntry};

verus! {

/// The score nucleo gives the chars `text` for the fuzzy pattern `query`
/// (case ignored, smart normalization, one fuzzy atom per word); `None` when
/// some word does not match.
pub uninterp spec fn fuzzy_score(query: Seq<char>, text: Seq<char>) -> Option<u32>;

/// The char positions of `text` that nucleo reports as matching `query`,
/// atom after atom.
pub uninterp spec fn fuzzy_positions(query: Seq<char>, text: Seq<char>) -> Seq<u32>;

/// `nucleo_matcher::pattern::Pattern::score` for `Pattern::new(query,
/// CaseMatching::Ignore, Normalization::Smart, AtomKind::Fuzzy)` on the
/// chars `text`, one char per haystack position: the result is
/// `fuzzy_score(query, text)`; a pattern without words scores every text 0.
/// nucleo refuses a haystack of more than `u32::MAX` positions.
#[verifier::external_body]
fn match_score(query: &str, text: &[char]) -> (r: Option<u32>)
    requires
        text@.len() <= u32::MAX,
    ensures
        r == fuzzy_score(query@, text@),
        query@.len() == 0 ==> r == Some(0u32),
{
    let pattern = Pattern::new(query, CaseMatching::Ignore, Normalization::Smart, AtomKind::Fuzzy);
    let mut matcher = Matcher::new(Config::DEFAULT);
    pattern.score(Utf32Str::Unicode(text), &mut matcher)
}

/// `nucleo_matcher::pattern::Pattern::indices` for the same pattern on the
/// chars `text`, into an empty vector: the result is
/// `fuzzy_positions(query, text)`. Each is a position of the haystack, so a
/// char position of `text`.
#[verifier::external_body]
fn match_positions(query: &str, text: &[char]) -> (r: Vec<u32>)
    requires
        text@.len() <= u32::MAX,
    ensures
        r@ == fuzzy_positions(query@, text@),
        forall|m: int| 0 <= m < r@.len() ==> (#[trigger] r@[m]) < text@.len(),
{
    let pattern = Pattern::new(query, CaseMatching::Ignore, Normalization::Smart, AtomKind::Fuzzy);
    let mut matcher = Matcher::new(Config::DEFAULT);
    let mut indices: Vec<u32> = Vec::new();
    pattern.indices(Utf32Str::Unicode(text), &mut matcher, &mut indices);
    indices
}

/// Something searchable by its title.
pub trait Titled {
    /// The title the search matches against.
    spec fn title_view(&self) -> Seq<char>;

    /// The title the search matches against.
    fn title(&self) -> (r: &str)
        ensures
            r@ == self.title_view(),
    ;
}

impl Titled for Game {
    open spec fn title_view(&self) -> Seq<char> {
        self.name@
    }

    fn title(&self) -> (r: &str) {
        self.name.as_str()
    }
}

impl Titled for LibraryEntry {
    open spec fn title_view(&self) -> Seq<char> {
        self.name@
    }

    fn title(&self) -> (r: &str) {
        self.name.as_str()
    }
}

/// A game that matched a fuzzy search query, with its score and match positions.
pub struct SearchResult<'a, G = LibraryEntry> {
    pub game: &'a G,
    pub score: u32,
    /// Char positions in the game's name that matched the query, for highlighting.
    pub match_indices: Vec<u32>,
}

/// The titles of `lib`.
pub open spec fn titles_of<G: Titled>(lib: Seq<G>) -> Seq<Seq<char>> {
    lib.map_values(|g: G| g.title_view())
}

/// The best score among the titles that match (0 when none does).
pub open spec fn best_score(query: Seq<char>, titles: Seq<Seq<char>>) -> nat
    decreases titles.len(),
{
    if titles.len() == 0 {
        0
    } else {
        let b = best_score(query, titles.drop_last());
        match fuzzy_score(query, titles.last()) {
            Some(s) => if s > b {
                s as nat
            } else {
                b
            },
            None => b,
        }
    }
}

/// A match stays when it scores at least three fifths of the best score
/// (rounded down).
pub open spec fn kept(query: Seq<char>, titles: Seq<Seq<char>>, i: int) -> bool {
    &&& 0 <= i < titles.len()
    &&& fuzzy_score(query, titles[i]) is Some
    &&& fuzzy_score(query, titles[i])->0 >= best_score(query, titles) * 3 / 5
}

/// Match `i` is listed before match `j`: a higher score first, ties in
/// library order.
pub open spec fn ranks_before(query: Seq<char>, titles: Seq<Seq<char>>, i: int, j: int) -> bool {
    let si = fuzzy_score(query, titles[i])->0;
    let sj = fuzzy_score(query, titles[j])->0;
    si > sj || (si == sj && i < j)
}

/// `order` lists the kept matches, each once, by descending score and, among
/// equal scores, in library order.
pub open spec fn is_ranking(query: Seq<char>, titles: Seq<Seq<char>>, order: Seq<int>) -> bool {
    &&& forall|k: int| 0 <= k < order.len() ==> kept(query, titles, #[trigger] order[k])
    &&& forall|i: int| kept(query, titles, i) ==> order.contains(i)
    &&& forall|a: int, b: int|
        0 <= a < b < order.len() ==> ranks_before(query, titles, #[trigger] order[a], #[trigger] order[b])
}

/// `order` lists each element once, by `ranks_before`.
pub open spec fn ranked_order(query: Seq<char>, titles: Seq<Seq<char>>, order: Seq<int>) -> bool {
    forall|a: int, b: int|
        0 <= a < b < order.len() ==> ranks_before(query, titles, #[trigger] order[a], #[trigger] order[b])
}

proof fn lemma_ranked_order_unique(query: Seq<char>, titles: Seq<Seq<char>>, o1: Seq<int>, o2: Seq<int>)
    requires
        ranked_order(query, titles, o1),
        ranked_order(query, titles, o2),
        forall|x: int| o1.contains(x) <==> o2.contains(x),
    ensures
        o1 == o2,
    decreases o1.len(),
{
    if o1.len() == 0 {
        if o2.len() > 0 {
            assert(o2.contains(o2[0]));
        }
        assert(o1 =~= o2);
    } else {
        assert(o1.contains(o1[0]));
        let p = choose|p: int| 0 <= p < o2.len() && o2[p] == o1[0];
        assert(o2.contains(o2[0]));
        let p1 = choose|p1: int| 0 <= p1 < o1.len() && o1[p1] == o2[0];
        if p > 0 {
            assert(ranks_before(query, titles, o2[0], o2[p]));
            if p1 > 0 {
                assert(ranks_before(query, titles, o1[0], o1[p1]));
            }
            assert(false);
        }
        let t1 = o1.drop_first();
        let t2 = o2.drop_first();
        assert forall|x: int| t1.contains(x) <==> t2.contains(x) by {
            if t1.contains(x) {
                let k = choose|k: int| 0 <= k < t1.len() && t1[k] == x;
                assert(o1[k + 1] == x);
                assert(ranks_before(query, titles, o1[0], o1[k + 1]));
                assert(o1.contains(x));
                let j = choose|j: int| 0 <= j < o2.len() && o2[j] == x;
                assert(j != 0);
                assert(t2[j - 1] == x);
            }
            if t2.contains(x) {
                let k = choose|k: int| 0 <= k < t2.len() && t2[k] == x;
                assert(o2[k + 1] == x);
                assert(ranks_before(query, titles, o2[0], o2[k + 1]));
                assert(o2.contains(x));
                let j = choose|j: int| 0 <= j < o1.len() && o1[j] == x;
                assert(j != 0);
                assert(t1[j - 1] == x);
            }
        }
        assert forall|a: int, b: int| 0 <= a < b < t1.len() implies ranks_before(
            query,
            titles,
            #[trigger] t1[a],
            #[trigger] t1[b],
        ) by {
            assert(t1[a] == o1[a + 1] && t1[b] == o1[b + 1]);
        }
        assert forall|a: int, b: int| 0 <= a < b < t2.len() implies ranks_before(
            query,
            titles,
            #[trigger] t2[a],
            #[trigger] t2[b],
        ) by {
            assert(t2[a] == o2[a + 1] && t2[b] == o2[b + 1]);
        }
        lemma_ranked_order_unique(query, titles, t1, t2);
        assert(o2[0] == o1[0]);
        assert(o1.len() == o2.len());
        assert forall|k: int| 0 <= k < o1.len() implies o1[k] == o2[k] by {
            if k > 0 {
                assert(o1[k] == t1[k - 1]);
                assert(o2[k] == t2[k - 1]);
            }
        }
        assert(o1 =~= o2);
    }
}

/// `best_score` is the highest score any title gets: no match scores more,
/// and it is some match's score (or 0 when nothing matches).
proof fn lemma_best_score_is_max(query: Seq<char>, titles: Seq<Seq<char>>)
    ensures
        forall|i: int|
            0 <= i < titles.len() && #[trigger] fuzzy_score(query, titles[i]) is Some ==> fuzzy_score(
                query,
                titles[i],
            )->0 <= best_score(query, titles),
        best_score(query, titles) == 0 || exists|i: int|
            0 <= i < titles.len() && #[trigger] fuzzy_score(query, titles[i]) == Some(
                best_score(query, titles) as u32,
            ),
        best_score(query, titles) <= u32::MAX,
    decreases titles.len(),
{
    if titles.len() > 0 {
        let t = titles.drop_last();
        lemma_best_score_is_max(query, t);
        assert forall|i: int| 0 <= i < t.len() implies #[trigger] t[i] == titles[i] by {}
        let b = best_score(query, t);
        if b != 0 && best_score(query, titles) == b {
            let i = choose|i: int| 0 <= i < t.len() && #[trigger] fuzzy_score(query, t[i]) == Some(b as u32);
            assert(fuzzy_score(query, titles[i]) == Some(b as u32));
        }
        if best_score(query, titles) != b {
            assert(fuzzy_score(query, titles[titles.len() - 1]) == Some(best_score(query, titles) as u32));
        }
        assert forall|i: int|
            0 <= i < titles.len() && #[trigger] fuzzy_score(query, titles[i]) is Some implies fuzzy_score(
            query,
            titles[i],
        )->0 <= best_score(query, titles) by {
            if i < t.len() {
                assert(t[i] == titles[i]);
                assert(fuzzy_score(query, t[i]) is Some);
            }
        }
    }
}

/// The search keeps exactly the matches that score at least three fifths
/// (rounded down) of the highest score `m` that any title gets: every
/// listed title matches and scores that much, and every title that does is
/// listed, whatever its place in the library.
pub proof fn law_search_keeps_three_fifths_of_the_best(
    query: Seq<char>,
    titles: Seq<Seq<char>>,
    order: Seq<int>,
    m: u32,
)
    requires
        is_ranking(query, titles, order),
        forall|i: int|
            0 <= i < titles.len() && #[trigger] fuzzy_score(query, titles[i]) is Some ==> fuzzy_score(
                query,
                titles[i],
            )->0 <= m,
        exists|i: int| 0 <= i < titles.len() && #[trigger] fuzzy_score(query, titles[i]) == Some(m),
    ensures
        forall|k: int|
            0 <= k < order.len() ==> {
                &&& 0 <= #[trigger] order[k] < titles.len()
                &&& fuzzy_score(query, titles[order[k]]) is Some
                &&& fuzzy_score(query, titles[order[k]])->0 >= m * 3 / 5
            },
        forall|i: int|
            0 <= i < titles.len() && #[trigger] fuzzy_score(query, titles[i]) is Some && fuzzy_score(
                query,
                titles[i],
            )->0 >= m * 3 / 5 ==> order.contains(i),
{
    lemma_best_score_is_max(query, titles);
    let j = choose|i: int| 0 <= i < titles.len() && #[trigger] fuzzy_score(query, titles[i]) == Some(m);
    assert(m <= best_score(query, titles));
    if best_score(query, titles) != 0 {
        let i = choose|i: int|
            0 <= i < titles.len() && #[trigger] fuzzy_score(query, titles[i]) == Some(
                best_score(query, titles) as u32,
            );
        assert(best_score(query, titles) <= m);
    }
    assert(best_score(query, titles) == m);
    assert forall|k: int| 0 <= k < order.len() implies {
        &&& 0 <= #[trigger] order[k] < titles.len()
        &&& fuzzy_score(query, titles[order[k]]) is Some
        &&& fuzzy_score(query, titles[order[k]])->0 >= m * 3 / 5
    } by {
        assert(kept(query, titles, order[k]));
    }
    assert forall|i: int|
        0 <= i < titles.len() && #[trigger] fuzzy_score(query, titles[i]) is Some && fuzzy_score(
            query,
            titles[i],
        )->0 >= m * 3 / 5 implies order.contains(i) by {
        assert(kept(query, titles, i));
    }
}

/// At most one order lists the kept matches each once, best score first and
/// ties in library order.
pub proof fn law_ranking_unique(query: Seq<char>, titles: Seq<Seq<char>>, o1: Seq<int>, o2: Seq<int>)
    requires
        is_ranking(query, titles, o1),
        is_ranking(query, titles, o2),
    ensures
        o1 == o2,
{
    assert forall|x: int| o1.contains(x) <==> o2.contains(x) by {
        if o1.contains(x) {
            let k = choose|k: int| 0 <= k < o1.len() && o1[k] == x;
            assert(kept(query, titles, o1[k]));
        }
        if o2.contains(x) {
            let k = choose|k: int| 0 <= k < o2.len() && o2[k] == x;
            assert(kept(query, titles, o2[k]));
        }
    }
    lemma_ranked_order_unique(query, titles, o1, o2);
}

/// The order in which a search lists the kept matches.
pub open spec fn ranking(query: Seq<char>, titles: Seq<Seq<char>>) -> Seq<int> {
    choose|o: Seq<int>| is_ranking(query, titles, o)
}

/// Fuzzy-searches `library`, returning the matches sorted by score, best first.
///
/// Multi-word queries (e.g. "tomb raider") split into atoms that all must
/// match. An empty query returns every game with score 0. Matches scoring
/// under three fifths of the best score are dropped.
pub fn fuzzy_search<'a, G: Titled>(query: &str, library: &'a [G]) -> (r: Vec<SearchResult<'a, G>>)
    requires
        forall|i: int| 0 <= i < library@.len() ==> (#[trigger] library@[i]).title_view().len() <= u32::MAX,
    ensures
        is_ranking(query@, titles_of(library@), ranking(query@, titles_of(library@))),
        r@.len() == ranking(query@, titles_of(library@)).len(),
        forall|k: int|
            0 <= k < r@.len() ==> {
                let i = ranking(query@, titles_of(library@))[k];
                let t = titles_of(library@)[i];
                &&& *(#[trigger] r@[k]).game == library@[i]
                &&& r@[k].score == fuzzy_score(query@, t)->0
                &&& r@[k].match_indices@ == fuzzy_positions(query@, t)
                &&& forall|m: int|
                    0 <= m < r@[k].match_indices@.len() ==> (#[trigger] r@[k].match_indices@[m]) < t.len()
            },
        query@.len() == 0 ==> r@.len() == library@.len() && forall|k: int|
            0 <= k < r@.len() ==> *(#[trigger] r@[k]).game == library@[k] && r@[k].score == 0,
        forall|k: int, j: int|
            0 <= k < r@.len() && 0 <= j < library@.len() && #[trigger] fuzzy_score(
                query@,
                titles_of(library@)[j],
            ) is Some ==> (#[trigger] r@[k]).score >= fuzzy_score(query@, titles_of(library@)[j])->0 * 3 / 5,
{
    let ghost titles = titles_of(library@);
    let n = library.len();
    // Score every game once, and find the best score.
    let mut scores: Vec<Option<u32>> = Vec::new();
    let mut best: u32 = 0;
    let mut i: usize = 0;
    while i < n
        invariant
            n == library@.len(),
            i <= n,
            titles == titles_of(library@),
            forall|j: int| 0 <= j < library@.len() ==> (#[trigger] library@[j]).title_view().len() <= u32::MAX,
            scores@.len() == i,
            forall|j: int| 0 <= j < i ==> #[trigger] scores@[j] == fuzzy_score(query@, titles[j]),
            query@.len() == 0 ==> forall|j: int| 0 <= j < i ==> #[trigger] scores@[j] == Some(0u32),
            query@.len() == 0 ==> best == 0,
            best as nat == best_score(query@, titles.take(i as int)),
        decreases n - i,
    {
        assert(titles.take(i + 1).drop_last() == titles.take(i as int));
        assert(titles.take(i + 1).last() == titles[i as int]);
        let title_chars = chars_of(library[i].title());
        let s = match_score(query, title_chars.as_slice());
        if let Some(v) = s {
            if v > best {
                best = v;
            }
        }
        scores.push(s);
        i += 1;
    }
    assert(titles.take(n as int) == titles);
    let threshold: u64 = best as u64 * 3 / 5;
    // Insert each kept match after every match that ranks before it.
    let mut order: Vec<(usize, u32)> = Vec::new();
    let mut i: usize = 0;
    while i < n
        invariant
            n == library@.len() == scores@.len(),
            i <= n,
            titles == titles_of(library@),
            forall|j: int| 0 <= j < n ==> #[trigger] scores@[j] == fuzzy_score(query@, titles[j]),
            threshold == best_score(query@, titles) * 3 / 5,
            forall|k: int|
                0 <= k < order@.len() ==> {
                    &&& (#[trigger] order@[k]).0 < i
                    &&& kept(query@, titles, order@[k].0 as int)
                    &&& order@[k].1 == fuzzy_score(query@, titles[order@[k].0 as int])->0
                },
            forall|j: int|
                0 <= j < i && kept(query@, titles, j) ==> exists|k: int|
                    0 <= k < order@.len() && #[trigger] order@[k].0 == j,
            forall|a: int, b: int|
                0 <= a < b < order@.len() ==> ranks_before(
                    query@,
                    titles,
                    (#[trigger] order@[a]).0 as int,
                    (#[trigger] order@[b]).0 as int,
                ),
        decreases n - i,
    {
        if let Some(s) = scores[i] {
            if s as u64 >= threshold {
                let m = order.len();
                let mut pos: usize = 0;
                while pos < m && order[pos].1 >= s
                    invariant
                        m == order@.len(),
                        pos <= m,
                        forall|k: int| 0 <= k < pos ==> (#[trigger] order@[k]).1 >= s,
                    decreases m - pos,
                {
                    pos += 1;
                }
                let ghost prev = order@;
                order.insert(pos, (i, s));
                proof {
                    assert forall|k: int| 0 <= k < order@.len() implies ({
                        &&& (#[trigger] order@[k]).0 < i + 1
                        &&& kept(query@, titles, order@[k].0 as int)
                        &&& order@[k].1 == fuzzy_score(query@, titles[order@[k].0 as int])->0
                    }) by {
                        if k < pos {
                            assert(order@[k] == prev[k]);
                        } else if k > pos {
                            assert(order@[k] == prev[k - 1]);
                        }
                    }
                    assert forall|j: int| 0 <= j < i + 1 && kept(query@, titles, j) implies exists|k: int|
                        0 <= k < order@.len() && #[trigger] order@[k].0 == j by {
                        if j == i {
                            assert(order@[pos as int].0 == j);
                        } else {
                            let k = choose|k: int| 0 <= k < prev.len() && #[trigger] prev[k].0 == j;
                            if k < pos {
                                assert(order@[k] == prev[k]);
                            } else {
                                assert(order@[k + 1] == prev[k]);
                            }
                        }
                    }
                    assert forall|a: int, b: int| 0 <= a < b < order@.len() implies ranks_before(
                        query@,
                        titles,
                        (#[trigger] order@[a]).0 as int,
                        (#[trigger] order@[b]).0 as int,
                    ) by {
                        if a < pos && b < pos {
                            assert(order@[a] == prev[a] && order@[b] == prev[b]);
                        } else if a < pos && b == pos {
                            assert(order@[a] == prev[a]);
                        } else if a < pos {
                            assert(order@[a] == prev[a] && order@[b] == prev[b - 1]);
                        } else if a == pos {
                            assert(order@[b] == prev[b - 1]);
                            assert(prev[pos as int].1 < s);
                            if pos + 1 < b {
                                assert(ranks_before(query@, titles, prev[pos as int].0 as int, prev[b - 1].0 as int));
                            }
                        } else {
                            assert(order@[a] == prev[a - 1] && order@[b] == prev[b - 1]);
                        }
                    }
                }
            }
        }
        i += 1;
    }
    // Attach each match's game and positions.
    let m = order.len();
    let mut r: Vec<SearchResult<'a, G>> = Vec::new();
    let mut k: usize = 0;
    while k < m
        invariant
            m == order@.len(),
            k <= m,
            n == library@.len(),
            titles == titles_of(library@),
            forall|j: int| 0 <= j < library@.len() ==> (#[trigger] library@[j]).title_view().len() <= u32::MAX,
            forall|q: int|
                0 <= q < order@.len() ==> {
                    &&& (#[trigger] order@[q]).0 < n
                    &&& order@[q].1 == fuzzy_score(query@, titles[order@[q].0 as int])->0
                },
            r@.len() == k,
            forall|q: int|
                0 <= q < k ==> {
                    let t = titles[order@[q].0 as int];
                    &&& *(#[trigger] r@[q]).game == library@[order@[q].0 as int]
                    &&& r@[q].score == fuzzy_score(query@, t)->0
                    &&& r@[q].match_indices@ == fuzzy_positions(query@, t)
                    &&& forall|x: int|
                        0 <= x < r@[q].match_indices@.len() ==> (#[trigger] r@[q].match_indices@[x]) < t.len()
                },
        decreases m - k,
    {
        let (idx, s) = order[k];
        let game = &library[idx];
        let title_chars = chars_of(game.title());
        let positions = match_positions(query, title_chars.as_slice());
        r.push(SearchResult { game, score: s, match_indices: positions });
        k += 1;
    }
    let ghost order_idx = order@.map_values(|p: (usize, u32)| p.0 as int);
    proof {
        assert forall|i: int| kept(query@, titles, i) implies order_idx.contains(i) by {
            let k = choose|k: int| 0 <= k < order@.len() && #[trigger] order@[k].0 == i;
            assert(order_idx[k] == i);
        }
        assert forall|q: int| 0 <= q < order_idx.len() implies kept(query@, titles, #[trigger] order_idx[q]) by {
            assert(order_idx[q] == order@[q].0);
        }
        assert forall|a: int, b: int| 0 <= a < b < order_idx.len() implies ranks_before(
            query@,
            titles,
            #[trigger] order_idx[a],
            #[trigger] order_idx[b],
        ) by {
            assert(order_idx[a] == order@[a].0);
            assert(order_idx[b] == order@[b].0);
        }
        assert(is_ranking(query@, titles, order_idx));
        law_ranking_unique(query@, titles, order_idx, ranking(query@, titles));
        if query@.len() == 0 {
            let ident = Seq::new(n as nat, |i: int| i);
            assert forall|j: int| 0 <= j < n implies fuzzy_score(query@, titles[j]) == Some(0u32) by {
                assert(scores@[j] == Some(0u32));
            }
            assert(is_ranking(query@, titles, ident)) by {
                assert forall|i: int| kept(query@, titles, i) implies ident.contains(i) by {
                    assert(ident[i] == i);
                }
                assert forall|k: int| 0 <= k < ident.len() implies kept(query@, titles, #[trigger] ident[k]) by {
                    assert(fuzzy_score(query@, titles[k]) == Some(0u32));
                }
            }
            law_ranking_unique(query@, titles, ident, ranking(query@, titles));
        }
        assert forall|q: int| 0 <= q < order_idx.len() implies ({
            let t = titles[order_idx[q]];
            &&& *(#[trigger] r@[q]).game == library@[order_idx[q]]
            &&& r@[q].score == fuzzy_score(query@, t)->0
            &&& r@[q].match_indices@ == fuzzy_positions(query@, t)
        }) by {
            assert(order_idx[q] == order@[q].0);
        }
        lemma_best_score_is_max(query@, titles);
        assert forall|k: int, j: int|
            0 <= k < r@.len() && 0 <= j < library@.len() && #[trigger] fuzzy_score(query@, titles[j]) is Some
                implies (#[trigger] r@[k]).score >= fuzzy_score(query@, titles[j])->0 * 3 / 5 by {
            let i = ranking(query@, titles)[k];
            assert(kept(query@, titles, i));
            let sj = fuzzy_score(query@, titles[j])->0 as int;
            let b = best_score(query@, titles) as int;
            assert(sj <= b);
            assert(sj * 3 / 5 <= b * 3 / 5) by (nonlinear_arith)
                requires
                    0 <= sj <= b,
            ;
        }
    }
    r
}

} // verus!
