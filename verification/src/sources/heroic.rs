//! Games of the Heroic launcher's stores (Epic, GOG, Amazon), read from its
//! library files.

use vstd::prelude::*;
use vstd::string::StringExecFns;

use crate::json::{as_array, as_str, field, field_of, get, items_of, json_document, parse_json, text_of, Json};
use crate::text::str_eq;
use crate::{game_views, Game, GameView};

verus! {

/// The games of `items` that carry a string member `name_key`, in order, on
/// `platform`; when `skip_redist`, an item whose `app_name` is
/// `"gog-redist"` is left out first.
pub open spec fn titled_games(
    items: Seq<Json>,
    name_key: Seq<char>,
    platform: Seq<char>,
    skip_redist: bool,
) -> Seq<GameView>
    decreases items.len(),
{
    if items.len() == 0 {
        Seq::empty()
    } else {
        let rest = titled_games(items.drop_last(), name_key, platform, skip_redist);
        let item = items.last();
        if skip_redist && text_of(field(item, "app_name"@)) == Some("gog-redist"@) {
            rest
        } else {
            match text_of(field(item, name_key)) {
                Some(name) => rest.push(GameView { name, platform }),
                None => rest,
            }
        }
    }
}

/// The games a Heroic library file lists under `list_key`; none when the
/// file could not be read (`None`) or has no such array.
pub open spec fn heroic_games(
    data: Option<Json>,
    list_key: Seq<char>,
    platform: Seq<char>,
    skip_redist: bool,
) -> Seq<GameView> {
    match items_of(field_of(data, list_key)) {
        Some(items) => titled_games(items, "title"@, platform, skip_redist),
        None => Seq::empty(),
    }
}

/// The games of `items` with a string member `name_key`, on `platform`.
pub fn collect_titled(items: &Vec<Json>, name_key: &str, platform: &str, skip_redist: bool) -> (r: Vec<Game>)
    ensures
        game_views(r@) == titled_games(items@, name_key@, platform@, skip_redist),
{
    let n = items.len();
    let mut r: Vec<Game> = Vec::new();
    let mut i: usize = 0;
    while i < n
        invariant
            n == items@.len(),
            i <= n,
            game_views(r@) == titled_games(items@.take(i as int), name_key@, platform@, skip_redist),
        decreases n - i,
    {
        assert(items@.take(i + 1).drop_last() == items@.take(i as int));
        assert(items@.take(i + 1).last() == items@[i as int]);
        let item = &items[i];
        let mut skip = false;
        if skip_redist {
            if let Some(app) = get(item, "app_name") {
                if let Some(s) = as_str(app) {
                    skip = str_eq(s, "gog-redist");
                }
            }
        }
        if !skip {
            if let Some(v) = get(item, name_key) {
                if let Some(name) = as_str(v) {
                    let ghost prev = r@;
                    r.push(Game { name: String::from_str(name), platform: String::from_str(platform) });
                    assert(game_views(r@) =~= game_views(prev).push(GameView { name: name@, platform: platform@ }));
                }
            }
        }
        i += 1;
    }
    assert(items@.take(n as int) == items@);
    r
}

/// The text of a file's contents, `None` when it could not be read.
pub open spec fn contents_view(contents: Option<&str>) -> Option<Seq<char>> {
    match contents {
        Some(t) => Some(t@),
        None => None,
    }
}

/// The document a library file holds: `None` when the file could not be
/// read or its text is not JSON.
pub open spec fn library_document(contents: Option<Seq<char>>) -> Option<Json> {
    match contents {
        Some(t) => match json_document(t) {
            Ok(d) => Some(d),
            Err(_) => None,
        },
        None => None,
    }
}

/// Parses a library file's contents.
fn read_document(contents: Option<&str>) -> (r: Option<Json>)
    ensures
        r == library_document(contents_view(contents)),
{
    match contents {
        Some(t) => match parse_json(t) {
            Ok(d) => Some(d),
            Err(_) => None,
        },
        None => None,
    }
}

/// The games a library document lists under `list_key`, on `platform`.
fn games_of_document(data: &Option<Json>, list_key: &str, platform: &str, skip_redist: bool) -> (r: Vec<Game>)
    ensures
        game_views(r@) == heroic_games(*data, list_key@, platform@, skip_redist),
{
    match data {
        Some(d) => match get(d, list_key) {
            Some(list) => match as_array(list) {
                Some(items) => collect_titled(items, "title", platform, skip_redist),
                None => Vec::new(),
            },
            None => Vec::new(),
        },
        None => Vec::new(),
    }
}

/// The games of a Heroic library file whose games are listed under `list_key`.
fn load_heroic_library(contents: Option<&str>, list_key: &str, platform: &str) -> (r: Vec<Game>)
    ensures
        game_views(r@) == heroic_games(library_document(contents_view(contents)), list_key@, platform@, false),
{
    let data = read_document(contents);
    games_of_document(&data, list_key, platform, false)
}

/// Epic Games titles from the contents of a Heroic `legendary_library.json`
/// file (`None` when it could not be read; text that is not JSON lists no
/// games).
pub fn load_epic(contents: Option<&str>) -> (r: Vec<Game>)
    ensures
        game_views(r@) == heroic_games(library_document(contents_view(contents)), "library"@, "epic"@, false),
{
    load_heroic_library(contents, "library", "epic")
}

/// GOG titles from the contents of a Heroic `gog_library.json` file,
/// without the `gog-redist` redistributables entry.
pub fn load_gog(contents: Option<&str>) -> (r: Vec<Game>)
    ensures
        game_views(r@) == heroic_games(library_document(contents_view(contents)), "games"@, "gog"@, true),
{
    let data = read_document(contents);
    games_of_document(&data, "games", "gog", true)
}

/// Amazon Games titles from the contents of a Heroic `nile_library.json` file.
pub fn load_amazon(contents: Option<&str>) -> (r: Vec<Game>)
    ensures
        game_views(r@) == heroic_games(library_document(contents_view(contents)), "library"@, "amazon"@, false),
{
    load_heroic_library(contents, "library", "amazon")
}

} // verus!
