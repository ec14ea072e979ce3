//! Games of a Steam account, from the Steam Web API.

use vstd::prelude::*;
use vstd::string::StringExecFns;

use crate::json::{as_array, field, field_of, get, items_of, json_document, parse_json, Json};
use crate::sources::heroic::{collect_titled, titled_games};
use crate::{game_views, Game, GameView};

verus! {

/// The `GetOwnedGames` endpoint of the Steam Web API.
pub const STEAM_API_URL: &'static str = "https://api.steampowered.com/IPlayerService/GetOwnedGames/v1/";

/// The games of a `GetOwnedGames` response: each item of
/// `response.games` with a string `name`, on platform `steam`.
pub open spec fn steam_games(data: Json) -> Seq<GameView> {
    match items_of(field_of(field(data, "response"@), "games"@)) {
        Some(items) => titled_games(items, "name"@, "steam"@, false),
        None => Seq::empty(),
    }
}

/// The request URL for the owned games of `steam_id`, with app names and
/// free games included.
pub open spec fn steam_request_url(api_key: Seq<char>, steam_id: Seq<char>) -> Seq<char> {
    STEAM_API_URL@ + "?key="@ + api_key + "&steamid="@ + steam_id
        + "&include_appinfo=true&include_played_free_games=true&format=json"@
}

/// Parses a Steam `GetOwnedGames` response into a list of games.
pub fn parse_steam_response(data: &Json) -> (r: Vec<Game>)
    ensures
        game_views(r@) == steam_games(*data),
{
    match get(data, "response") {
        Some(response) => match get(response, "games") {
            Some(list) => match as_array(list) {
                Some(items) => collect_titled(items, "name", "steam", false),
                None => Vec::new(),
            },
            None => Vec::new(),
        },
        None => Vec::new(),
    }
}

/// The URL that fetches the owned games of `steam_id` with `api_key`.
pub fn request_url(api_key: &str, steam_id: &str) -> (r: String)
    ensures
        r@ == steam_request_url(api_key@, steam_id@),
{
    let mut url = String::from_str(STEAM_API_URL);
    url.append("?key=");
    url.append(api_key);
    url.append("&steamid=");
    url.append(steam_id);
    url.append("&include_appinfo=true&include_played_free_games=true&format=json");
    url
}

/// What a `GetOwnedGames` response body gives: its games, or the parse
/// error as the sync reports it.
pub open spec fn steam_body(body: Seq<char>) -> Result<Seq<GameView>, Seq<char>> {
    match json_document(body) {
        Ok(d) => Ok(steam_games(d)),
        Err(e) => Err("Failed to parse response: "@ + e),
    }
}

/// Parses a `GetOwnedGames` response body into its games; an error when the
/// body is not JSON.
pub fn parse_steam_body(body: &str) -> (r: Result<Vec<Game>, String>)
    ensures
        match r {
            Ok(g) => steam_body(body@) == Ok::<Seq<GameView>, Seq<char>>(game_views(g@)),
            Err(m) => steam_body(body@) == Err::<Seq<GameView>, Seq<char>>(m@),
        },
{
    match parse_json(body) {
        Ok(d) => Ok(parse_steam_response(&d)),
        Err(e) => {
            let mut m = String::from_str("Failed to parse response: ");
            m.append(e.as_str());
            Err(m)
        },
    }
}

} // verus!
