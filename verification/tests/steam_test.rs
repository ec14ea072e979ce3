use backlog::json::Json;
use backlog::sources::steam;

fn to_json(v: &serde_json::Value) -> Json {
    match v {
        serde_json::Value::Null => Json::Null,
        serde_json::Value::Bool(b) => Json::Bool(*b),
        serde_json::Value::Number(n) => Json::Number(n.to_string()),
        serde_json::Value::String(s) => Json::Str(s.clone()),
        serde_json::Value::Array(a) => Json::Array(a.iter().map(to_json).collect()),
        serde_json::Value::Object(o) => {
            Json::Object(o.iter().map(|(k, v)| (k.clone(), to_json(v))).collect())
        }
    }
}

fn parse(text: &str) -> Json {
    let value: serde_json::Value = serde_json::from_str(text).unwrap();
    to_json(&value)
}

#[test]
fn test_parse_steam_response_extracts_games() {
    let data = parse(
        r#"{
        "response": {
            "game_count": 3,
            "games": [
                {"appid": 70, "name": "Half-Life"},
                {"appid": 220, "name": "Half-Life 2"},
                {"appid": 240, "name": "Counter-Strike: Source"}
            ]
        }
    }"#,
    );
    let games = steam::parse_steam_response(&data);
    assert_eq!(games.len(), 3);
    assert_eq!(games[0].name, "Half-Life");
    assert_eq!(games[0].platform, "steam");
    assert_eq!(games[2].name, "Counter-Strike: Source");
}

#[test]
fn test_parse_steam_response_handles_empty() {
    let data = parse(r#"{"response": {"game_count": 0, "games": []}}"#);
    let games = steam::parse_steam_response(&data);
    assert!(games.is_empty());
}

#[test]
fn test_parse_steam_response_handles_missing_response() {
    let data = parse(r#"{}"#);
    let games = steam::parse_steam_response(&data);
    assert!(games.is_empty());
}

#[test]
fn test_parse_steam_response_handles_missing_games() {
    let data = parse(r#"{"response": {}}"#);
    let games = steam::parse_steam_response(&data);
    assert!(games.is_empty());
}

#[test]
fn games_without_a_string_name_are_skipped() {
    let data = parse(r#"{"response": {"games": [{"appid": 1}, {"name": 5}, {"name": "Portal"}]}}"#);
    let games = steam::parse_steam_response(&data);
    assert_eq!(games.len(), 1);
    assert_eq!(games[0].name, "Portal");
}

#[test]
fn request_url_carries_key_and_id() {
    assert_eq!(
        steam::request_url("KEY", "123"),
        "https://api.steampowered.com/IPlayerService/GetOwnedGames/v1/?key=KEY&steamid=123&include_appinfo=true&include_played_free_games=true&format=json"
    );
}

#[test]
fn steam_body_text_is_parsed_or_reported() {
    let games = steam::parse_steam_body(r#"{"response": {"games": [{"appid": 70, "name": "Half-Life"}]}}"#).unwrap();
    assert_eq!(games.len(), 1);
    assert_eq!(games[0].name, "Half-Life");
    assert_eq!(games[0].platform, "steam");
    assert!(steam::parse_steam_body(r#"{"response": {}}"#).unwrap().is_empty());
    let err = steam::parse_steam_body("<html>rate limited</html>").unwrap_err();
    assert!(err.starts_with("Failed to parse response: "), "{err}");
    assert!(err.len() > "Failed to parse response: ".len());
}
