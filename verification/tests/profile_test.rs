use backlog::sources::profile::{self, SteamProfile};

fn read(answer: &str) -> (bool, String) {
    match profile::steam_profile(answer) {
        SteamProfile::Id(id) => (true, id),
        SteamProfile::Vanity(name) => (false, name),
    }
}

#[test]
fn vanity_links_and_bare_names_are_vanity_names() {
    assert_eq!(read("https://steamcommunity.com/id/yourname"), (false, "yourname".to_string()));
    assert_eq!(read("  http://www.steamcommunity.com/id/yourname/  "), (false, "yourname".to_string()));
    assert_eq!(read("steamcommunity.com/id/gaben/games"), (false, "gaben".to_string()));
    assert_eq!(read("yourname"), (false, "yourname".to_string()));
}

#[test]
fn profile_links_and_numbers_are_steam_ids() {
    assert_eq!(
        read("https://steamcommunity.com/profiles/76561197960287930/"),
        (true, "76561197960287930".to_string())
    );
    assert_eq!(read("76561197960287930\n"), (true, "76561197960287930".to_string()));
    assert_eq!(read("7656x"), (false, "7656x".to_string()));
    assert_eq!(read(""), (false, String::new()));
}

#[test]
fn resolve_url_and_response() {
    assert_eq!(
        profile::resolve_url("KEY", "gaben"),
        "https://api.steampowered.com/ISteamUser/ResolveVanityURL/v1/?key=KEY&vanityurl=gaben"
    );
    assert_eq!(
        profile::parse_resolve_body(r#"{"response": {"steamid": "76561197960287930", "success": 1}}"#),
        Ok("76561197960287930".to_string())
    );
    assert_eq!(
        profile::parse_resolve_body(r#"{"response": {"success": 42, "message": "No match"}}"#),
        Err("no Steam ID found for that vanity name".to_string())
    );
    let err = profile::parse_resolve_body("not json").unwrap_err();
    assert!(err.starts_with("Failed to parse response: "), "{err}");
}
