use backlog::sources::heroic;

/// The contents of a library file, as the loaders receive them.
fn document(text: &str) -> Option<&str> {
    Some(text)
}

#[test]
fn test_load_epic_extracts_titles() {
    let data = document(
        r#"{
        "library": [
            {"title": "Celeste", "app_name": "abc123"},
            {"title": "Hades", "app_name": "def456"}
        ]
    }"#,
    );
    let games = heroic::load_epic(data);
    assert_eq!(games.len(), 2);
    assert_eq!(games[0].name, "Celeste");
    assert_eq!(games[0].platform, "epic");
    assert_eq!(games[1].name, "Hades");
}

#[test]
fn test_load_gog_filters_redist() {
    let data = document(
        r#"{
        "games": [
            {"title": "Hollow Knight", "app_name": "hollow_knight"},
            {"title": "Galaxy Common Redistributables", "app_name": "gog-redist"}
        ]
    }"#,
    );
    let games = heroic::load_gog(data);
    assert_eq!(games.len(), 1);
    assert_eq!(games[0].name, "Hollow Knight");
    assert_eq!(games[0].platform, "gog");
}

#[test]
fn test_load_amazon_extracts_titles() {
    let data = document(
        r#"{
        "library": [
            {"title": "Castle on the Coast", "app_name": "amzn1.abc"}
        ]
    }"#,
    );
    let games = heroic::load_amazon(data);
    assert_eq!(games.len(), 1);
    assert_eq!(games[0].name, "Castle on the Coast");
    assert_eq!(games[0].platform, "amazon");
}

#[test]
fn test_load_returns_empty_when_file_missing() {
    let missing: Option<&str> = None;
    assert!(heroic::load_epic(missing).is_empty());
    assert!(heroic::load_gog(missing).is_empty());
    assert!(heroic::load_amazon(missing).is_empty());
}

#[test]
fn test_load_epic_handles_empty_library() {
    let data = document(r#"{"library": []}"#);
    assert!(heroic::load_epic(data).is_empty());
}

#[test]
fn test_load_gog_handles_extra_fields_gracefully() {
    let data = document(
        r#"{
        "games": [
            {
                "title": "Fruitbus",
                "app_name": "fruitbus",
                "runner": "gog",
                "art_cover": "https://example.com/cover.jpg",
                "is_installed": true,
                "install": {"is_dlc": false}
            }
        ]
    }"#,
    );
    let games = heroic::load_gog(data);
    assert_eq!(games.len(), 1);
    assert_eq!(games[0].name, "Fruitbus");
}

#[test]
fn unparsable_documents_and_wrong_shapes_give_no_games() {
    assert!(heroic::load_epic(document("{ not json")).is_empty());
    assert!(heroic::load_epic(document(r#"{"library": {"title": "X"}}"#)).is_empty());
    assert!(heroic::load_epic(document(r#"[1, 2]"#)).is_empty());
    let games = heroic::load_amazon(document(r#"{"library": [{"name": "X"}, "Y", {"title": "Z"}]}"#));
    assert_eq!(games.len(), 1);
    assert_eq!(games[0].name, "Z");
}

#[test]
fn redist_filter_applies_to_gog_only() {
    let text = r#"{"library": [{"title": "R", "app_name": "gog-redist"}], "games": [{"title": "R", "app_name": "gog-redist"}]}"#;
    assert_eq!(heroic::load_epic(document(text)).len(), 1);
    assert!(heroic::load_gog(document(text)).is_empty());
}
