use backlog::{search, Game};

fn game(name: &str, platform: &str) -> Game {
    Game {
        name: name.to_string(),
        platform: platform.to_string(),
    }
}

fn sample_library() -> Vec<Game> {
    vec![
        game("Tomb Raider", "steam"),
        game("Tomb Raider I", "steam"),
        game("Tomb Raider II", "steam"),
        game("Rise of the Tomb Raider", "epic"),
        game("Celeste", "epic"),
        game("Hollow Knight", "gog"),
        game("TOEM", "epic"),
        game("Braid", "gog"),
        game("Hades", "epic"),
    ]
}

#[test]
fn test_tomb_raider_search() {
    let library = sample_library();
    let results = search::fuzzy_search("tomb raider", &library);
    assert!(!results.is_empty());
    let names: Vec<&str> = results.iter().map(|r| r.game.name.as_str()).collect();
    assert!(names.contains(&"Tomb Raider"));
    assert!(names.contains(&"Rise of the Tomb Raider"));
    assert!(!names.contains(&"TOEM"));
    assert!(!names.contains(&"Braid"));
}

#[test]
fn test_tomb_search_finds_tomb_raider() {
    let library = sample_library();
    let results = search::fuzzy_search("tomb", &library);
    let names: Vec<&str> = results.iter().map(|r| r.game.name.as_str()).collect();
    assert!(names.contains(&"Tomb Raider"));
}

#[test]
fn test_search_results_are_ranked_by_score() {
    let library = sample_library();
    let results = search::fuzzy_search("tomb raider", &library);
    assert_eq!(results[0].game.name, "Tomb Raider");
    for window in results.windows(2) {
        assert!(window[0].score >= window[1].score);
    }
}

#[test]
fn test_search_empty_query() {
    let library = sample_library();
    let results = search::fuzzy_search("", &library);
    assert_eq!(results.len(), library.len());
}

#[test]
fn test_search_no_matches() {
    let library = sample_library();
    let results = search::fuzzy_search("zzzznotarealgame", &library);
    assert!(results.is_empty());
}

#[test]
fn test_search_empty_library() {
    let empty: Vec<Game> = Vec::new();
    let results = search::fuzzy_search("test", &empty);
    assert!(results.is_empty());
}

#[test]
fn test_search_case_insensitive() {
    let library = sample_library();
    let results = search::fuzzy_search("CELESTE", &library);
    let names: Vec<&str> = results.iter().map(|r| r.game.name.as_str()).collect();
    assert!(names.contains(&"Celeste"));
}

#[test]
fn test_match_indices_populated() {
    let library = sample_library();
    let results = search::fuzzy_search("celeste", &library);
    let celeste = results.iter().find(|r| r.game.name == "Celeste").unwrap();
    assert!(!celeste.match_indices.is_empty());
}

#[test]
fn empty_query_keeps_library_order_with_score_zero() {
    let library = sample_library();
    let results = search::fuzzy_search("", &library);
    for (r, g) in results.iter().zip(library.iter()) {
        assert_eq!(r.game.name, g.name);
        assert_eq!(r.score, 0);
        assert!(r.match_indices.is_empty());
    }
}

#[test]
fn weak_matches_are_dropped_below_three_fifths_of_the_best() {
    let library = sample_library();
    let results = search::fuzzy_search("tomb raider", &library);
    let best = results[0].score;
    for r in &results {
        assert!(r.score as u64 * 5 >= best as u64 * 3);
    }
}

#[test]
fn equal_scores_keep_library_order() {
    let library = vec![game("Hades", "steam"), game("Hades", "epic")];
    let results = search::fuzzy_search("hades", &library);
    assert_eq!(results.len(), 2);
    assert_eq!(results[0].game.platform, "steam");
    assert_eq!(results[1].game.platform, "epic");
}

#[test]
fn match_positions_index_the_matched_chars() {
    let library = vec![game("Celeste", "epic")];
    let results = search::fuzzy_search("cst", &library);
    assert_eq!(results.len(), 1);
    let mut idx = results[0].match_indices.clone();
    idx.sort_unstable();
    assert_eq!(idx, vec![0, 4, 5]);
}

#[test]
fn match_positions_of_ascii_names_lie_inside_the_name() {
    let library = sample_library();
    for query in ["tomb", "raider ii", "hk", "e"] {
        for r in search::fuzzy_search(query, &library) {
            let len = r.game.name.chars().count() as u32;
            assert!(r.match_indices.iter().all(|&i| i < len), "{} {:?}", r.game.name, r.match_indices);
        }
    }
    let results = search::fuzzy_search("hades", &library);
    let hades = results.iter().find(|r| r.game.name == "Hades").unwrap();
    let mut idx = hades.match_indices.clone();
    idx.sort();
    assert_eq!(idx, vec![0, 1, 2, 3, 4]);
}

#[test]
fn match_positions_are_char_positions_for_accented_names() {
    let library = vec![game("Poke\u{301}mon", "steam"), game("Pok\u{e9}mon Two", "gog")];
    let results = search::fuzzy_search("pokemon", &library);
    for r in &results {
        let len = r.game.name.chars().count() as u32;
        assert!(r.match_indices.iter().all(|&i| i < len), "{} {:?}", r.game.name, r.match_indices);
    }
    let combining = results.iter().find(|r| r.game.name == "Poke\u{301}mon").unwrap();
    let mut idx = combining.match_indices.clone();
    idx.sort();
    assert_eq!(idx, vec![0, 1, 2, 3, 5, 6, 7]);
}
