use set_game::players::{validate_name, Players};

#[test]
fn rejects_name_starting_with_digit() {
    assert!(validate_name("1Alice").is_err());
}

#[test]
fn rejects_empty_name() {
    assert!(validate_name("   ").is_err());
}

#[test]
fn accepts_normal_name() {
    assert!(validate_name("Alice").is_ok());
}

#[test]
fn rejects_duplicate_registration_case_insensitively() {
    let mut players = Players::new();
    players.register("Alice").unwrap();
    assert!(players.register("alice").is_err());
}

#[test]
fn finds_player_by_case_insensitive_prefix() {
    let mut players = Players::new();
    players.register("Alice").unwrap();
    players.register("Bob").unwrap();
    assert_eq!(players.find_by_prefix("al").unwrap(), 0);
    assert_eq!(players.find_by_prefix("AL").unwrap(), 0);
    assert_eq!(players.find_by_prefix("bob").unwrap(), 1);
}

#[test]
fn exact_match_wins_over_ambiguous_prefix() {
    let mut players = Players::new();
    players.register("Al").unwrap();
    players.register("Albert").unwrap();
    assert_eq!(players.find_by_prefix("al").unwrap(), 0);
}

#[test]
fn ambiguous_prefix_is_rejected() {
    let mut players = Players::new();
    players.register("Alice").unwrap();
    players.register("Alistair").unwrap();
    assert!(players.find_by_prefix("ali").is_err());
}

#[test]
fn unknown_prefix_is_rejected() {
    let mut players = Players::new();
    players.register("Alice").unwrap();
    assert!(players.find_by_prefix("zzz").is_err());
}

#[test]
fn scoreboard_sorts_by_score_descending_then_name() {
    let mut players = Players::new();
    players.register("Alice").unwrap();
    players.register("Bob").unwrap();
    players.register("Cara").unwrap();
    players.add_score(1); // Bob: 1
    players.add_score(2); // Cara: 1
    players.add_score(2); // Cara: 2
    assert_eq!(
        players.scoreboard(),
        vec![("Cara", 2), ("Bob", 1), ("Alice", 0)]
    );
}

#[test]
fn validation_messages() {
    assert_eq!(validate_name("   ").unwrap_err(), "Player name cannot be empty.");
    assert_eq!(
        validate_name(" 7up ").unwrap_err(),
        "Player name \"7up\" cannot start with a number."
    );
    assert_eq!(validate_name("\u{2003}Zoë\t"), Ok(()));
}

#[test]
fn registration_trims_and_reports_duplicates() {
    let mut players = Players::new();
    assert!(players.is_empty());
    players.register("  Alice \n").unwrap();
    assert!(!players.is_empty());
    assert_eq!(players.names(), &["Alice".to_string()]);
    assert_eq!(players.name(0), "Alice");
    assert_eq!(players.score(0), 0);
    assert_eq!(
        players.register("ALICE").unwrap_err(),
        "Player \"ALICE\" is already registered."
    );
    assert_eq!(players.register("").unwrap_err(), "Player name cannot be empty.");
    assert_eq!(players.names().len(), 1);
}

#[test]
fn lookup_messages() {
    let mut players = Players::new();
    players.register("Alice").unwrap();
    players.register("Alistair").unwrap();
    assert_eq!(players.find_by_prefix("  ").unwrap_err(), "Please enter a player name.");
    assert_eq!(
        players.find_by_prefix("zed").unwrap_err(),
        "No registered player matches \"zed\"."
    );
    assert_eq!(
        players.find_by_prefix(" ali ").unwrap_err(),
        "\"ali\" matches multiple players (Alice, Alistair); be more specific."
    );
    assert_eq!(players.find_by_prefix("alis").unwrap(), 1);
    assert_eq!(players.find_by_prefix("  aLiCe  ").unwrap(), 0);
}

#[test]
fn prefix_lookup_uses_unicode_lowercase() {
    let mut players = Players::new();
    players.register("Émile").unwrap();
    players.register("Eve").unwrap();
    assert_eq!(players.find_by_prefix("émi").unwrap(), 0);
    assert_eq!(players.find_by_prefix("ÉM").unwrap(), 0);
}

#[test]
fn registered_player_is_found_by_own_name() {
    let mut players = Players::new();
    for name in ["Al", "Albert", "Bo", "bob b"] {
        players.register(name).unwrap();
    }
    assert_eq!(players.find_by_prefix("Al").unwrap(), 0);
    assert_eq!(players.find_by_prefix("Albert").unwrap(), 1);
    assert_eq!(players.find_by_prefix("Bo").unwrap(), 2);
    assert_eq!(players.find_by_prefix(" BOB B ").unwrap(), 3);
}

#[test]
fn add_score_counts_one_player() {
    let mut players = Players::new();
    players.register("Ann").unwrap();
    players.register("Ben").unwrap();
    players.add_score(0);
    players.add_score(0);
    assert_eq!(players.score(0), 2);
    assert_eq!(players.score(1), 0);
    assert_eq!(players.scoreboard(), vec![("Ann", 2), ("Ben", 0)]);
}

#[test]
fn scoreboard_ties_are_alphabetical() {
    let mut players = Players::new();
    for name in ["dora", "Carl", "bea", "Abe"] {
        players.register(name).unwrap();
    }
    assert_eq!(
        players.scoreboard(),
        vec![("Abe", 0), ("bea", 0), ("Carl", 0), ("dora", 0)]
    );
}

#[test]
fn scoreboard_ties_ignore_letter_case() {
    let mut players = Players::new();
    players.register("alice").unwrap();
    players.register("Bob").unwrap();
    assert_eq!(players.scoreboard(), vec![("alice", 0), ("Bob", 0)]);
    players.add_score(1);
    assert_eq!(players.scoreboard(), vec![("Bob", 1), ("alice", 0)]);
}

#[test]
fn every_stored_name_finds_its_own_player_later() {
    let mut players = Players::new();
    for name in ["  Al ", "Alice", "Alfred", "bo"] {
        players.register(name).unwrap();
    }
    assert!(players.register("ALICE").is_err());
    players.add_score(2);
    for i in 0..players.names().len() {
        let name = players.names()[i].clone();
        assert_eq!(players.find_by_prefix(&name), Ok(i));
        assert_eq!(players.find_by_prefix(&name.to_ascii_uppercase()), Ok(i));
        assert_eq!(players.find_by_prefix(&format!(" {} ", name.to_ascii_lowercase())), Ok(i));
    }
}
