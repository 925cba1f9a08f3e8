use set_game::card;
use set_game::game::Game;
use set_game::players::Players;
use set_game::turn::{add_player, claim_for};

#[test]
fn adding_the_first_player_turns_team_mode_on() {
    let mut roster = Players::new();
    let mut team_mode = false;
    assert_eq!(add_player(&mut roster, &mut team_mode, " Ann "), Ok(true));
    assert!(team_mode);
    assert_eq!(add_player(&mut roster, &mut team_mode, "Ben"), Ok(false));
    assert!(team_mode);
    assert_eq!(
        add_player(&mut roster, &mut team_mode, "ann"),
        Err("Player \"ann\" is already registered.".to_string())
    );
    let mut off = false;
    assert_eq!(
        add_player(&mut roster, &mut off, "9lives"),
        Err("Player name \"9lives\" cannot start with a number.".to_string())
    );
    assert!(!off);
    assert_eq!(roster.names(), &["Ann".to_string(), "Ben".to_string()]);
}

#[test]
fn only_a_successful_claim_credits_the_player() {
    let mut game = Game::new(false);
    let mut roster = Players::new();
    roster.register("Ann").unwrap();
    roster.register("Ben").unwrap();

    assert!(!claim_for(&mut game, &mut roster, Some(1), 0, 0, 1));
    assert_eq!(roster.score(1), 0);

    let (i, j, k) = card::find_any_set(&game.board).unwrap();
    assert!(claim_for(&mut game, &mut roster, Some(1), i, j, k));
    assert_eq!(roster.score(0), 0);
    assert_eq!(roster.score(1), 1);
    assert_eq!(game.found_sets, 1);
    assert_eq!(game.attempts, 2);

    let (i, j, k) = card::find_any_set(&game.board).unwrap();
    assert!(claim_for(&mut game, &mut roster, None, i, j, k));
    assert_eq!(roster.score(0), 0);
    assert_eq!(roster.score(1), 1);
    assert_eq!(game.found_sets, 2);
}
