use set_game::card::{self, full_deck, Card};
use set_game::game::Game;

fn cards_in_play(game: &Game) -> usize {
    game.board.iter().filter(|c| c.is_some()).count() + game.deck.len()
}

fn run_to_completion(static_mode: bool) {
    for _ in 0..20 {
        let mut game = Game::new(static_mode);
        let mut iterations = 0;
        while !game.is_over() {
            iterations += 1;
            assert!(
                iterations < 200,
                "game did not terminate within a reasonable number of rounds"
            );

            let (i, j, k) = card::find_any_set(&game.board)
                .expect("is_over() was false, so a Set must exist on the board");

            let cards_before = cards_in_play(&game);
            assert!(game.try_claim(i, j, k), "find_any_set returned a non-Set");
            let cards_after = cards_in_play(&game);
            assert_eq!(
                cards_before - 3,
                cards_after,
                "claimed Sets should be removed from play, not recycled"
            );

            // An invalid claim (reusing indices 0,0,1) must never succeed or panic,
            // and must never mutate the board.
            if game.board.len() >= 2 {
                let board_snapshot = game.board.clone();
                let claimed = game.try_claim(0, 0, 1);
                assert!(!claimed, "duplicate indices should never count as a Set");
                assert_eq!(board_snapshot, game.board);
            }
        }
        assert!(card::find_any_set(&game.board).is_none());
    }
}

#[test]
fn playing_to_completion_never_panics_and_terminates() {
    run_to_completion(false);
}

#[test]
fn playing_to_completion_in_static_mode_never_panics_and_terminates() {
    run_to_completion(true);
}

#[test]
fn static_mode_never_shrinks_or_reorders_the_board() {
    let mut game = Game::new(true);
    let (i, j, k) = card::find_any_set(&game.board).unwrap();
    let claimed_cards = [game.board[i], game.board[j], game.board[k]];
    let other_cards: Vec<Option<Card>> = game
        .board
        .iter()
        .enumerate()
        .filter(|(idx, _)| ![i, j, k].contains(idx))
        .map(|(_, c)| *c)
        .collect();
    let board_len_before = game.board.len();

    assert!(game.try_claim(i, j, k));

    assert!(game.board.len() >= board_len_before);
    assert_ne!([game.board[i], game.board[j], game.board[k]], claimed_cards);
    let remaining_other_cards: Vec<Option<Card>> = game
        .board
        .iter()
        .take(board_len_before)
        .enumerate()
        .filter(|(idx, _)| ![i, j, k].contains(idx))
        .map(|(_, c)| *c)
        .collect();
    assert_eq!(other_cards, remaining_other_cards);
}

/// The ordered deck dealt from its end: the board starts with the last
/// twelve cards, last card first.
#[test]
fn with_deck_deals_from_the_end() {
    let deck = full_deck();
    let game = Game::with_deck(deck.clone(), false);
    assert_eq!(game.board.len(), 12);
    assert_eq!(game.deck.len(), 69);
    for t in 0..12 {
        assert_eq!(game.board[t], Some(deck[80 - t]));
    }
    assert_eq!(game.new_indices, (0..12).collect::<Vec<usize>>());
    assert_eq!(game.found_sets, 0);
    assert_eq!(game.attempts, 0);
}

/// A board with no Set is dealt three more cards at a time.
#[test]
fn with_deck_deals_more_until_a_set_appears() {
    let full = full_deck();
    // Twelve cards with no Set among them, dealt first (from the end),
    // then three that complete a Set with two of them.
    let no_set: Vec<Card> = {
        let mut chosen: Vec<Card> = Vec::new();
        for c in &full {
            let mut ok = true;
            for a in 0..chosen.len() {
                for b in (a + 1)..chosen.len() {
                    if card::is_set(&chosen[a], &chosen[b], c) {
                        ok = false;
                    }
                }
            }
            if ok && chosen.len() < 12 {
                chosen.push(*c);
            }
        }
        chosen
    };
    assert_eq!(no_set.len(), 12);
    let extra: Vec<Card> = full.iter().filter(|c| !no_set.contains(c)).take(3).cloned().collect();
    let mut deck: Vec<Card> = extra.clone();
    deck.extend(no_set.iter().rev());
    let game = Game::with_deck(deck, false);
    assert!(card::find_any_set(&game.board).is_some() || game.deck.is_empty());
    assert!(game.board.len() >= 12);
    assert_eq!(game.board.len() % 3, 0);
    assert_eq!(game.board.len() + game.deck.len(), 15);
}

#[test]
fn failed_claim_only_counts_the_attempt() {
    let mut game = Game::with_deck(full_deck(), false);
    let board = game.board.clone();
    let deck = game.deck.clone();
    // Slots 0 and 1 hold the last two ordered cards; find a third that
    // does not complete them.
    let k = (2..game.board.len())
        .find(|&x| !card::is_set(&board[0].unwrap(), &board[1].unwrap(), &board[x].unwrap()))
        .unwrap();
    assert!(!game.try_claim(0, 1, k));
    assert_eq!(game.attempts, 1);
    assert_eq!(game.found_sets, 0);
    assert_eq!(game.board, board);
    assert_eq!(game.deck, deck);
}

#[test]
fn default_mode_replaces_claimed_slots_from_the_deck() {
    let mut game = Game::with_deck(full_deck(), false);
    let (i, j, k) = card::find_any_set(&game.board).unwrap();
    let deck_before = game.deck.clone();
    assert!(game.try_claim(i, j, k));
    assert_eq!(game.found_sets, 1);
    assert_eq!(game.attempts, 1);
    assert_eq!(game.board.len(), 12);
    // Highest slot first, each from the end of the deck.
    let n = deck_before.len();
    assert_eq!(game.board[k], Some(deck_before[n - 1]));
    assert_eq!(game.board[j], Some(deck_before[n - 2]));
    assert_eq!(game.board[i], Some(deck_before[n - 3]));
    assert_eq!(game.new_indices[..3].to_vec(), vec![k, j, i]);
    assert!(game.board.iter().all(|c| c.is_some()));
}

#[test]
fn static_mode_leaves_gaps_while_a_set_remains() {
    let mut game = Game::with_deck(full_deck(), true);
    let (i, j, k) = card::find_any_set(&game.board).unwrap();
    let deck_len = game.deck.len();
    assert!(game.try_claim(i, j, k));
    if card::find_any_set(&game.board).is_some() && game.board[i].is_none() {
        assert_eq!(game.board[j], None);
        assert_eq!(game.board[k], None);
        assert_eq!(game.deck.len(), deck_len);
        assert!(game.new_indices.is_empty());
    }
    assert!(card::find_any_set(&game.board).is_some() || game.deck.is_empty());
}

#[test]
fn is_over_when_deck_empty_and_no_set() {
    let mut game = Game::with_deck(full_deck(), false);
    assert!(!game.is_over());
    game.deck.clear();
    game.board = vec![Some(full_deck()[0]), Some(full_deck()[1])];
    assert!(game.is_over());
}

#[test]
fn new_game_deals_from_a_shuffled_deck() {
    let ordered = Game::with_deck(full_deck(), false);
    let mut differs = false;
    for _ in 0..5 {
        let game = Game::new(false);
        let mut all: Vec<Card> = game.deck.clone();
        all.extend(game.board.iter().map(|c| c.unwrap()));
        assert_eq!(all.len(), 81);
        for c in full_deck() {
            assert_eq!(all.iter().filter(|x| **x == c).count(), 1);
        }
        if game.board != ordered.board {
            differs = true;
        }
    }
    assert!(differs);
}

#[test]
fn naming_one_slot_three_times_never_claims() {
    let mut game = Game::new(false);
    let board = game.board.clone();
    let deck = game.deck.clone();
    assert!(!game.try_claim(0, 0, 0));
    assert!(!game.try_claim(2, 1, 2));
    assert_eq!(game.attempts, 2);
    assert_eq!(game.found_sets, 0);
    assert_eq!(game.board, board);
    assert_eq!(game.deck, deck);
}

fn play_out_counting_claims(static_mode: bool) -> usize {
    let mut game = Game::new(static_mode);
    assert_eq!(game.deck.len() % 3, 0);
    let mut claims = 0;
    while !game.is_over() {
        let (i, j, k) = card::find_any_set(&game.board).unwrap();
        assert!(game.try_claim(i, j, k));
        claims += 1;
        assert_eq!(game.deck.len() % 3, 0);
        assert_eq!(game.board.len() % 3, 0);
        assert_eq!(cards_in_play(&game) % 3, 0);
    }
    assert!(game.deck.is_empty());
    assert!(card::find_any_set(&game.board).is_none());
    claims
}

#[test]
fn a_played_out_game_ends_within_27_claims_with_the_deck_in_threes() {
    for _ in 0..10 {
        assert!(play_out_counting_claims(false) <= 27);
        assert!(play_out_counting_claims(true) <= 27);
    }
}
