use set_game::card::{count_sets, find_all_sets, find_any_set, full_deck, is_set, Card, Color, Number, Shading, Shape};

#[test]
fn deck_has_81_unique_cards() {
    let deck = full_deck();
    assert_eq!(deck.len(), 81);
}

#[test]
fn detects_valid_set_all_same() {
    let c = Card {
        number: Number::One,
        color: Color::Red,
        shape: Shape::Diamond,
        shading: Shading::Solid,
    };
    assert!(is_set(&c, &c, &c));
}

#[test]
fn detects_valid_set_all_different() {
    let a = Card {
        number: Number::One,
        color: Color::Red,
        shape: Shape::Diamond,
        shading: Shading::Solid,
    };
    let b = Card {
        number: Number::Two,
        color: Color::Green,
        shape: Shape::Squiggle,
        shading: Shading::Striped,
    };
    let c = Card {
        number: Number::Three,
        color: Color::Purple,
        shape: Shape::Oval,
        shading: Shading::Empty,
    };
    assert!(is_set(&a, &b, &c));
}

#[test]
fn rejects_invalid_set() {
    let a = Card {
        number: Number::One,
        color: Color::Red,
        shape: Shape::Diamond,
        shading: Shading::Solid,
    };
    let b = Card {
        number: Number::Two,
        color: Color::Red,
        shape: Shape::Squiggle,
        shading: Shading::Striped,
    };
    let c = Card {
        number: Number::Three,
        color: Color::Purple,
        shape: Shape::Oval,
        shading: Shading::Empty,
    };
    // color is Red, Red, Purple -> two same, one different -> invalid
    assert!(!is_set(&a, &b, &c));
}

#[test]
fn every_pair_has_exactly_one_completion() {
    let deck = full_deck();
    let a = deck[3];
    let b = deck[40];
    let completions: Vec<_> = deck.iter().filter(|c| is_set(&a, &b, c)).collect();
    assert_eq!(completions.len(), 1);
}

#[test]
fn deck_is_ordered_number_color_shape_shading() {
    let deck = full_deck();
    assert_eq!(
        deck[0],
        Card { number: Number::One, color: Color::Red, shape: Shape::Diamond, shading: Shading::Solid }
    );
    assert_eq!(
        deck[40],
        Card { number: Number::Two, color: Color::Green, shape: Shape::Squiggle, shading: Shading::Striped }
    );
    assert_eq!(
        deck[80],
        Card { number: Number::Three, color: Color::Purple, shape: Shape::Oval, shading: Shading::Empty }
    );
    for i in 0..81 {
        for j in (i + 1)..81 {
            assert_ne!(deck[i], deck[j]);
        }
    }
}

#[test]
fn number_counts_symbols() {
    assert_eq!(Number::One.count(), 1);
    assert_eq!(Number::Two.count(), 2);
    assert_eq!(Number::Three.count(), 3);
}

#[test]
fn every_pair_of_deck_cards_has_exactly_one_completion() {
    let deck = full_deck();
    for i in 0..81 {
        for j in 0..81 {
            if i == j {
                continue;
            }
            let n = deck.iter().filter(|c| is_set(&deck[i], &deck[j], c)).count();
            assert_eq!(n, 1);
            let c = deck.iter().find(|c| is_set(&deck[i], &deck[j], c)).unwrap();
            assert_ne!(*c, deck[i]);
            assert_ne!(*c, deck[j]);
        }
    }
}

#[test]
fn set_order_does_not_matter() {
    let deck = full_deck();
    let (a, b, c) = (deck[0], deck[40], deck[80]);
    assert!(is_set(&a, &b, &c));
    assert!(is_set(&b, &a, &c));
    assert!(is_set(&c, &b, &a));
    assert!(is_set(&a, &c, &b));
}

#[test]
fn repeated_card_with_another_is_no_set() {
    let deck = full_deck();
    assert!(!is_set(&deck[0], &deck[0], &deck[1]));
}

#[test]
fn finds_first_set_skipping_gaps() {
    let deck = full_deck();
    // deck[0], deck[1], deck[2] differ only in shading: a Set.
    let board = vec![None, Some(deck[0]), Some(deck[1]), Some(deck[5]), Some(deck[2])];
    assert_eq!(find_any_set(&board), Some((1, 2, 4)));
    assert_eq!(find_all_sets(&board), vec![(1, 2, 4)]);
    assert_eq!(count_sets(&board), 1);
}

#[test]
fn no_set_on_empty_or_small_board() {
    let deck = full_deck();
    let empty: Vec<Option<Card>> = Vec::new();
    assert_eq!(find_any_set(&empty), None);
    assert_eq!(count_sets(&empty), 0);
    let two = vec![Some(deck[0]), Some(deck[1])];
    assert_eq!(find_any_set(&two), None);
    assert!(find_all_sets(&two).is_empty());
}

#[test]
fn lists_all_sets_in_order() {
    let deck = full_deck();
    // The first nine cards are one number and color: every shape/shading
    // combination, 12 Sets among them.
    let board: Vec<Option<Card>> = deck[0..9].iter().map(|c| Some(*c)).collect();
    let sets = find_all_sets(&board);
    assert_eq!(sets.len(), 12);
    assert_eq!(count_sets(&board), 12);
    assert_eq!(sets[0], (0, 1, 2));
    assert_eq!(find_any_set(&board), Some((0, 1, 2)));
    for w in sets.windows(2) {
        assert!(w[0] < w[1]);
    }
    for &(i, j, k) in &sets {
        assert!(is_set(&board[i].unwrap(), &board[j].unwrap(), &board[k].unwrap()));
    }
}

#[test]
fn emptying_a_slot_removes_exactly_the_sets_that_use_it() {
    let deck = full_deck();
    let mut board: Vec<Option<Card>> = deck.iter().take(15).map(|c| Some(*c)).collect();
    let all = find_all_sets(&board);
    assert!(!all.is_empty());
    for x in 0..board.len() {
        let saved = board[x];
        board[x] = None;
        let expected: Vec<(usize, usize, usize)> = all
            .iter()
            .copied()
            .filter(|t| t.0 != x && t.1 != x && t.2 != x)
            .collect();
        assert_eq!(find_all_sets(&board), expected);
        board[x] = saved;
    }
}
