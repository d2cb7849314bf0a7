use poker::card::{Card, Suit};
use poker::deck::Deck;
use poker::game::{best_hand, run_trial, simulate, Game, GameSpec, SetupError, SimulationError, Tally};
use poker::hands::HandType;

fn card(text: &str) -> Card {
    Card::from_str(text).unwrap()
}

fn cards(text: &str) -> Vec<Card> {
    text.split_whitespace().map(card).collect()
}

fn river_spec() -> GameSpec {
    GameSpec {
        board: cards("Qs Kd Jc Tc"),
        hole_cards: vec![Some((card("Qh"), card("Qd"))), Some((card("Ac"), card("As")))],
    }
}

#[test]
fn best_hand_takes_two_pair_from_hole_and_board() {
    let h = best_hand(&cards("8h 8d Ks Kd 4c 2h 3s"));
    assert_eq!(h.hand_type, HandType::TwoPair);
    assert_eq!(h.score, 13 * 65536 + 13 * 4096 + 8 * 256 + 8 * 16 + 4);
    assert_eq!(h.cards.len(), 5);
}

#[test]
fn best_hand_prefers_a_straight_over_two_pair() {
    let h = best_hand(&cards("5h 5d 6c 7d 8s 9h 9c"));
    assert_eq!(h.hand_type, HandType::Straight);
    assert_eq!(h.score, 5);
}

#[test]
fn best_hand_of_six_cards() {
    let h = best_hand(&cards("Ah Kh Qh Jh Th 2c"));
    assert_eq!(h.hand_type, HandType::StraightFlush);
    assert_eq!(h.score, 10);
}

#[test]
fn river_enumeration_gives_exact_equity() {
    let spec = river_spec();
    let mut used = spec.board.clone();
    for (a, b) in spec.hole_cards.iter().flatten() {
        used.push(*a);
        used.push(*b);
    }
    let deck = Deck::new();
    let mut wins = [0u32, 0u32];
    let mut draws = 0u32;
    let mut rivers = 0u32;
    for i in 0..52 {
        let river = *deck.draw_nth(i);
        if used.contains(&river) {
            continue;
        }
        rivers += 1;
        let mut board = spec.board.clone();
        board.push(river);
        let full = GameSpec { board, hole_cards: spec.hole_cards.clone() };
        let mut game = match Game::from_spec(&full) {
            Ok(g) => g,
            Err(e) => panic!("setup failed: {:?}", e),
        };
        game.deal_down_to_river();
        assert_eq!(game.board().len(), 5);
        let winners = game.get_winning_players_and_hands();
        if winners.len() == 1 {
            wins[winners[0].0] += 1;
        } else {
            draws += 1;
        }
    }
    assert_eq!(rivers, 44);
    // an Ace on the river puts Broadway on the board and splits the pot
    assert_eq!(wins, [10, 32]);
    assert_eq!(draws, 2);
}

#[test]
fn setup_deals_missing_cards_and_keeps_known_ones() {
    let spec = GameSpec {
        board: cards("Qs Kd Jc"),
        hole_cards: vec![None, Some((card("Ac"), card("As"))), None],
    };
    let mut game = match Game::from_spec(&spec) {
        Ok(g) => g,
        Err(e) => panic!("setup failed: {:?}", e),
    };
    assert_eq!(game.hole_cards().len(), 3);
    assert_eq!(game.hole_cards()[1], (card("Ac"), card("As")));
    assert_eq!(game.cards_left(), 52 - 3 - 6);
    game.deal_down_to_river();
    assert_eq!(game.board().len(), 5);
    assert_eq!(game.board()[0], card("Qs"));
    assert_eq!(game.cards_left(), 52 - 5 - 6);
    let mut seen: Vec<Card> = game.board().clone();
    for (a, b) in game.hole_cards() {
        seen.push(*a);
        seen.push(*b);
    }
    for i in 0..seen.len() {
        for j in (i + 1)..seen.len() {
            assert_ne!(seen[i], seen[j]);
        }
    }
    let hands = game.get_player_hands();
    assert_eq!(hands.len(), 3);
}

#[test]
fn duplicate_card_fails_setup() {
    let spec = GameSpec {
        board: cards("Qs Kd Jc"),
        hole_cards: vec![Some((card("Qs"), card("Qd")))],
    };
    assert!(matches!(Game::from_spec(&spec), Err(SetupError::DuplicateCard)));
    match simulate(&spec, 10) {
        Err(e) => assert_eq!(e, SimulationError::Setup(SetupError::DuplicateCard)),
        Ok(_) => panic!("a duplicate card must fail"),
    }
}

#[test]
fn setup_errors_in_order() {
    let long = GameSpec { board: cards("2c 3c 4c 5c 6c 7c"), hole_cards: vec![None] };
    assert!(matches!(Game::from_spec(&long), Err(SetupError::BoardTooLong)));
    let crowd = GameSpec { board: vec![], hole_cards: vec![None; 24] };
    assert!(matches!(Game::from_spec(&crowd), Err(SetupError::TooManyPlayers)));
    let most = GameSpec { board: vec![], hole_cards: vec![None; 23] };
    assert!(Game::from_spec(&most).is_ok());
    let bad = GameSpec {
        board: vec![Card { rank: 1, suit: Suit::Clubs }],
        hole_cards: vec![None],
    };
    assert!(matches!(Game::from_spec(&bad), Err(SetupError::InvalidCard)));
    match simulate(&GameSpec { board: vec![], hole_cards: vec![] }, 5) {
        Err(e) => assert_eq!(e, SimulationError::NoPlayers),
        Ok(_) => panic!("no players must fail"),
    }
}

#[test]
fn simulation_counts_every_trial_once() {
    let tally = match simulate(&river_spec(), 200) {
        Ok(t) => t,
        Err(e) => panic!("simulation failed: {:?}", e),
    };
    assert_eq!(tally.trials, 200);
    assert_eq!(tally.wins.len(), 2);
    assert_eq!(tally.wins.iter().sum::<u64>() + tally.draws, 200);
}

#[test]
fn tally_records_single_winner_or_draw() {
    let mut t = Tally::new(2);
    let spec = GameSpec {
        board: cards("2c 3c 4c 5c 9d"),
        hole_cards: vec![Some((card("6c"), card("Kd"))), Some((card("Ah"), card("As")))],
    };
    let game = match Game::from_spec(&spec) {
        Ok(g) => g,
        Err(e) => panic!("setup failed: {:?}", e),
    };
    let winners = game.get_winning_players_and_hands();
    assert_eq!(winners.len(), 1);
    assert_eq!(winners[0].0, 0);
    t.record_outcome(Some(winners[0].0));
    assert_eq!(t.wins, vec![1, 0]);
    assert_eq!((t.draws, t.trials), (0, 1));
    let split = GameSpec {
        board: cards("Ah Kh Qh Jh Th"),
        hole_cards: vec![Some((card("2c"), card("3d"))), Some((card("4s"), card("5d")))],
    };
    let game = match Game::from_spec(&split) {
        Ok(g) => g,
        Err(e) => panic!("setup failed: {:?}", e),
    };
    let winners = game.get_winning_players_and_hands();
    assert_eq!(winners.len(), 2);
    t.record_outcome(None);
    assert_eq!(t.wins, vec![1, 0]);
    assert_eq!((t.draws, t.trials), (1, 2));
}

fn order_with_front(spec: &GameSpec, front: &[Card]) -> Vec<Card> {
    let mut deck = Deck::new();
    for c in spec.board.iter() {
        deck.remove(*c).unwrap();
    }
    for (a, b) in spec.hole_cards.iter().flatten() {
        deck.remove(*a).unwrap();
        deck.remove(*b).unwrap();
    }
    for c in front {
        deck.remove(*c).unwrap();
    }
    let mut order = front.to_vec();
    order.extend(deck.into_cards());
    order
}

#[test]
fn run_trial_deals_the_river_from_the_front() {
    let spec = river_spec();
    assert_eq!(run_trial(&spec, order_with_front(&spec, &[card("Kh")])), Some(0));
    assert_eq!(run_trial(&spec, order_with_front(&spec, &[card("9h")])), Some(1));
    assert_eq!(run_trial(&spec, order_with_front(&spec, &[card("Ad")])), None);
}

#[test]
fn run_trial_deals_unknown_hole_cards_first() {
    let spec = GameSpec {
        board: cards("2c 3c 4c 5c 9d"),
        hole_cards: vec![None, Some((card("Ah"), card("As")))],
    };
    // the unknown player takes the first two cards
    let flush = order_with_front(&spec, &[card("6c"), card("7h")]);
    assert_eq!(flush.len(), 52 - 5 - 2);
    assert_eq!(run_trial(&spec, flush), Some(0));
    let high = order_with_front(&spec, &[card("Kd"), card("7h")]);
    assert_eq!(run_trial(&spec, high), Some(1));
}

#[test]
fn best_hand_of_eight_cards() {
    let h = best_hand(&cards("2c 7d 9s Jh Js Jd Jc 4h"));
    assert_eq!(h.hand_type, HandType::Quads);
    assert_eq!(h.score, 11 * 65536 + 11 * 4096 + 11 * 256 + 11 * 16 + 9);
}
