use holdem_server::cards::Card;
use holdem_server::game::{
    apply_lobby_message, disconnected_player_response, fresh_shuffled_deck,
    interpret_turn_message, lobby_all_ready, Game,
};
use holdem_server::messages::{PlayerChoice, RawMessage};
use holdem_server::player::{Player, PlayerCommunication};

fn fresh_game(n: usize, blind: usize, money: usize) -> Game {
    let mut players = Vec::new();
    for i in 0..n {
        players.push(Player::new(format!("p{}", i), i));
    }
    let mut g = Game::new(players);
    g.init(blind, money);
    g
}

fn total_on_table(g: &Game) -> usize {
    g.players
        .iter()
        .map(|p| p.coins() + p.current_betting_amount())
        .sum()
}

/// After a clamp the bet is a blind multiple or an all-in, at least the
/// floor, and never more than the seat's chips.
#[test]
fn test_bet_clamp_invariants() {
    // rounded up to the next blind multiple
    let mut p = Player::new("a".to_string(), 0);
    p.set_coins(100);
    Game::try_set_player_bet(3, &mut p, 10, 0);
    assert_eq!(p.current_betting_amount(), 12);
    assert_eq!(p.coins(), 88);
    assert_eq!(p.current_betting_amount() % 3, 0);

    // an exact multiple stays
    let mut p = Player::new("a".to_string(), 0);
    p.set_coins(100);
    Game::try_set_player_bet(3, &mut p, 9, 0);
    assert_eq!(p.current_betting_amount(), 9);

    // capped by the chips: all-in short of the floor
    let mut p = Player::new("a".to_string(), 0);
    p.set_coins(5);
    Game::try_set_player_bet(3, &mut p, 100, 0);
    assert_eq!(p.current_betting_amount(), 5);
    assert_eq!(p.coins(), 0);

    // raised to the table's highest bet
    let mut p = Player::new("a".to_string(), 0);
    p.set_coins(100);
    Game::try_set_player_bet(3, &mut p, 0, 20);
    assert_eq!(p.current_betting_amount(), 21);

    // a request below the already-posted bet keeps the posted bet
    let mut p = Player::new("a".to_string(), 0);
    p.set_coins(50);
    p.deduct_from_money_to_bet(10);
    Game::try_set_player_bet(5, &mut p, 0, 0);
    assert_eq!(p.current_betting_amount(), 10);
    assert_eq!(p.coins(), 40);
}

/// Re-betting rolls the posted bet back before moving the new amount.
#[test]
fn test_deduct_from_money_to_bet() {
    let mut p = Player::new("a".to_string(), 0);
    p.set_coins(50);
    p.deduct_from_money_to_bet(10);
    assert_eq!((p.coins(), p.current_betting_amount()), (40, 10));
    p.deduct_from_money_to_bet(30);
    assert_eq!((p.coins(), p.current_betting_amount()), (20, 30));
}

/// Collecting a bet refunds anything over the cap.
#[test]
fn test_take_betting_amount() {
    let mut p = Player::new("a".to_string(), 0);
    p.set_coins(100);
    p.deduct_from_money_to_bet(30);
    let taken = p.take_betting_amount(20);
    assert_eq!(taken, 20);
    assert_eq!(p.coins(), 80);
    assert_eq!(p.current_betting_amount(), 0);
}

/// Chips on the table are conserved across a hand's settlement, and the
/// winner's credit is the sum of the others' matched contributions.
#[test]
fn test_pot_conservation() {
    let mut g = fresh_game(3, 1, 100);
    g.players[0].deduct_from_money_to_bet(30);
    g.players[1].deduct_from_money_to_bet(50);
    g.players[2].deduct_from_money_to_bet(20);
    assert_eq!(total_on_table(&g), 300);
    g.early_end(Some(0));
    assert_eq!(total_on_table(&g), 300);
    // the winner gets at most its own bet from each seat
    assert_eq!(g.players[0].coins(), 70 + 30 + 30 + 20);
    assert_eq!(g.players[1].coins(), 50 + 20);
    assert_eq!(g.players[2].coins(), 80);
    assert!(g.players.iter().all(|p| p.current_betting_amount() == 0));
}

/// With no survivor every bet flows back.
#[test]
fn test_refund_on_no_survivor() {
    let mut g = fresh_game(3, 1, 100);
    g.players[0].deduct_from_money_to_bet(30);
    g.players[1].deduct_from_money_to_bet(50);
    g.early_end(None);
    assert_eq!(total_on_table(&g), 300);
    assert!(g.players.iter().all(|p| p.coins() == 100));
    assert!(g.players.iter().all(|p| p.current_betting_amount() == 0));
}

/// After every full dealer cycle through seat 0, the small blind doubles
/// exactly once.
#[test]
fn test_blind_escalation() {
    let mut g = fresh_game(3, 5, 100);
    assert_eq!(g.dealer, 0);
    g.move_dealer_and_increase_blind();
    assert_eq!((g.dealer, g.small_blind), (1, 5));
    g.move_dealer_and_increase_blind();
    assert_eq!((g.dealer, g.small_blind), (2, 5));
    g.move_dealer_and_increase_blind();
    assert_eq!((g.dealer, g.small_blind), (0, 10));
    for _ in 0..3 {
        g.move_dealer_and_increase_blind();
    }
    assert_eq!((g.dealer, g.small_blind), (0, 20));
}

/// The dealer button skips seats that are out.
#[test]
fn test_dealer_skips_out_seats() {
    let mut g = fresh_game(3, 1, 100);
    g.players[1].is_out = true;
    g.move_dealer_and_increase_blind();
    assert_eq!(g.dealer, 2);
}

/// The round's players run clockwise from the dealer, the dealer last,
/// with folded and out seats skipped.
#[test]
fn test_qualified_players_order() {
    let mut g = fresh_game(4, 1, 100);
    g.players[2].has_folded = true;
    g.get_qualified_players();
    assert_eq!(g.players_in_round, vec![1, 3, 0]);
    g.dealer = 2;
    g.get_qualified_players();
    assert_eq!(g.players_in_round, vec![3, 0, 1]);
}

/// The game ends when fewer than two seats can still win.
#[test]
fn test_determine_end_and_game_winner() {
    let mut g = fresh_game(3, 1, 100);
    assert_eq!(g.determine_end_and_game_winner(), None);
    g.players[0].is_out = true;
    assert_eq!(g.determine_end_and_game_winner(), None);
    g.players[2].shutdown();
    assert_eq!(g.determine_end_and_game_winner(), Some(Some(1)));
    g.players[1].is_out = true;
    assert_eq!(g.determine_end_and_game_winner(), Some(None));
}

/// A fresh deck holds every card exactly once.
#[test]
fn test_fresh_deck_is_complete() {
    let deck = fresh_shuffled_deck();
    assert_eq!(deck.len(), 52);
    let mut values: Vec<u8> = deck.iter().map(|c| c.value).collect();
    values.sort();
    let expected: Vec<u8> = (0u8..52).collect();
    assert_eq!(values, expected);
}

/// Round 0 deals two cards to every seat in the round and posts the two
/// blinds under the usual clamp.
#[test]
fn test_init_round_0() {
    let mut g = fresh_game(3, 2, 100);
    g.get_qualified_players();
    assert_eq!(g.players_in_round, vec![1, 2, 0]);
    g.init_round_0();
    assert_eq!(g.card_stack.len(), 46);
    assert_eq!(g.open_middle_cards.len(), 0);
    for p in &g.players {
        assert_eq!(p.cards.len(), 2);
    }
    assert_eq!(g.players[1].current_betting_amount(), 2);
    assert_eq!(g.players[2].current_betting_amount(), 4);
    assert_eq!(g.players[0].current_betting_amount(), 0);
    assert_eq!(total_on_table(&g), 300);
}

/// A tie at showdown pays nobody: every bet is refunded.
#[test]
fn test_showdown_tie_refunds() {
    let mut g = fresh_game(2, 1, 100);
    g.get_qualified_players();
    // the board itself is a straight flush; both hole hands lose to it
    g.open_middle_cards = vec![
        Card { value: 32 },
        Card { value: 33 },
        Card { value: 34 },
        Card { value: 35 },
        Card { value: 36 },
    ];
    g.players[0].cards = vec![Card { value: 0 }, Card { value: 14 }];
    g.players[1].cards = vec![Card { value: 41 }, Card { value: 3 }];
    g.players[0].deduct_from_money_to_bet(40);
    g.players[1].deduct_from_money_to_bet(40);
    let (winner, too_many) = g.showdown_evaluate();
    assert!(too_many);
    assert!(winner.is_some());
    assert_eq!(g.players[0].end_of_round_values, g.players[1].end_of_round_values);
    g.payout(winner, too_many);
    assert_eq!(g.players[0].coins(), 100);
    assert_eq!(g.players[1].coins(), 100);
    assert_eq!(total_on_table(&g), 200);
}

/// A sole best hand collects the pot at showdown.
#[test]
fn test_showdown_single_winner() {
    let mut g = fresh_game(2, 1, 100);
    g.get_qualified_players();
    g.open_middle_cards = vec![
        Card { value: 0 },
        Card { value: 14 },
        Card { value: 3 },
        Card { value: 30 },
        Card { value: 47 },
    ];
    // seat 0 pairs the board's deuce; seat 1 holds junk
    g.players[0].cards = vec![Card { value: 13 }, Card { value: 24 }];
    g.players[1].cards = vec![Card { value: 6 }, Card { value: 20 }];
    g.players[0].deduct_from_money_to_bet(25);
    g.players[1].deduct_from_money_to_bet(25);
    let (winner, too_many) = g.showdown_evaluate();
    assert!(!too_many);
    let w = winner.unwrap();
    g.payout(winner, too_many);
    assert_eq!(g.players[w].coins(), 125);
    assert_eq!(total_on_table(&g), 200);
}

/// Anything but a raise or a pass folds the seat in a betting phase.
#[test]
fn test_apply_bet_response() {
    let mut g = fresh_game(3, 1, 100);
    g.get_qualified_players();
    g.apply_bet_response(0, RawMessage::PlayerChoice(PlayerChoice::RaiseTo(10)));
    let first = g.players_in_round[0];
    assert_eq!(g.players[first].current_betting_amount(), 10);
    g.apply_bet_response(1, RawMessage::PlayerChoice(PlayerChoice::Pass));
    let second = g.players_in_round[1];
    assert_eq!(g.players[second].current_betting_amount(), 10);
    g.apply_bet_response(2, RawMessage::ConnectionEnded);
    let third = g.players_in_round[2];
    assert!(g.players[third].has_folded);
}

/// Only messages from the awaited seat end its turn; a play counts as
/// itself and a lost connection ends the wait.
#[test]
fn test_interpret_turn_message() {
    let choice = RawMessage::PlayerChoice(PlayerChoice::Fold);
    let com = PlayerCommunication { sender: 2, message: choice };
    assert_eq!(
        interpret_turn_message(2, com),
        Some(RawMessage::PlayerChoice(PlayerChoice::Fold))
    );
    let com = PlayerCommunication {
        sender: 1,
        message: RawMessage::PlayerChoice(PlayerChoice::Fold),
    };
    assert_eq!(interpret_turn_message(2, com), None);
    let com = PlayerCommunication { sender: 2, message: RawMessage::ConnectionEnded };
    assert_eq!(interpret_turn_message(2, com), Some(RawMessage::ConnectionEnded));
    let com = PlayerCommunication { sender: 2, message: RawMessage::IsReady };
    assert_eq!(interpret_turn_message(2, com), None);
    assert_eq!(
        disconnected_player_response(),
        RawMessage::PlayerChoice(PlayerChoice::RaiseTo(usize::MAX))
    );
}

/// The lobby closes once at least two seats are present and all are
/// ready.
#[test]
fn test_lobby_ready() {
    let mut players = vec![
        Player::new("a".to_string(), 0),
        Player::new("b".to_string(), 1),
    ];
    assert!(!lobby_all_ready(&players));
    let start = apply_lobby_message(
        &mut players,
        0,
        RawMessage::SetDisplayName("alice".to_string()),
    );
    assert!(!start);
    assert_eq!(players[0].display_name, "alice");
    assert!(!apply_lobby_message(&mut players, 0, RawMessage::IsReady));
    assert!(apply_lobby_message(&mut players, 1, RawMessage::IsReady));
}

/// The broadcast state shows one seat its own cards and every seat's
/// public numbers; other hole cards appear only once revealed.
#[test]
fn test_build_game_status() {
    let mut g = fresh_game(2, 1, 100);
    g.players[0].cards = vec![Card { value: 5 }, Card { value: 6 }];
    g.players[1].cards = vec![Card { value: 7 }, Card { value: 8 }];
    g.players[0].deduct_from_money_to_bet(10);
    g.players[1].end_of_round_values = Some(42);
    g.round_number = 2;
    match g.build_game_status(0, Some(1), true) {
        RawMessage::GameStatus {
            personal_cards,
            personal_id,
            middle_cards,
            player_names,
            player_cards,
            player_betting_amount,
            player_money,
            player_has_folded,
            player_is_out,
            round_number,
            is_started,
            hand_winner,
            is_showdown,
        } => {
            assert_eq!(personal_cards, (Card { value: 5 }, Card { value: 6 }));
            assert_eq!(personal_id, 0);
            assert!(middle_cards.is_empty());
            assert_eq!(player_names, vec!["p0".to_string(), "p1".to_string()]);
            assert_eq!(
                player_cards,
                vec![None, Some((Card { value: 7 }, Card { value: 8 }))]
            );
            assert_eq!(player_betting_amount, vec![10, 0]);
            assert_eq!(player_money, vec![90, 100]);
            assert_eq!(player_has_folded, vec![false, false]);
            assert_eq!(player_is_out, vec![false, false]);
            assert_eq!(round_number, 2);
            assert!(is_started);
            assert_eq!(hand_winner, 1);
            assert!(is_showdown);
        }
        other => panic!("unexpected message {:?}", other),
    }
}

/// After the eighth phase the round number wraps and folds reset.
#[test]
fn test_round_progression() {
    let mut g = fresh_game(2, 1, 100);
    assert_eq!(g.round_number, 0);
    for expected in 1..8 {
        g.determine_next_round_and_move_dealer();
        assert_eq!(g.round_number, expected % 8);
    }
    g.players[0].has_folded = true;
    g.determine_next_round_and_move_dealer();
    assert_eq!(g.round_number, 0);
    assert!(!g.players[0].has_folded);
}
