use blackjack::terminal::Terminal;
use blackjack::{init_game, Action, BlackjackError, Card, Deck, Game, Phase, Player, Suits};
use rand::rngs::StdRng;
use rand::SeedableRng;

fn card(suit: Suits, rank: usize) -> Card {
    Card::new(suit, rank.into())
}

/// The bytes of a game with the given hands; every other card is in the deck.
fn game_bytes(dealer: &[Card], human: &[Card], first_turn: bool) -> Vec<u8> {
    let mut bytes = vec![if first_turn { 0b1100_0001 } else { 0b1100_0000 }];
    for c in dealer {
        bytes.push(c.to_code() | (0b01 << 6));
    }
    for c in human {
        bytes.push(c.to_code() | (0b10 << 6));
    }
    for code in 0..52u8 {
        let c = Card::from_code(code);
        if !dealer.contains(&c) && !human.contains(&c) {
            bytes.push(code);
        }
    }
    bytes
}

fn game_with(dealer: &[Card], human: &[Card], first_turn: bool) -> Game {
    Game::decode(&game_bytes(dealer, human, first_turn)).unwrap()
}

fn assert_closed(game: &Game) {
    let mut all: Vec<u8> = Vec::new();
    for c in game.computer().hand().iter().chain(game.human().hand()).chain(game.deck().cards()) {
        all.push(c.to_code());
    }
    assert_eq!(all.len(), 52);
    all.sort();
    assert_eq!(all, (0..52u8).collect::<Vec<u8>>());
}

#[test]
fn player_new() {
    let p = Player::new(vec![]);
    assert_eq!(p.hand().len(), 0);
}

#[test]
fn player_bust() {
    let mut p = Player::new(vec![
        Card::new(Suits::Clubs, 10.into()),
        Card::new(Suits::Clubs, 11.into()),
    ]);
    assert!(!p.bust());
    p.hit(Card::new(Suits::Clubs, 12.into()));
    assert!(p.bust());
}

#[test]
fn player_hit() {
    let mut p = Player::new(vec![]);
    p.hit(Card::new(Suits::Clubs, 1.into()));
    assert_eq!(p.hand(), &vec![Card::new(Suits::Clubs, 1.into())]);
}

#[test]
fn player_score() {
    let mut p = Player::new(vec![Card::new(Suits::Clubs, 5.into())]);
    assert_eq!(p.score(), 5);
    p.hit(Card::new(Suits::Diamonds, 5.into()));
    assert_eq!(p.score(), 10);
    p.hit(Card::new(Suits::Diamonds, 0.into()));
    assert_eq!(p.score(), 10);
    p.hit(Card::new(Suits::Clubs, 1.into()));
    assert_eq!(p.score(), 21);
    p.hit(Card::new(Suits::Diamonds, 1.into()));
    assert_eq!(p.score(), 12);
}

#[test]
fn soft_twenty_one() {
    let p = Player::new(vec![card(Suits::Spades, 1), card(Suits::Hearts, 13)]);
    assert_eq!(p.score(), 21);
    assert!(!p.bust());
}

#[test]
fn bust_at_twenty_two() {
    let p = Player::new(vec![card(Suits::Spades, 13), card(Suits::Hearts, 12), card(Suits::Clubs, 2)]);
    assert_eq!(p.score(), 22);
    assert!(p.bust());
}

#[test]
fn ace_promotion_examples() {
    let suits = [Suits::Clubs, Suits::Diamonds, Suits::Hearts, Suits::Spades];
    let aces = |n: usize| Player::new((0..n).map(|i| card(suits[i % 4], 1)).collect());
    assert_eq!(aces(1).score(), 11);
    assert_eq!(aces(2).score(), 12);
    assert_eq!(aces(3).score(), 13);
    assert_eq!(aces(11).score(), 21);
    assert_eq!(aces(12).score(), 12);
    assert_eq!(aces(25).score(), 25);
}

#[test]
fn ace_counts_low_when_eleven_would_bust() {
    let p = Player::new(vec![card(Suits::Clubs, 1), card(Suits::Clubs, 9), card(Suits::Clubs, 5)]);
    assert_eq!(p.score(), 15);
    let p = Player::new(vec![card(Suits::Clubs, 1), card(Suits::Clubs, 9)]);
    assert_eq!(p.score(), 20);
}

#[test]
fn player_display() {
    let p = Player::new(vec![card(Suits::Hearts, 4), card(Suits::Spades, 1)]);
    assert_eq!(p.to_string(), "\u{1F0B4} Four of Hearts\n\u{1F0A1} Ace of Spades\n");
}

#[test]
fn deck_hit() {
    let mut rng = StdRng::seed_from_u64(1);
    let mut deck = Deck::new();
    let mut player = Player::new(vec![]);

    assert_eq!(player.hand().len(), 0);
    deck.hit(&mut player, &mut rng).unwrap();
    assert_eq!(player.hand().len(), 1);
    assert_eq!(deck.len(), 51);
    assert!(!deck.cards().contains(&player.hand()[0]));
}

#[test]
fn deck_hit_on_empty_deck() {
    let mut rng = StdRng::seed_from_u64(1);
    let mut deck = Deck::new_set(vec![]);
    let mut player = Player::new(vec![]);
    assert_eq!(
        deck.hit(&mut player, &mut rng),
        Err(BlackjackError::DeckUnderflow { requested: 1, remaining: 0 })
    );
    assert_eq!(player.hand().len(), 0);
}

#[test]
fn card_blackjack_value() {
    let mut deck = Deck::new();
    for c in deck.deal(52).unwrap() {
        if c.value() >= 10 {
            assert_eq!(c.blackjack_value(), 10)
        } else {
            assert_eq!(c.value() as u32, c.blackjack_value());
        }
    }
}

#[test]
fn game_new() {
    let mut rng = StdRng::seed_from_u64(2);
    let game = Game::new(&mut rng);
    assert!(game.first_turn());
    assert_eq!(game.human().hand().len(), 2);
    assert_eq!(game.computer().hand().len(), 2);
    assert_eq!(game.deck().len(), 48);
    assert_eq!(game.phase(), Phase::HumanTurn);
    assert_closed(&game);
}

#[test]
fn game_vec() {
    let mut rng = StdRng::seed_from_u64(4);
    let game = Game::new(&mut rng);
    let v: Vec<u8> = game.encode();
    let vgame = Game::decode(&v).unwrap();
    assert_eq!(game, vgame);
}

#[test]
fn round_trip_after_play() {
    for seed in 0..20 {
        let mut rng = StdRng::seed_from_u64(seed);
        let mut game = Game::new(&mut rng);
        game.take_action(Action::Hit, &mut rng).unwrap();
        if game.first_turn() {
            game.take_action(Action::Stand, &mut rng).unwrap();
        }
        game.cpu_turn(&mut rng).unwrap();
        let bytes = game.encode();
        let back = Game::decode(&bytes).unwrap();
        assert_eq!(back, game);
        assert_eq!(back.encode(), bytes);
    }
}

#[test]
fn closed_system_through_play() {
    for seed in 0..30 {
        let mut rng = StdRng::seed_from_u64(seed);
        let mut game = Game::new(&mut rng);
        assert_closed(&game);
        while game.first_turn() {
            let action = if game.human().score() < 17 { Action::Hit } else { Action::Stand };
            game.take_action(action, &mut rng).unwrap();
            assert_closed(&game);
        }
        game.cpu_turn(&mut rng).unwrap();
        assert_closed(&game);
        assert!(game.computer().score() > 16);
        assert_eq!(game.phase(), Phase::Resolved);
    }
}

#[test]
fn hit_draws_one_card() {
    let mut rng = StdRng::seed_from_u64(9);
    let mut game = game_with(&[card(Suits::Clubs, 10), card(Suits::Clubs, 7)], &[card(Suits::Hearts, 2), card(Suits::Hearts, 3)], true);
    game.take_action(Action::Hit, &mut rng).unwrap();
    assert_eq!(game.human().hand().len(), 3);
    assert_eq!(game.deck().len(), 47);
    // 2 + 3 + at most 11 cannot bust: still the human's turn.
    assert!(game.first_turn());
}

#[test]
fn hit_into_bust_ends_turn() {
    let mut rng = StdRng::seed_from_u64(5);
    let mut game = game_with(
        &[card(Suits::Clubs, 10), card(Suits::Clubs, 7)],
        &[card(Suits::Hearts, 10), card(Suits::Hearts, 9), card(Suits::Spades, 2)],
        true,
    );
    assert_eq!(game.human().score(), 21);
    // Every card left is worth at least 1, so one more busts the human.
    game.take_action(Action::Hit, &mut rng).unwrap();
    assert!(game.human().bust());
    assert!(!game.first_turn());
}

#[test]
fn stand_ends_human_turn() {
    let mut rng = StdRng::seed_from_u64(6);
    let mut game = Game::new(&mut rng);
    let before = game.clone();
    game.take_action(Action::Stand, &mut rng).unwrap();
    assert!(!game.first_turn());
    assert_eq!(game.human(), before.human());
    assert_eq!(game.computer(), before.computer());
    assert_eq!(game.deck(), before.deck());
}

#[test]
fn action_after_turn_is_refused() {
    let mut rng = StdRng::seed_from_u64(7);
    let mut game = Game::new(&mut rng);
    game.take_action(Action::Stand, &mut rng).unwrap();
    game.cpu_turn(&mut rng).unwrap();
    let before = game.clone();
    assert_eq!(game.take_action(Action::Hit, &mut rng), Err(BlackjackError::InvalidStateTransition));
    assert_eq!(game.take_action(Action::Stand, &mut rng), Err(BlackjackError::InvalidStateTransition));
    assert_eq!(game, before);
}

#[test]
fn dealer_turn_refused_during_human_turn() {
    let mut rng = StdRng::seed_from_u64(8);
    let mut game = Game::new(&mut rng);
    let before = game.clone();
    assert_eq!(game.cpu_turn(&mut rng), Err(BlackjackError::InvalidStateTransition));
    assert_eq!(game, before);
}

#[test]
fn dealer_stands_on_soft_seventeen() {
    let mut rng = StdRng::seed_from_u64(10);
    let mut game = game_with(&[card(Suits::Clubs, 1), card(Suits::Clubs, 6)], &[card(Suits::Hearts, 10), card(Suits::Hearts, 9)], false);
    assert_eq!(game.phase(), Phase::Resolved);
    game.cpu_turn(&mut rng).unwrap();
    assert_eq!(game.computer().hand().len(), 2);
    assert_eq!(game.computer().score(), 17);
    assert!(game.human_win());
}

#[test]
fn dealer_draws_on_sixteen() {
    let mut rng = StdRng::seed_from_u64(11);
    let mut game = game_with(&[card(Suits::Clubs, 10), card(Suits::Clubs, 6)], &[card(Suits::Hearts, 10), card(Suits::Hearts, 9)], false);
    assert_eq!(game.phase(), Phase::DealerTurn);
    game.cpu_turn(&mut rng).unwrap();
    assert!(game.computer().hand().len() >= 3);
    assert!(game.computer().score() > 16);
}

#[test]
fn win_rule() {
    // Human 20 against dealer 19: the human wins.
    let game = game_with(&[card(Suits::Clubs, 10), card(Suits::Clubs, 9)], &[card(Suits::Hearts, 10), card(Suits::Hearts, 13)], false);
    assert_eq!(game.human().score(), 20);
    assert_eq!(game.computer().score(), 19);
    assert!(game.human_win());
    // A tie goes to the dealer.
    let game = game_with(&[card(Suits::Clubs, 10), card(Suits::Clubs, 13)], &[card(Suits::Hearts, 10), card(Suits::Hearts, 13)], false);
    assert!(!game.human_win());
    // A bust human loses, whatever the dealer holds.
    let bust = [card(Suits::Hearts, 10), card(Suits::Hearts, 13), card(Suits::Hearts, 5)];
    let game = game_with(&[card(Suits::Clubs, 10), card(Suits::Clubs, 13), card(Suits::Clubs, 5)], &bust, false);
    assert!(!game.human_win());
    let game = game_with(&[card(Suits::Clubs, 10), card(Suits::Clubs, 7)], &bust, false);
    assert!(!game.human_win());
    // A bust dealer loses to a standing human.
    let game = game_with(&[card(Suits::Clubs, 10), card(Suits::Clubs, 13), card(Suits::Clubs, 5)], &[card(Suits::Hearts, 2), card(Suits::Hearts, 3)], false);
    assert!(game.human_win());
}

#[test]
fn persisted_flag_byte() {
    let mut rng = StdRng::seed_from_u64(12);
    let mut game = Game::new(&mut rng);
    let bytes = game.encode();
    assert_eq!(bytes[0], 0b1100_0001);
    assert_eq!(bytes.len(), 53);
    game.take_action(Action::Stand, &mut rng).unwrap();
    assert_eq!(game.encode()[0], 0b1100_0000);
}

#[test]
fn encode_layout() {
    let dealer = [card(Suits::Clubs, 1), card(Suits::Spades, 13)];
    let human = [card(Suits::Diamonds, 2)];
    let game = game_with(&dealer, &human, true);
    let bytes = game.encode();
    assert_eq!(bytes[0], 0xC1);
    assert_eq!(bytes[1], 0x40);
    assert_eq!(bytes[2], 0x40 | 51);
    assert_eq!(bytes[3], 0x80 | 14);
    assert!(bytes[4..].iter().all(|b| b >> 6 == 0));
    assert_eq!(bytes, game_bytes(&dealer, &human, true));
}

#[test]
fn decode_rejects_malformed() {
    let good = game_bytes(&[card(Suits::Clubs, 1), card(Suits::Clubs, 2)], &[card(Suits::Clubs, 3), card(Suits::Clubs, 4)], true);
    assert!(Game::decode(&good).is_ok());
    // Truncated: no flag byte.
    assert_eq!(Game::decode(&vec![]), Err(BlackjackError::FormatError));
    // A first byte that is no flag.
    let mut bad = good.clone();
    bad[0] = 0b0000_0001;
    assert_eq!(Game::decode(&bad), Err(BlackjackError::FormatError));
    // Tag 11 after the flag byte.
    let mut bad = good.clone();
    bad[5] |= 0b1100_0000;
    assert_eq!(Game::decode(&bad), Err(BlackjackError::FormatError));
    // A card code above 51.
    let mut bad = good.clone();
    bad[5] = 52;
    assert_eq!(Game::decode(&bad), Err(BlackjackError::FormatError));
    // A card missing.
    let mut bad = good.clone();
    bad.pop();
    assert_eq!(Game::decode(&bad), Err(BlackjackError::FormatError));
    // A card twice.
    let mut bad = good.clone();
    let last = bad.len() - 1;
    bad[last] = bad[last - 1];
    assert_eq!(Game::decode(&bad), Err(BlackjackError::FormatError));
    // One card too many.
    let mut bad = good.clone();
    bad.push(bad[10]);
    assert_eq!(Game::decode(&bad), Err(BlackjackError::FormatError));
}

#[test]
fn decode_routes_by_tag() {
    let mut bytes = vec![0b1100_0000];
    for code in 0..52u8 {
        // Interleave: every third card to the dealer, every third to the human.
        bytes.push(code | ((code % 3) << 6));
    }
    let game = Game::decode(&bytes).unwrap();
    assert!(!game.first_turn());
    assert_eq!(game.deck().len(), 18);
    assert_eq!(game.computer().hand().len(), 17);
    assert_eq!(game.human().hand().len(), 17);
    assert_eq!(game.computer().hand()[0], Card::from_code(1));
    assert_eq!(game.human().hand()[0], Card::from_code(2));
    assert_eq!(game.deck().cards()[0], Card::from_code(0));
}

#[test]
fn empty_deck_hit_is_underflow() {
    let mut rng = StdRng::seed_from_u64(13);
    let human: Vec<Card> = (0..50u8).map(Card::from_code).collect();
    let dealer = [Card::from_code(50), Card::from_code(51)];
    let mut game = game_with(&dealer, &human, true);
    assert_eq!(game.deck().len(), 0);
    let before = game.clone();
    assert_eq!(
        game.take_action(Action::Hit, &mut rng),
        Err(BlackjackError::DeckUnderflow { requested: 1, remaining: 0 })
    );
    assert_eq!(game, before);
}

#[test]
fn render_after_first_turn() {
    let game = game_with(&[card(Suits::Clubs, 10), card(Suits::Clubs, 7)], &[card(Suits::Hearts, 2), card(Suits::Hearts, 3)], false);
    let screen = game.render(&Terminal::new(Some(20)));
    let expected = "====================\n     Blackjack     \n====================\n\
The Dealer:The Player:\n\
\u{1F0DA} Ten of Clubs\u{1F0B2} Two of Hearts\n\
\u{1F0D7} Seven of Clubs\u{1F0B3} Three of Hearts\n";
    assert_eq!(screen, expected);
}

#[test]
fn render_hides_dealer_card_on_first_turn() {
    let game = game_with(
        &[card(Suits::Clubs, 10), card(Suits::Clubs, 7)],
        &[card(Suits::Hearts, 10), card(Suits::Hearts, 13), card(Suits::Hearts, 5)],
        true,
    );
    let screen = game.render(&Terminal::new(Some(80)));
    assert!(screen.contains("\u{1F0A0} Hidden Card"));
    assert!(screen.contains("Seven of Clubs"));
    assert!(!screen.contains("Ten of Clubs"));
    assert!(screen.contains("Bust"));
}

#[test]
fn init_game_test() {
    let mut rng = StdRng::seed_from_u64(14);
    // load being false should give a new game
    let game = init_game(false, None, &mut rng);
    assert!(game.first_turn());
    assert_eq!(game.deck().len(), 48);
    // load being true but nothing saved should give a new game
    let game = init_game(true, None, &mut rng);
    assert_eq!(game.deck().len(), 48);
    // load being true with a saved game should load the game
    let mut save_game = Game::new(&mut rng);
    save_game.take_action(Action::Stand, &mut rng).unwrap();
    let load_game = init_game(true, Some(save_game.encode()), &mut rng);
    assert_eq!(save_game, load_game);
    // load being false ignores what is saved
    let game = init_game(false, Some(save_game.encode()), &mut rng);
    assert!(game.first_turn());
    // unreadable saved bytes fall back to a new game
    let game = init_game(true, Some(vec![0xC1, 0xFF]), &mut rng);
    assert!(game.first_turn());
    assert_eq!(game.deck().len(), 48);
}
