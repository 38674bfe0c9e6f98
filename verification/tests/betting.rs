use pokerbots::game::{Action, GameState, PlayerPosition, Round, WinReason};
use pokerbots::hands::{cards_from, compare_hands};
use rand::{rngs::StdRng, SeedableRng};

#[test]
fn card_draw_works() {
    let mut rng = StdRng::from_seed([0; 32]);
    let state1 = GameState::new([50, 50], GameState::get_shuffled_deck(&mut rng));
    let state2 = GameState::new([50, 50], GameState::get_shuffled_deck(&mut rng));
    assert_ne!(state1.deck, state2.deck);
    assert_eq!(state1.deck.len(), 48);
    assert_eq!(state2.deck.len(), 48);
}

// GameState tests
#[test]
fn whose_turn_works() {
    let mut rng = StdRng::from_seed([0; 32]);
    let mut state = GameState::new([50, 50], GameState::get_shuffled_deck(&mut rng));

    // Start with the button
    assert!(matches!(state.whose_turn(), Some(PlayerPosition::Button)));
    assert_eq!(state.round, Round::PreFlop);
    // It is the little blind's turn
    state = state.post_action(Action::Raise(0)).unwrap();
    assert!(matches!(state.whose_turn(), Some(PlayerPosition::BigBlind)));
    // It is the big blind's turn
    state = state.post_action(Action::Raise(0)).unwrap();

    assert_eq!(state.round, Round::Flop);
    assert!(matches!(state.whose_turn(), Some(PlayerPosition::BigBlind)));
    state = state.post_action(Action::Raise(0)).unwrap();
    assert!(matches!(state.whose_turn(), Some(PlayerPosition::Button)));
    state = state.post_action(Action::Raise(0)).unwrap();

    assert_eq!(state.round, Round::Turn);
    assert!(matches!(state.whose_turn(), Some(PlayerPosition::BigBlind)));
    state = state.post_action(Action::Raise(0)).unwrap();
    assert!(matches!(state.whose_turn(), Some(PlayerPosition::Button)));
    state = state.post_action(Action::Raise(0)).unwrap();

    assert_eq!(state.round, Round::River);
    assert!(matches!(state.whose_turn(), Some(PlayerPosition::BigBlind)));
    state = state.post_action(Action::Raise(0)).unwrap();
    assert!(matches!(state.whose_turn(), Some(PlayerPosition::Button)));
    state = state.post_action(Action::Raise(0)).unwrap();
    // The round should be over
    assert_eq!(state.round, Round::End);

    // If the round is over then whose_turn should return None
    assert!(matches!(state.whose_turn(), None));
}

#[test]
fn raise_forces_call() {
    let mut rng = StdRng::from_seed([0; 32]);
    let mut state = GameState::new([50, 50], GameState::get_shuffled_deck(&mut rng));

    state = state.post_action(Action::Raise(10)).unwrap();
    assert_eq!(state.player_states[0].pushed, 12);
    assert_eq!(state.player_states[1].pushed, 2);
    assert_eq!(state.target_push, 12);
    assert!(matches!(state.whose_turn(), Some(PlayerPosition::BigBlind)));
    assert_eq!(state.round, Round::PreFlop);
    state = state.post_action(Action::Raise(0)).unwrap();

    assert_eq!(state.round, Round::Flop);

    assert_eq!(state.player_states[1].pushed, 12);
    assert_eq!(state.player_states[0].pushed, 12);

    assert_eq!(state.target_push, 12);
    assert!(matches!(state.whose_turn(), Some(PlayerPosition::BigBlind)));
    assert_eq!(
        state
            .clone()
            .post_action(Action::Fold)
            .unwrap()
            .player_states[0]
            .stack,
        62
    );
    state = state.post_action(Action::Raise(0)).unwrap();
    assert_eq!(
        state
            .clone()
            .post_action(Action::Fold)
            .unwrap()
            .player_states[0]
            .stack,
        38
    );
}

#[test]
pub fn bb_raise_gives_sb_action() {
    let mut rng = StdRng::from_seed([0; 32]);
    let mut state = GameState::new([50, 50], GameState::get_shuffled_deck(&mut rng));

    state = state.post_action(Action::Raise(0)).unwrap();
    assert_eq!(state.player_states[0].pushed, 2);
    assert_eq!(state.player_states[1].pushed, 2);
    assert_eq!(state.target_push, 2);
    assert!(matches!(state.whose_turn(), Some(PlayerPosition::BigBlind)));
    // bb raises 10
    state = state.post_action(Action::Raise(10)).unwrap();
    // target push is now 12
    assert_eq!(state.target_push, 12);
    assert_eq!(state.player_states[1].pushed, 12);
    // round is still pre-flop
    assert_eq!(state.round, Round::PreFlop);
    // sb should have the option to call or raise
    state = state.post_action(Action::Raise(0)).unwrap();
    // sb should have pushed 12
    assert_eq!(state.player_states[0].pushed, 12);
    // target push should be 12
    assert_eq!(state.target_push, 12);
    // round is now flop
    assert_eq!(state.round, Round::Flop);
    assert!(matches!(state.whose_turn(), Some(PlayerPosition::BigBlind)));

    // bb folds and sb wins
    state = state.post_action(Action::Fold).unwrap();
    assert_eq!(state.round, Round::End);

    // bb stack should be 50 - 12 = 38
    assert_eq!(state.player_states[1].stack, 38);
    // sb stack should be 50 + 12 = 62
    assert_eq!(state.player_states[0].stack, 62);

    assert!(matches!(
        state.win_reason,
        Some(WinReason::OtherPlayerFolded(PlayerPosition::Button))
    ));
}

#[test]
pub fn sb_raise_bb_fold_preflop() {
    let mut rng = StdRng::from_seed([0; 32]);
    let mut state = GameState::new([50, 50], GameState::get_shuffled_deck(&mut rng));

    state = state.post_action(Action::Raise(10)).unwrap();
    assert_eq!(state.player_states[0].pushed, 12);
    assert_eq!(state.player_states[1].pushed, 2);
    assert_eq!(state.target_push, 12);
    assert!(matches!(state.whose_turn(), Some(PlayerPosition::BigBlind)));

    // bb folds
    state = state.post_action(Action::Fold).unwrap();
    assert_eq!(state.round, Round::End);

    // sb stack should be 50 + 2 = 52
    assert_eq!(state.player_states[0].stack, 52);
    // bb stack should be 50 - 2 = 48
    assert_eq!(state.player_states[1].stack, 48);

    assert!(matches!(
        state.win_reason,
        Some(WinReason::OtherPlayerFolded(PlayerPosition::Button))
    ));
}

#[test]
pub fn all_in_limited_raise_dont_skip_to_showdown() {
    let mut rng = StdRng::from_seed([0; 32]);
    let mut state = GameState::new([50, 40], GameState::get_shuffled_deck(&mut rng));

    // post flop we want to give the win to bb
    // so we give sb a worse hand
    // In this case we have sb with 3 twos
    // and bb with a flush (also 3 jacks)
    state.deck = cards_from("2h3h9hJsQc");
    state.player_states[0].hole_cards = cards_from("2s2c");
    state.player_states[1].hole_cards = cards_from("QhTh");

    state = state.post_action(Action::Raise(100)).unwrap();
    // sb should be limited to the bb stack size
    assert_eq!(state.player_states[0].pushed, 40);
    assert_eq!(state.player_states[1].pushed, 2);
    assert_eq!(state.target_push, 40);
    assert!(matches!(state.whose_turn(), Some(PlayerPosition::BigBlind)));

    // bb raises but they are already maxed
    state = state.post_action(Action::Raise(2)).unwrap();
    assert_eq!(state.player_states[0].pushed, 40);
    assert_eq!(state.player_states[1].pushed, 40);
    assert_eq!(state.target_push, 40);
    assert!(matches!(state.whose_turn(), Some(PlayerPosition::BigBlind)));

    // in a normal game now we would be at the showdown since no one can act anymore
    // however this engine should force the game to be played out, despite
    // the fact that no one can act
    assert_eq!(state.round, Round::Flop);

    // raising does nothing
    state = state.post_action(Action::Raise(5)).unwrap();
    assert_eq!(state.player_states[0].pushed, 40);
    assert_eq!(state.player_states[1].pushed, 40);
    assert_eq!(state.target_push, 40);
    assert!(matches!(state.whose_turn(), Some(PlayerPosition::Button)));
    state = state.post_action(Action::Raise(0)).unwrap();
    assert_eq!(state.round, Round::Turn);

    assert!(matches!(state.whose_turn(), Some(PlayerPosition::BigBlind)));
    state = state.post_action(Action::Raise(0)).unwrap();
    assert!(matches!(state.whose_turn(), Some(PlayerPosition::Button)));
    state = state.post_action(Action::Raise(0)).unwrap();
    assert_eq!(state.round, Round::River);

    assert!(matches!(state.whose_turn(), Some(PlayerPosition::BigBlind)));
    state = state.post_action(Action::Raise(0)).unwrap();
    assert!(matches!(state.whose_turn(), Some(PlayerPosition::Button)));
    state = state.post_action(Action::Raise(0)).unwrap();
    assert_eq!(state.round, Round::End);
    // Since bb won the hand, they should have 50 + 40 = 90
    assert_eq!(state.player_states[1].stack, 80);
    // sb should have 50 - 40 = 10
    assert_eq!(state.player_states[0].stack, 10);
    assert!(matches!(
        state.win_reason,
        Some(WinReason::Showdown(PlayerPosition::BigBlind))
    ));
}

#[test]
pub fn broke_blind_straight_to_showdown() {
    for i in 0..20 {
        let mut rng = StdRng::from_seed([i; 32]);
        let mut state = GameState::new([50, 1], GameState::get_shuffled_deck(&mut rng));
        // make sure no one can bet anything
        assert_eq!(state.target_push, 1);
        assert_eq!(state.player_states[0].pushed, 1);
        assert_eq!(state.player_states[1].pushed, 1);
        {
            // If button folds then bb gets all the money
            let mut button_fold = state.clone();
            button_fold = button_fold.post_action(Action::Fold).unwrap();
            assert_eq!(button_fold.round, Round::End);
            assert_eq!(button_fold.player_states[0].stack, 49);
            assert_eq!(button_fold.player_states[1].stack, 2);
            assert!(matches!(
                button_fold.win_reason,
                Some(WinReason::OtherPlayerFolded(PlayerPosition::BigBlind))
            ));
        }
        {
            // If button raises then nothing happens
            let button_raise = state.clone().post_action(Action::Raise(2)).unwrap();
            assert_eq!(button_raise.round, Round::PreFlop);
            assert_eq!(button_raise.target_push, 1);
            assert_eq!(button_raise.player_states[0].pushed, 1);
        }
        // What if neither player can cover the blind
        state = GameState::new([1, 1], GameState::get_shuffled_deck(&mut rng));
        {
            // If button folds then bb gets all the money
            let mut button_fold = state.clone();
            button_fold = button_fold.post_action(Action::Fold).unwrap();
            assert_eq!(button_fold.round, Round::End);
            assert_eq!(button_fold.player_states[0].stack, 0);
            assert_eq!(button_fold.player_states[1].stack, 2);
            assert!(matches!(
                button_fold.win_reason,
                Some(WinReason::OtherPlayerFolded(PlayerPosition::BigBlind))
            ));
        }
        {
            // If button raises then nothing happens
            let button_raise = state.clone().post_action(Action::Raise(2)).unwrap();
            assert_eq!(button_raise.round, Round::PreFlop);
            assert_eq!(button_raise.target_push, 1);
            assert_eq!(button_raise.player_states[0].pushed, 1);
        }
        // skip to the end
        state = state.post_action(Action::Raise(0)).unwrap();
        {
            // if bb folds then button gets all the money
            let mut bb_fold = state.clone();
            bb_fold = bb_fold.post_action(Action::Fold).unwrap();
            assert_eq!(bb_fold.round, Round::End);
            assert_eq!(bb_fold.player_states[0].stack, 2);
            assert_eq!(bb_fold.player_states[1].stack, 0);
            assert!(matches!(
                bb_fold.win_reason,
                Some(WinReason::OtherPlayerFolded(PlayerPosition::Button))
            ));
        }
        state = state.post_action(Action::Raise(0)).unwrap();

        state = state.post_action(Action::Raise(0)).unwrap();
        state = state.post_action(Action::Raise(0)).unwrap();

        state = state.post_action(Action::Raise(0)).unwrap();
        state = state.post_action(Action::Raise(0)).unwrap();

        state = state.post_action(Action::Raise(0)).unwrap();
        state = state.post_action(Action::Raise(0)).unwrap();

        // The bb should be all in, so the target push is 1
        // We should already be at showdown since no one can act
        // for the whole game
        assert_eq!(state.round, Round::End);
        match (state.player_states[0].stack, state.player_states[1].stack) {
            (1, 1) => {
                assert!(matches!(state.win_reason, Some(WinReason::Tie)))
            }
            (0, 2) => {
                assert!(matches!(
                    state.win_reason,
                    Some(WinReason::Showdown(PlayerPosition::BigBlind))
                ))
            }
            (2, 0) => {
                assert!(matches!(
                    state.win_reason,
                    Some(WinReason::Showdown(PlayerPosition::Button))
                ))
            }
            _ => panic!("stacks should be 1,1 or 0,2 or 2,0"),
        }
    }
}

#[test]
pub fn all_in_on_turn_dont_skip_to_showdown() {
    // randomly choose the deck so we can test multiple times
    // we will check that the stacks are correct
    for i in 0..20 {
        let mut rng = StdRng::from_seed([i; 32]);
        let mut state = GameState::new([50, 50], GameState::get_shuffled_deck(&mut rng));

        // sb raises
        state = state.post_action(Action::Raise(4)).unwrap();
        // bb calls
        state = state.post_action(Action::Raise(0)).unwrap();

        // flop
        state = state.post_action(Action::Raise(0)).unwrap();
        state = state.post_action(Action::Raise(4)).unwrap();

        // it should be possible to have a bidding war here
        assert!(matches!(state.whose_turn(), Some(PlayerPosition::BigBlind)));
        state = state.post_action(Action::Raise(6)).unwrap();
        assert!(matches!(state.whose_turn(), Some(PlayerPosition::Button)));
        assert_eq!(state.round, Round::Flop);
        assert_eq!(state.target_push, 16);

        // call
        state = state.post_action(Action::Raise(0)).unwrap();

        // both players are in 16
        // bb goes all in in the turn
        // we should skip the river

        assert_eq!(state.round, Round::Turn);
        // turn
        assert!(matches!(state.whose_turn(), Some(PlayerPosition::BigBlind)));
        state = state.post_action(Action::Raise(100)).unwrap();
        assert_eq!(state.target_push, 50);
        assert_eq!(state.round, Round::Turn);
        // if sb folds then bb gets all the money
        {
            let mut sb_fold = state.clone();
            sb_fold = sb_fold.post_action(Action::Fold).unwrap();
            assert_eq!(sb_fold.round, Round::End);
            assert_eq!(sb_fold.player_states[0].stack, 34);
            assert_eq!(sb_fold.player_states[1].stack, 66);
        }
        state = state.post_action(Action::Raise(0)).unwrap();
        assert_eq!(state.round, Round::River);
        state = state.post_action(Action::Raise(0)).unwrap();
        state = state.post_action(Action::Raise(0)).unwrap();

        // River should have been skipped
        assert_eq!(state.round, Round::End);

        // Player with better hand should have 100, player with worse should have 0
        // Also last aggressor is bb
        assert!(matches!(state.last_aggressor, PlayerPosition::BigBlind));

        match (state.player_states[0].stack, state.player_states[1].stack) {
            (100, 0) => {
                assert!(matches!(
                    state.win_reason,
                    Some(WinReason::Showdown(PlayerPosition::Button))
                ))
            }
            (50, 50) => {
                assert!(matches!(state.win_reason, Some(WinReason::Tie)))
            }
            (0, 100) => {
                assert!(matches!(
                    state.win_reason,
                    Some(WinReason::Showdown(PlayerPosition::BigBlind))
                ))
            }
            _ => panic!("stacks should be 100,0 or 0,100"),
        }
    }
}
#[test]
pub fn better_hand_wins_showdown() {
    let mut rng = StdRng::from_seed(core::array::from_fn(|i| i as u8 + 1));
    for _ in 0..1000 {
        let mut state = GameState::new([20, 50], GameState::get_shuffled_deck(&mut rng));
        state = state.post_action(Action::Raise(49)).unwrap();
        state = state.post_action(Action::Raise(0)).unwrap();

        // check until the end
        state = state.post_action(Action::Raise(0)).unwrap();
        state = state.post_action(Action::Raise(0)).unwrap();

        state = state.post_action(Action::Raise(0)).unwrap();
        state = state.post_action(Action::Raise(0)).unwrap();

        state = state.post_action(Action::Raise(0)).unwrap();
        assert!(matches!(state.win_reason, None));
        state = state.post_action(Action::Raise(0)).unwrap();

        assert_eq!(state.round, Round::End);
        // Player with better hand should have 100, player with worse should have 0
        // If tied they should have equal amounts
        // Also last aggressor is sb
        assert!(matches!(state.last_aggressor, PlayerPosition::Button));

        let stacks = (state.player_states[0].stack, state.player_states[1].stack);
        match compare_hands(
            &state.get_player_hand(PlayerPosition::Button).cards,
            &state.get_player_hand(PlayerPosition::BigBlind).cards,
        ) {
            std::cmp::Ordering::Equal => {
                assert_eq!(stacks, (20, 50));
                assert!(matches!(state.win_reason, Some(WinReason::Tie)))
            }
            std::cmp::Ordering::Less => {
                assert_eq!(stacks, (0, 70));
                assert!(matches!(
                    state.win_reason,
                    Some(WinReason::Showdown(PlayerPosition::BigBlind))
                ))
            }
            std::cmp::Ordering::Greater => {
                assert_eq!(stacks, (40, 30));
                assert!(matches!(
                    state.win_reason,
                    Some(WinReason::Showdown(PlayerPosition::Button))
                ))
            }
        }
    }
}

#[test]
pub fn snapshot_1() {
    /*
    99ms Defender <<< P 1
    99ms Challenger <<< P 0
    99ms Defender <<< C 7s 7h
    99ms Challenger <<< C Jc 9h
    99ms Challenger <<< S 2 1 2 48 52
    99ms Challenger >>> C
    99ms Defender <<< S 2 2 2 48 52
    99ms Defender >>> R5
    99ms Challenger <<< S 7 2 7 48 52
    99ms Challenger >>> C
    99ms Defender <<< C 7s 7h Qh 7d Qc
    99ms Challenger <<< C Jc 9h Qh 7d Qc
    99ms Defender <<< S 7 7 7 48 52
    99ms Defender >>> R5
    99ms Challenger <<< S 12 7 12 48 52
    99ms Challenger >>> C
    99ms Defender <<< C 7s 7h Qh 7d Qc 6h
    99ms Challenger <<< C Jc 9h Qh 7d Qc 6h
    99ms Defender <<< S 12 12 12 48 52
    99ms Defender >>> R5
    99ms Challenger <<< S 17 12 17 48 52
    99ms Challenger >>> C
    99ms Defender <<< C 7s 7h Qh 7d Qc 6h 4c
    99ms Challenger <<< C Jc 9h Qh 7d Qc 6h 4c
    99ms Defender <<< S 17 17 17 48 52
    99ms Defender >>> R5
    99ms Challenger <<< S 22 17 22 48 52
    99ms Challenger >>> C
     */
    let mut state = GameState::new(
        [48, 52],
        cards_from("Jc9h7s7hQh7dQc6h4c")
            .into_iter()
            .rev()
            .collect::<Vec<_>>(),
    );
    assert_eq!(state.player_states[0].hole_cards, cards_from("Jc9h"));
    assert_eq!(state.player_states[1].hole_cards, cards_from("7s7h"));

    state = state.post_action(Action::Raise(0)).unwrap();

    state = state.post_action(Action::Raise(5)).unwrap();

    state = state.post_action(Action::Raise(0)).unwrap();

    state = state.post_action(Action::Raise(5)).unwrap();

    state = state.post_action(Action::Raise(0)).unwrap();

    state = state.post_action(Action::Raise(5)).unwrap();

    state = state.post_action(Action::Raise(0)).unwrap();

    state = state.post_action(Action::Raise(5)).unwrap();

    assert!(matches!(state.win_reason, None));
    state = state.post_action(Action::Raise(0)).unwrap();

    assert_eq!(state.round, Round::End);
    assert!(matches!(state.last_aggressor, PlayerPosition::BigBlind));
    assert!(matches!(state.get_state(PlayerPosition::Button).stack, 26));
    assert!(matches!(
        state.get_state(PlayerPosition::BigBlind).stack,
        74
    ));
    assert!(matches!(
        state.win_reason,
        Some(WinReason::Showdown(PlayerPosition::BigBlind))
    ));
}
