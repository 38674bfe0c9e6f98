use pokerbots::game::{Action, GameActionError, GameState, PlayerPosition, Round, WinReason};
use pokerbots::hands::{cards_from, compare_hands, Card, Suite};
use rand::rngs::StdRng;
use rand::{Rng, SeedableRng};

fn round_index(r: Round) -> u32 {
    match r {
        Round::PreFlop => 0,
        Round::Flop => 1,
        Round::Turn => 2,
        Round::River => 3,
        Round::End => 4,
    }
}

fn total(state: &GameState) -> u32 {
    state.player_states[0].stack + state.player_states[1].stack
}

fn board_len(r: Round) -> usize {
    match r {
        Round::PreFlop => 0,
        Round::Flop => 3,
        Round::Turn => 4,
        _ => 5,
    }
}

fn no_card_twice(state: &GameState) -> bool {
    let mut all: Vec<Card> = state.deck.clone();
    all.extend(state.community_cards.iter().copied());
    all.extend(state.player_states[0].hole_cards.iter().copied());
    all.extend(state.player_states[1].hole_cards.iter().copied());
    for i in 0..all.len() {
        for j in (i + 1)..all.len() {
            if all[i] == all[j] {
                return false;
            }
        }
    }
    all.len() == 52
}

#[test]
fn other_seat_twice_is_the_seat() {
    assert_eq!(PlayerPosition::Button.not(), PlayerPosition::BigBlind);
    assert_eq!(PlayerPosition::BigBlind.not(), PlayerPosition::Button);
    assert_eq!(PlayerPosition::Button.not().not(), PlayerPosition::Button);
    assert_eq!(PlayerPosition::BigBlind.not().not(), PlayerPosition::BigBlind);
}

#[test]
fn random_hands_keep_the_laws() {
    let mut rng = StdRng::from_seed([7; 32]);
    for _ in 0..300 {
        let s0: u32 = rng.gen_range(1..120);
        let s1: u32 = rng.gen_range(1..120);
        let mut state = GameState::new([s0, s1], GameState::get_shuffled_deck(&mut rng));
        assert!(no_card_twice(&state));
        assert_eq!(state.deck.len(), 48);
        let start_total = total(&state);
        let mut steps = 0;
        while state.round != Round::End {
            // nobody to act exactly when the betting round is over
            assert_eq!(state.whose_turn().is_none(), state.round_over());
            assert_eq!(state.community_cards.len(), board_len(state.round));
            assert!(state.win_reason.is_none());
            let choice: u32 = rng.gen_range(0..10);
            let action = if choice == 0 {
                Action::Fold
            } else if choice < 6 {
                Action::Raise(0)
            } else {
                Action::Raise(rng.gen_range(1..40))
            };
            let before = round_index(state.round);
            state = state.post_action(action).unwrap();
            // chips are neither created nor lost, rounds only move forward
            assert_eq!(total(&state), start_total);
            assert!(round_index(state.round) >= before);
            assert!(no_card_twice(&state));
            if state.round != Round::End {
                assert!(state.player_states[0].pushed <= state.player_states[0].stack);
                assert!(state.player_states[1].pushed <= state.player_states[1].stack);
            }
            steps += 1;
            assert!(steps < 200);
        }
        // a finished hand names its winner and refuses further actions
        assert!(state.win_reason.is_some());
        assert_eq!(
            state.clone().post_action(Action::Raise(0)).err(),
            Some(GameActionError::GameOver)
        );
        assert_eq!(
            state.post_action(Action::Fold).err(),
            Some(GameActionError::GameOver)
        );
    }
}

#[test]
fn fold_pays_the_other_player_what_was_pushed() {
    let state = GameState::new([30, 40], GameState::get_deck());
    // the button has pushed its small blind of 1
    let folded = state.post_action(Action::Fold).unwrap();
    assert_eq!(folded.round, Round::End);
    assert_eq!(folded.player_states[0].stack, 29);
    assert_eq!(folded.player_states[1].stack, 41);
    assert!(matches!(
        folded.win_reason,
        Some(WinReason::OtherPlayerFolded(PlayerPosition::BigBlind))
    ));
}

#[test]
fn new_hand_posts_blinds_and_deals_from_the_end() {
    let deck = GameState::get_deck();
    let state = GameState::new([10, 1], deck.clone());
    assert_eq!(state.deck.len(), 48);
    assert_eq!(state.deck[..], deck[..48]);
    assert_eq!(state.player_states[0].hole_cards, vec![deck[51], deck[50]]);
    assert_eq!(state.player_states[1].hole_cards, vec![deck[49], deck[48]]);
    assert_eq!(state.player_states[0].pushed, 1);
    // a big blind with a stack of 1 posts all of it
    assert_eq!(state.player_states[1].pushed, 1);
    assert_eq!(state.target_push, 1);
    assert_eq!(state.round, Round::PreFlop);
    assert!(matches!(state.last_aggressor, PlayerPosition::BigBlind));
    assert!(state.community_cards.is_empty());
}

#[test]
fn standard_deck_order() {
    let deck = GameState::get_deck();
    assert_eq!(deck.len(), 52);
    assert_eq!(deck[0], Card { value: 1, suite: Suite::Clubs });
    assert_eq!(deck[1], Card { value: 1, suite: Suite::Spades });
    assert_eq!(deck[2], Card { value: 1, suite: Suite::Hearts });
    assert_eq!(deck[3], Card { value: 1, suite: Suite::Diamonds });
    assert_eq!(deck[51], Card { value: 13, suite: Suite::Diamonds });
    let mut rng = StdRng::from_seed([3; 32]);
    let mut shuffled = GameState::get_shuffled_deck(&mut rng);
    assert_ne!(shuffled, deck);
    shuffled.sort_by_key(|c| (c.value, c.suite as u8));
    assert_eq!(shuffled, deck);
}

#[test]
fn raise_is_capped_by_the_smaller_stack() {
    let state = GameState::new([10, 30], GameState::get_deck());
    let state = state.post_action(Action::Raise(100)).unwrap();
    assert_eq!(state.player_states[0].pushed, 10);
    assert_eq!(state.target_push, 10);
    assert!(matches!(state.last_aggressor, PlayerPosition::Button));
}

#[test]
fn showdown_tie_keeps_stacks() {
    // both players play the board: a royal flush in spades
    let deck: Vec<Card> = cards_from("2c3d4h5cAsKsQsJsTs").into_iter().rev().collect();
    let mut state = GameState::new([20, 20], deck);
    assert_eq!(state.player_states[0].hole_cards, cards_from("2c3d"));
    for _ in 0..8 {
        state = state.post_action(Action::Raise(0)).unwrap();
    }
    assert_eq!(state.round, Round::End);
    assert!(matches!(state.win_reason, Some(WinReason::Tie)));
    assert_eq!(state.player_states[0].stack, 20);
    assert_eq!(state.player_states[1].stack, 20);
    assert_eq!(
        compare_hands(
            &state.get_player_hand(PlayerPosition::Button).cards,
            &state.get_player_hand(PlayerPosition::BigBlind).cards
        ),
        std::cmp::Ordering::Equal
    );
}

#[test]
fn set_and_get_state() {
    let mut state = GameState::new([20, 20], GameState::get_deck());
    let mut ps = state.get_state(PlayerPosition::BigBlind);
    assert_eq!(ps.stack, 20);
    assert_eq!(ps.pushed, 2);
    ps.stack = 7;
    state.set_state(PlayerPosition::BigBlind, ps);
    assert_eq!(state.player_states[1].stack, 7);
    assert_eq!(state.player_states[0].stack, 20);
    assert!(state.should_act(PlayerPosition::Button));
}
