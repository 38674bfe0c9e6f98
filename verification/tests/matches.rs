use pokerbots::communication::EngineCommunication;
use pokerbots::game::{Action, GameState, PlayerPosition, Round};
use pokerbots::hands::cards_from;
use pokerbots::matchplay::{
    announcement, apply_bot_line, match_step, record_row, Game, GameError, GameStatus, MatchAction,
    MatchEvent, MatchState, WhichBot,
};
use pokerbots::results::{
    game_scores, opponent_from_draw, pick_opponents, rated, result_action, sb_to_team, starting_stack_size, ResultAction,
};
use rand::rngs::StdRng;
use rand::SeedableRng;

fn hand() -> GameState {
    GameState::new([48, 52], cards_from("Jc9h7s7hQh7dQc6h4c").into_iter().rev().collect())
}

#[test]
fn bots_and_seats() {
    assert_eq!(WhichBot::Defender.other(), WhichBot::Challenger);
    assert_eq!(WhichBot::Challenger.other().other(), WhichBot::Challenger);
    assert_eq!(WhichBot::Defender.to_string(), "Defender");
    assert_eq!(WhichBot::Challenger.to_string(), "Challenger");
    let mut game = Game::new();
    assert_eq!(game.stacks, [50, 50]);
    assert_eq!(game.initial_stacks, [50, 50]);
    assert_eq!(game.sb, WhichBot::Defender);
    for _ in 0..2 {
        for bot in [WhichBot::Defender, WhichBot::Challenger] {
            let seat = game.get_position_from_bot(bot);
            assert_eq!(game.get_bot_from_position(seat), bot);
        }
        for seat in [PlayerPosition::Button, PlayerPosition::BigBlind] {
            assert_eq!(game.get_position_from_bot(game.get_bot_from_position(seat)), seat);
        }
        game.sb = game.sb.other();
    }
}

#[test]
fn stacks_follow_the_bots() {
    let mut game = Game::new();
    game.stacks = [30, 70];
    assert_eq!(game.round_stacks(), [30, 70]);
    game.sb = WhichBot::Challenger;
    assert_eq!(game.round_stacks(), [70, 30]);
    // the challenger is the button; the button folds its small blind
    let state = GameState::new(game.round_stacks(), GameState::get_deck());
    let state = state.post_action(Action::Fold).unwrap();
    game.finish_round(&state);
    assert_eq!(game.stacks, [31, 69]);
    assert_eq!(game.stacks[0] + game.stacks[1], 100);
    assert_eq!(game.sb, WhichBot::Defender);
    assert!(!game.has_empty_stack());
    assert_eq!(game.score(), GameStatus::ScoreChanged(-19, 19));
    game.stacks = [0, 100];
    assert!(game.has_empty_stack());
    assert_eq!(game.score(), GameStatus::ScoreChanged(-50, 50));
}

#[test]
fn round_announcements() {
    let mut state = hand();
    match announcement(&state) {
        Ok(EngineCommunication::PreFlopCards(sb, bb)) => {
            assert_eq!(sb, cards_from("Jc9h"));
            assert_eq!(bb, cards_from("7s7h"));
        }
        _ => panic!("expected the hole cards"),
    }
    state = state.post_action(Action::Raise(0)).unwrap();
    state = state.post_action(Action::Raise(0)).unwrap();
    match announcement(&state) {
        Ok(EngineCommunication::FlopCards(c)) => assert_eq!(c.to_vec(), cards_from("Qh7dQc")),
        _ => panic!("expected the flop"),
    }
    state = state.post_action(Action::Raise(0)).unwrap();
    state = state.post_action(Action::Raise(0)).unwrap();
    match announcement(&state) {
        Ok(EngineCommunication::TurnCard(c)) => assert_eq!(c, cards_from("6h")[0]),
        _ => panic!("expected the turn"),
    }
    state = state.post_action(Action::Raise(0)).unwrap();
    state = state.post_action(Action::Raise(0)).unwrap();
    match announcement(&state) {
        Ok(EngineCommunication::RiverCard(c)) => assert_eq!(c, cards_from("4c")[0]),
        _ => panic!("expected the river"),
    }
    let ended = state.post_action(Action::Fold).unwrap();
    assert_eq!(ended.round, Round::End);
    assert!(matches!(announcement(&ended), Err(GameError::InternalError)));
}

#[test]
fn hand_records() {
    let mut state = hand();
    let row = record_row(WhichBot::Challenger, &state, 0);
    assert_eq!(row.step, 0);
    assert_eq!(row.game_id, "");
    // the challenger is the small blind: seat 0
    assert_eq!(row.challenger_stack, 48);
    assert_eq!(row.defender_stack, 52);
    assert_eq!(row.challenger_pushed, 1);
    assert_eq!(row.defender_pushed, 2);
    assert_eq!(row.challenger_hand, "Jc 9h");
    assert_eq!(row.defender_hand, "7s 7h");
    assert_eq!(row.flop, None);
    assert_eq!(row.turn, None);
    assert_eq!(row.river, None);
    assert_eq!(row.sb, "Challenger");
    assert_eq!(row.button, "Defender");
    assert_eq!(row.action_time, 0);
    assert_eq!(row.last_action, "BB");
    for _ in 0..4 {
        state = state.post_action(Action::Raise(0)).unwrap();
    }
    let row = record_row(WhichBot::Defender, &state, 4);
    assert_eq!(row.step, 4);
    assert_eq!(row.defender_hand, "Jc 9h");
    assert_eq!(row.flop, Some("Qh 7d Qc".to_string()));
    assert_eq!(row.turn, Some("6h".to_string()));
    assert_eq!(row.river, None);
    assert_eq!(row.sb, "Defender");
}

#[test]
fn match_scores() {
    let ok = Ok(GameStatus::ScoreChanged(12, -12));
    assert_eq!(game_scores(&ok, 500), (12, -12));
    assert_eq!(game_scores(&Ok(GameStatus::TestGameSucceeded), 500), (0, 0));
    assert_eq!(game_scores(&Ok(GameStatus::TestGameFailed), 500), (0, 0));
    assert_eq!(game_scores(&Err(GameError::InternalError), 500), (500, 500));
    // the bot to blame loses the starting stack to the other one
    assert_eq!(game_scores(&Err(GameError::TimeoutError(WhichBot::Defender)), 500), (-500, 500));
    assert_eq!(game_scores(&Err(GameError::MemoryError(WhichBot::Challenger)), 300), (300, -300));
    assert_eq!(game_scores(&Err(GameError::RunTimeError(WhichBot::Defender)), 7), (-7, 7));
    assert_eq!(game_scores(&Err(GameError::InvalidActionError(WhichBot::Challenger)), 7), (7, -7));
    assert!(rated(&ok));
    assert!(rated(&Err(GameError::TimeoutError(WhichBot::Defender))));
    assert!(!rated(&Err(GameError::InternalError)));
    assert_eq!(sb_to_team(WhichBot::Defender), [1, 0]);
    assert_eq!(sb_to_team(WhichBot::Challenger), [0, 1]);
    assert_eq!(starting_stack_size(None), 500);
    assert_eq!(starting_stack_size(Some("250".to_string())), 250);
    assert_eq!(starting_stack_size(Some("-3".to_string())), -3);
    assert_eq!(starting_stack_size(Some("lots".to_string())), 500);
    assert_eq!(starting_stack_size(Some("".to_string())), 500);
}

#[test]
fn opponents_nearby() {
    let mut rng = StdRng::from_seed([9; 32]);
    assert!(pick_opponents(0, &mut rng).is_empty());
    assert!(pick_opponents(1, &mut rng).is_empty());
    assert_eq!(pick_opponents(2, &mut rng), vec![1, 0]);
    for n in [3usize, 7, 20] {
        for _ in 0..50 {
            let res = pick_opponents(n, &mut rng);
            assert_eq!(res.len(), n);
            for (i, &o) in res.iter().enumerate() {
                assert_ne!(o, i);
                assert!(o < n);
                assert!(o + 5 >= i && o <= i + 5);
            }
        }
    }
    // every other team of the window gets drawn sooner or later
    let mut seen = [false; 20];
    for _ in 0..500 {
        seen[pick_opponents(20, &mut rng)[10]] = true;
    }
    for j in 0..20 {
        assert_eq!(seen[j], j != 10 && j + 5 >= 10 && j <= 15);
    }
}

#[test]
fn bot_answers() {
    let state = hand();
    let next = apply_bot_line(state.clone(), WhichBot::Defender, "R5").ok().unwrap();
    assert_eq!(next.player_states[0].pushed, 7);
    assert_eq!(next.target_push, 7);
    let next = apply_bot_line(next, WhichBot::Challenger, "C").ok().unwrap();
    assert_eq!(next.round, Round::Flop);
    let folded = apply_bot_line(next, WhichBot::Challenger, "F").ok().unwrap();
    assert_eq!(folded.round, Round::End);
    assert!(matches!(
        apply_bot_line(state.clone(), WhichBot::Defender, "X"),
        Err(GameError::InvalidActionError(WhichBot::Defender))
    ));
    assert!(matches!(
        apply_bot_line(folded, WhichBot::Challenger, "C"),
        Err(GameError::InvalidActionError(WhichBot::Challenger))
    ));
}

#[test]
fn dealing_a_hand() {
    let mut rng = StdRng::from_seed([5; 32]);
    let mut game = Game::new();
    game.stacks = [30, 70];
    game.sb = WhichBot::Challenger;
    let state = game.deal_hand(&mut rng);
    assert_eq!(state.player_states[0].stack, 70);
    assert_eq!(state.player_states[1].stack, 30);
    assert_eq!(state.deck.len(), 48);
    assert_eq!(state.round, Round::PreFlop);
}

#[test]
fn what_results_lead_to() {
    assert_eq!(result_action(&Ok(GameStatus::ScoreChanged(3, -3))), ResultAction::RateMatch);
    assert_eq!(result_action(&Err(GameError::InternalError)), ResultAction::RateMatch);
    assert_eq!(result_action(&Err(GameError::TimeoutError(WhichBot::Challenger))), ResultAction::RateMatch);
    assert_eq!(result_action(&Ok(GameStatus::TestGameSucceeded)), ResultAction::MarkTestSucceeded);
    assert_eq!(result_action(&Ok(GameStatus::TestGameFailed)), ResultAction::MarkTestFailed);
}

#[test]
fn match_steps() {
    let mut rng = StdRng::from_seed([4; 32]);
    let mut m = MatchState::new(3);
    let mut event = MatchEvent::Done;
    let mut hands_started = 0;
    let mut stored = 0;
    let result = loop {
        let (next, action) = match_step(m, event, &mut rng);
        m = next;
        if let Some(st) = &m.hand {
            assert_eq!(st.player_states[0].stack + st.player_states[1].stack, 100);
        } else {
            assert_eq!(m.game.stacks[0] + m.game.stacks[1], 100);
        }
        event = match action {
            MatchAction::TellBoth(EngineCommunication::StartGame) => {
                hands_started += 1;
                MatchEvent::Done
            }
            MatchAction::TellBoth(_) => MatchEvent::Done,
            // the small blind raises once, then everybody calls
            MatchAction::Ask(_, EngineCommunication::BettingState { sb_pushed, .. }) => {
                let line = if sb_pushed == 1 { "R3" } else { "C" };
                MatchEvent::Answer(line.to_string())
            }
            MatchAction::Ask(_, _) => panic!("bots are asked with the betting state"),
            MatchAction::Store(row) => {
                assert_eq!(row.step, stored);
                stored += 1;
                MatchEvent::Done
            }
            MatchAction::Finish(r) => break r,
        };
    };
    assert_eq!(hands_started, 3);
    assert_eq!(m.played, 3);
    match result {
        Ok(GameStatus::ScoreChanged(d, c)) => assert_eq!(d + c, 0),
        other => panic!("unexpected result {:?}", other),
    }
}

#[test]
fn a_bad_answer_ends_the_match() {
    let mut rng = StdRng::from_seed([6; 32]);
    let mut m = MatchState::new(1);
    let mut event = MatchEvent::Done;
    loop {
        let (next, action) = match_step(m, event, &mut rng);
        m = next;
        event = match action {
            MatchAction::Ask(_, _) => MatchEvent::Answer("X".to_string()),
            MatchAction::Finish(r) => {
                assert_eq!(r, Err(GameError::InvalidActionError(WhichBot::Defender)));
                break;
            }
            _ => MatchEvent::Done,
        };
    }
}

#[test]
fn opponents_skip_the_team_itself() {
    assert_eq!(opponent_from_draw(10, 5, 20), 5);
    assert_eq!(opponent_from_draw(10, 9, 20), 9);
    assert_eq!(opponent_from_draw(10, 10, 20), 11);
    assert_eq!(opponent_from_draw(10, 14, 20), 15);
    assert_eq!(opponent_from_draw(0, 0, 2), 1);
}
