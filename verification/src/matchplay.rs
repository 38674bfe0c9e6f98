//! A match between two bots: hands are played in turn, the small blind
//! alternating, until the rounds are used up or a bot has no chips left.
use crate::communication::{
    ends_hand, parse_action, parse_action_spec, position_text, EngineCommunication,
};
use crate::game::{
    fits, lemma_new_game_live, lemma_new_game_playable, lemma_playable_step,
    lemma_post_action_conserves_chips, lemma_post_action_keeps_cards, lemma_post_action_live,
    all_cards, cards_valid, new_game, playable, post_action_model,
    post_action_ok, round_over, standard_deck, whose_turn, Action, GameState, PlayerPosition, Round,
};
use crate::hands::{lemma_card_code_round_trip, suite_char, value_char, Card};
use crate::text::{cards_printable, cards_text, card_text, push_card, push_cards};
use rand::rngs::StdRng;
use vstd::prelude::*;

verus! {

/// The two bots of a match.
#[derive(Clone, Copy, Debug, PartialEq, Eq, Structural)]
pub enum WhichBot {
    Defender,
    Challenger,
}

/// Why a match could not be played out.
#[derive(Clone, Copy, Debug, PartialEq, Eq, Structural)]
pub enum GameError {
    InternalError,
    InvalidActionError(WhichBot),
    MemoryError(WhichBot),
    RunTimeError(WhichBot),
    TimeoutError(WhichBot),
}

/// The outcome of a match or of a bot's test game.
#[derive(Clone, Copy, Debug, PartialEq, Eq, Structural)]
pub enum GameStatus {
    /// The change of the defender's and of the challenger's chips.
    ScoreChanged(i32, i32),
    TestGameSucceeded,
    TestGameFailed,
}

pub open spec fn other_bot(b: WhichBot) -> WhichBot {
    match b {
        WhichBot::Defender => WhichBot::Challenger,
        WhichBot::Challenger => WhichBot::Defender,
    }
}

pub open spec fn bot_text(b: WhichBot) -> Seq<char> {
    match b {
        WhichBot::Defender => "Defender"@,
        WhichBot::Challenger => "Challenger"@,
    }
}

impl WhichBot {
    /// The other bot.
    pub fn other(self) -> (res: WhichBot)
        ensures
            res == other_bot(self),
    {
        match self {
            WhichBot::Defender => WhichBot::Challenger,
            WhichBot::Challenger => WhichBot::Defender,
        }
    }

    /// The bot's name.
    pub fn to_string(&self) -> (res: String)
        ensures
            res@ == bot_text(*self),
    {
        proof {
            reveal_strlit("Defender");
            reveal_strlit("Challenger");
        }
        match self {
            WhichBot::Defender => String::from_str("Defender"),
            WhichBot::Challenger => String::from_str("Challenger"),
        }
    }
}

/// The chips of a match: the defender's and the challenger's stacks now and
/// at the start, and which bot is the small blind of the next hand.
pub struct Game {
    pub stacks: [u32; 2],
    pub initial_stacks: [u32; 2],
    pub sb: WhichBot,
}

/// The seat `b` takes when `sb` is the small blind.
pub open spec fn seat_of(sb: WhichBot, b: WhichBot) -> PlayerPosition {
    if sb == b {
        PlayerPosition::Button
    } else {
        PlayerPosition::BigBlind
    }
}

/// The bot sitting at `p` when `sb` is the small blind.
pub open spec fn bot_at(sb: WhichBot, p: PlayerPosition) -> WhichBot {
    match p {
        PlayerPosition::Button => sb,
        PlayerPosition::BigBlind => other_bot(sb),
    }
}

/// The stack of the seat at `p` in a hand.
pub open spec fn stack_at(state: GameState, p: PlayerPosition) -> u32 {
    match p {
        PlayerPosition::Button => state.player_states[0].stack,
        PlayerPosition::BigBlind => state.player_states[1].stack,
    }
}

/// Bots and seats correspond one to one: the bot in a bot's seat is that
/// bot, the seat of the bot in a seat is that seat, and the two bots never
/// share a seat.
pub proof fn lemma_seat_bot_inverse(sb: WhichBot, b: WhichBot, p: PlayerPosition)
    ensures
        bot_at(sb, seat_of(sb, b)) == b,
        seat_of(sb, bot_at(sb, p)) == p,
        seat_of(sb, b) != seat_of(sb, other_bot(b)),
        other_bot(other_bot(b)) == b,
{
}

/// Taking the stacks a hand ended with keeps every chip: the two bots'
/// stacks add up to the two seats' stacks.
pub proof fn lemma_finish_round_keeps_total(sb: WhichBot, state: GameState)
    ensures
        stack_at(state, seat_of(sb, WhichBot::Defender)) as int + stack_at(
            state,
            seat_of(sb, WhichBot::Challenger),
        ) as int == state.player_states[0].stack as int + state.player_states[1].stack as int,
{
}

impl Game {
    /// A match starts with 50 chips each, the defender in the small blind.
    pub fn new() -> (res: Game)
        ensures
            res.stacks == [50u32, 50u32],
            res.initial_stacks == [50u32, 50u32],
            res.sb == WhichBot::Defender,
    {
        Game { stacks: [50, 50], initial_stacks: [50, 50], sb: WhichBot::Defender }
    }

    /// Deals the next hand from a deck shuffled with the generator: the small
    /// blind's stack first, then the big blind's.
    pub fn deal_hand(&self, rng: &mut StdRng) -> (res: GameState)
        requires
            self.stacks[0] > 0,
            self.stacks[1] > 0,
        ensures
            exists|deck: Seq<Card>|
                deck.to_multiset() == standard_deck().to_multiset() && res@ == new_game(
                    (self.round_stacks_spec()[0] as int, self.round_stacks_spec()[1] as int),
                    deck,
                ),
            self.stacks[0] + self.stacks[1] <= u32::MAX ==> playable(res@),
    {
        let stacks = self.round_stacks();
        let deck = GameState::get_shuffled_deck(rng);
        let ghost d = deck@;
        proof {
            if self.stacks[0] + self.stacks[1] <= u32::MAX {
                lemma_new_game_playable((stacks[0] as int, stacks[1] as int), deck@);
            }
        }
        let res = GameState::new(stacks, deck);
        assert(d.to_multiset() == standard_deck().to_multiset() && res@ == new_game(
            (self.round_stacks_spec()[0] as int, self.round_stacks_spec()[1] as int),
            d,
        ));
        res
    }

    /// The stacks the next hand starts with, small blind first.
    pub open spec fn round_stacks_spec(&self) -> [u32; 2] {
        if self.sb == WhichBot::Defender {
            [self.stacks[0], self.stacks[1]]
        } else {
            [self.stacks[1], self.stacks[0]]
        }
    }

    /// The bot in a seat of the current hand.
    pub fn get_bot_from_position(&self, position: PlayerPosition) -> (res: WhichBot)
        ensures
            res == bot_at(self.sb, position),
    {
        match position {
            PlayerPosition::Button => self.sb,
            PlayerPosition::BigBlind => self.sb.other(),
        }
    }

    /// The seat of a bot in the current hand.
    pub fn get_position_from_bot(&self, which_bot: WhichBot) -> (res: PlayerPosition)
        ensures
            res == seat_of(self.sb, which_bot),
    {
        if self.sb == which_bot {
            PlayerPosition::Button
        } else {
            PlayerPosition::BigBlind
        }
    }

    /// The stacks the next hand starts with, small blind first.
    pub fn round_stacks(&self) -> (res: [u32; 2])
        ensures
            res == self.round_stacks_spec(),
    {
        match self.sb {
            WhichBot::Defender => [self.stacks[0], self.stacks[1]],
            WhichBot::Challenger => [self.stacks[1], self.stacks[0]],
        }
    }

    /// A bot has no chips left, which ends the match.
    pub fn has_empty_stack(&self) -> (res: bool)
        ensures
            res == (self.stacks[0] == 0 || self.stacks[1] == 0),
    {
        self.stacks[0] == 0 || self.stacks[1] == 0
    }

    /// Takes the stacks the hand ended with and passes the small blind to
    /// the other bot.
    pub fn finish_round(&mut self, state: &GameState)
        ensures
            final(self).stacks[0] == stack_at(*state, seat_of(old(self).sb, WhichBot::Defender)),
            final(self).stacks[1] == stack_at(*state, seat_of(old(self).sb, WhichBot::Challenger)),
            final(self).initial_stacks == old(self).initial_stacks,
            final(self).sb == other_bot(old(self).sb),
    {
        let d = self.get_position_from_bot(WhichBot::Defender);
        let c = self.get_position_from_bot(WhichBot::Challenger);
        let ds = match d {
            PlayerPosition::Button => state.player_states[0].stack,
            PlayerPosition::BigBlind => state.player_states[1].stack,
        };
        let cs = match c {
            PlayerPosition::Button => state.player_states[0].stack,
            PlayerPosition::BigBlind => state.player_states[1].stack,
        };
        self.stacks = [ds, cs];
        self.sb = self.sb.other();
    }

    /// The result of the match: how much each bot won or lost.
    pub fn score(&self) -> (res: GameStatus)
        requires
            self.stacks[0] <= i32::MAX,
            self.stacks[1] <= i32::MAX,
            self.initial_stacks[0] <= i32::MAX,
            self.initial_stacks[1] <= i32::MAX,
        ensures
            res == GameStatus::ScoreChanged(
                (self.stacks[0] - self.initial_stacks[0]) as i32,
                (self.stacks[1] - self.initial_stacks[1]) as i32,
            ),
    {
        let d = self.stacks[0] as i32 - self.initial_stacks[0] as i32;
        let c = self.stacks[1] as i32 - self.initial_stacks[1] as i32;
        GameStatus::ScoreChanged(d, c)
    }
}

// ------------------------------------------------------------------
// A bot's answer
// ------------------------------------------------------------------

/// The raise a line asks for fits on top of the current highest push.
pub open spec fn line_fits(state: GameState, line: Seq<char>) -> bool {
    parse_action_spec(line) matches Ok(Action::Raise(amt)) ==> fits(state.target_push + amt)
}

/// The action a line asks for, if it is one, can be posted.
pub open spec fn line_postable(state: GameState, line: Seq<char>) -> bool {
    parse_action_spec(line) matches Ok(action) ==> post_action_ok(state@, action)
}

/// In a hand that can be played on, every line whose raise fits can be
/// posted.
pub proof fn lemma_fitting_lines_postable(state: GameState, line: Seq<char>)
    requires
        playable(state@),
        line_fits(state, line),
    ensures
        line_postable(state, line),
{
    if parse_action_spec(line) is Ok {
        lemma_playable_step(state@, parse_action_spec(line)->Ok_0);
    }
}

/// What the line a bot answered does to the hand: it is read as an action
/// and posted.  A line that is no action, or an action the hand refuses, is
/// the answering bot's fault.  A hand that could be played on still can,
/// when the line's raise fits.
pub fn apply_bot_line(state: GameState, bot: WhichBot, line: &str) -> (res: Result<GameState, GameError>)
    requires
        line_postable(state, line@),
    ensures
        match parse_action_spec(line@) {
            Ok(action) => match post_action_model(state@, action) {
                Ok(m) => res matches Ok(next) && next@ == m,
                Err(_) => res == Err::<GameState, GameError>(GameError::InvalidActionError(bot)),
            },
            Err(_) => res == Err::<GameState, GameError>(GameError::InvalidActionError(bot)),
        },
        playable(state@) && line_fits(state, line@) ==> (res matches Ok(next) ==> playable(next@)),
{
    proof {
        if playable(state@) && line_fits(state, line@) && parse_action_spec(line@) is Ok {
            lemma_playable_step(state@, parse_action_spec(line@)->Ok_0);
        }
    }
    match parse_action(line) {
        Err(_) => Err(GameError::InvalidActionError(bot)),
        Ok(action) => {
            match state.post_action(action) {
                Ok(next) => Ok(next),
                Err(_) => Err(GameError::InvalidActionError(bot)),
            }
        },
    }
}

// ------------------------------------------------------------------
// A match, step by step
// ------------------------------------------------------------------

/// A match in progress, as far as its decisions go.
pub struct MatchState {
    pub game: Game,
    /// The hand being played, if any.
    pub hand: Option<GameState>,
    /// The round of the hand whose cards were last announced.
    pub announced: Option<Round>,
    /// The bot whose answer is awaited.
    pub waiting: Option<WhichBot>,
    /// How many hands were finished, out of how many the match has.
    pub played: usize,
    pub rounds: usize,
    /// The number of the next stored step.
    pub step: i32,
}

/// What happened since the last step.
pub enum MatchEvent {
    /// The last action was carried out.
    Done,
    /// The awaited bot answered this line.
    Answer(String),
}

/// What the match does next.
pub enum MatchAction {
    /// Send the message to both bots.
    TellBoth(EngineCommunication),
    /// Send the message to the bot and wait for its answer.
    Ask(WhichBot, EngineCommunication),
    /// Store this step of the hand.
    Store(GameStateRecord),
    /// The match is over.
    Finish(Result<GameStatus, GameError>),
}

impl MatchState {
    /// A match of `rounds` hands that has not started.
    pub fn new(rounds: usize) -> (res: MatchState)
        ensures
            res.game.stacks == [50u32, 50u32],
            res.game.initial_stacks == [50u32, 50u32],
            res.game.sb == WhichBot::Defender,
            res.hand is None,
            res.announced is None,
            res.waiting is None,
            res.played == 0,
            res.rounds == rounds,
            res.step == 0,
            match_ok(res),
            match_total(res) == initial_total(res),
    {
        MatchState {
            game: Game::new(),
            hand: None,
            announced: None,
            waiting: None,
            played: 0,
            rounds,
            step: 0,
        }
    }
}

/// The chips of the match: those of the hand being played, else those of
/// the bots.
pub open spec fn match_total(m: MatchState) -> int {
    match m.hand {
        Some(st) => st.player_states[0].stack + st.player_states[1].stack,
        None => m.game.stacks[0] + m.game.stacks[1],
    }
}

pub open spec fn initial_total(m: MatchState) -> int {
    m.game.initial_stacks[0] + m.game.initial_stacks[1]
}

/// The match can go on: a hand being played can be played on and is over
/// exactly when nobody is to act, a finished hand names its winner, the
/// chips fit, and an answer is awaited only in a hand where someone acts.
pub open spec fn match_ok(m: MatchState) -> bool {
    &&& m.played <= m.rounds
    &&& match m.hand {
        Some(st) => {
            &&& playable(st@)
            &&& (round_over(st@) ==> st.win_reason is Some)
            &&& st.player_states[0].stack + st.player_states[1].stack <= u32::MAX
            &&& m.played < m.rounds
        },
        None => m.waiting is None && m.game.stacks[0] + m.game.stacks[1] <= u32::MAX,
    }
    &&& (m.waiting is Some ==> m.hand is Some && !round_over(m.hand->0@))
}

/// The match ends with this step: no hand is being played, and the hands
/// are used up or a bot has no chips left.
pub open spec fn finishing(m: MatchState) -> bool {
    m.waiting is None && m.hand is None && (m.played >= m.rounds || m.game.stacks[0] == 0
        || m.game.stacks[1] == 0)
}

/// The event fits the step: an answer exactly when one is awaited, its
/// raise fitting on top of the highest push; a stored step can be
/// numbered; the final scores fit in `i32`.
pub open spec fn step_ok(m: MatchState, event: MatchEvent) -> bool {
    &&& (event is Answer <==> m.waiting is Some)
    &&& (event matches MatchEvent::Answer(line) ==> line_fits(m.hand->0, line@) && m.step < i32::MAX)
    &&& (finishing(m) ==> m.game.stacks[0] <= i32::MAX && m.game.stacks[1] <= i32::MAX
        && m.game.initial_stacks[0] <= i32::MAX && m.game.initial_stacks[1] <= i32::MAX)
}

/// What a step does: `r` is the match afterwards and `act` what to do.
pub open spec fn match_step_spec(m: MatchState, event: MatchEvent, r: MatchState, act: MatchAction) -> bool {
    match m.waiting {
        Some(bot) => {
            let st = m.hand->0;
            let line = event->Answer_0;
            let refused = act matches MatchAction::Finish(res) && res == Err::<GameStatus, GameError>(
                GameError::InvalidActionError(bot),
            );
            match parse_action_spec(line@) {
                Ok(action) => match post_action_model(st@, action) {
                    Ok(next) => {
                        &&& r.hand matches Some(h) && h@ == next
                        &&& act matches MatchAction::Store(row) && records(m.game.sb, r.hand->0, m.step, row)
                        &&& r.waiting is None
                        &&& r.game == m.game
                        &&& r.announced == m.announced
                        &&& r.played == m.played
                        &&& r.step == m.step + 1
                    },
                    Err(_) => refused,
                },
                Err(_) => refused,
            }
        },
        None => match m.hand {
            None => if finishing(m) {
                act matches MatchAction::Finish(res) && res == Ok::<GameStatus, GameError>(
                    GameStatus::ScoreChanged(
                        (m.game.stacks[0] - m.game.initial_stacks[0]) as i32,
                        (m.game.stacks[1] - m.game.initial_stacks[1]) as i32,
                    ),
                )
            } else {
                &&& act matches MatchAction::TellBoth(msg) && msg == EngineCommunication::StartGame
                &&& r.hand matches Some(h) && exists|deck: Seq<Card>|
                    deck.to_multiset() == standard_deck().to_multiset() && h@ == new_game(
                        (m.game.round_stacks_spec()[0] as int, m.game.round_stacks_spec()[1] as int),
                        deck,
                    )
                &&& r.announced is None
                &&& r.waiting is None
                &&& r.game == m.game
                &&& r.played == m.played
                &&& r.step == m.step
            },
            Some(st) => if round_over(st@) {
                &&& act matches MatchAction::TellBoth(msg) && ends_hand(st, msg)
                &&& r.hand is None
                &&& r.announced is None
                &&& r.waiting is None
                &&& r.game.stacks[0] == stack_at(st, seat_of(m.game.sb, WhichBot::Defender))
                &&& r.game.stacks[1] == stack_at(st, seat_of(m.game.sb, WhichBot::Challenger))
                &&& r.game.initial_stacks == m.game.initial_stacks
                &&& r.game.sb == other_bot(m.game.sb)
                &&& r.played == m.played + 1
                &&& r.step == m.step
            } else if m.announced != Some(st.round) {
                &&& act matches MatchAction::TellBoth(msg) && announces(st, msg)
                &&& r.hand == m.hand
                &&& r.announced == Some(st.round)
                &&& r.waiting is None
                &&& r.game == m.game
                &&& r.played == m.played
                &&& r.step == m.step
            } else {
                let bot = bot_at(m.game.sb, whose_turn(st@)->0);
                &&& act matches MatchAction::Ask(b, msg) && b == bot && msg == (EngineCommunication::BettingState {
                    sb_pushed: st.player_states[0].pushed,
                    sb_stack: st.player_states[0].stack,
                    bb_pushed: st.player_states[1].pushed,
                    bb_stack: st.player_states[1].stack,
                })
                &&& r.hand == m.hand
                &&& r.announced == m.announced
                &&& r.waiting == Some(bot)
                &&& r.game == m.game
                &&& r.played == m.played
                &&& r.step == m.step
            },
        },
    }
}

/// One step of a match: deal a hand, announce its rounds, ask the bot whose
/// turn it is, post its answer and store the step, end the hand and pass
/// the small blind, and end the match when the hands are used up or a bot
/// has no chips left.  Chips are neither created nor lost, so a match
/// that started with its initial chips ends with scores that add up to 0.
pub fn match_step(m: MatchState, event: MatchEvent, rng: &mut StdRng) -> (res: (MatchState, MatchAction))
    requires
        match_ok(m),
        step_ok(m, event),
    ensures
        match_step_spec(m, event, res.0, res.1),
        !(res.1 is Finish) ==> match_ok(res.0) && match_total(res.0) == match_total(m)
            && initial_total(res.0) == initial_total(m),
        match_total(m) == initial_total(m) ==> (res.1 matches MatchAction::Finish(
            Ok(GameStatus::ScoreChanged(d, c)),
        ) ==> d + c == 0),
{
    let MatchState { game, hand, announced, waiting, played, rounds, step } = m;
    match waiting {
        Some(bot) => {
            let st = hand.unwrap();
            let line = match event {
                MatchEvent::Answer(line) => line,
                MatchEvent::Done => {
                    proof {
                        assert(false);
                    }
                    String::new()
                },
            };
            let ghost old_st = st;
            proof {
                lemma_fitting_lines_postable(st, line@);
            }
            match apply_bot_line(st, bot, line.as_str()) {
                Err(e) => (
                    MatchState { game, hand: None, announced, waiting: None, played, rounds, step },
                    MatchAction::Finish(Err(e)),
                ),
                Ok(next) => {
                    proof {
                        let action = parse_action_spec(line@)->Ok_0;
                        lemma_post_action_conserves_chips(old_st@, action);
                        lemma_post_action_live(old_st@, action);
                        lemma_post_action_keeps_cards(old_st@, action);
                        lemma_hand_recordable(next);
                    }
                    let row = record_row(game.sb, &next, step);
                    (
                        MatchState {
                            game,
                            hand: Some(next),
                            announced,
                            waiting: None,
                            played,
                            rounds,
                            step: step + 1,
                        },
                        MatchAction::Store(row),
                    )
                },
            }
        },
        None => match hand {
            None => {
                if played >= rounds || game.has_empty_stack() {
                    let score = game.score();
                    (
                        MatchState { game, hand: None, announced, waiting: None, played, rounds, step },
                        MatchAction::Finish(Ok(score)),
                    )
                } else {
                    let st = game.deal_hand(rng);
                    proof {
                        let deck = choose|deck: Seq<Card>|
                            deck.to_multiset() == standard_deck().to_multiset() && st@ == new_game(
                                (game.round_stacks_spec()[0] as int, game.round_stacks_spec()[1] as int),
                                deck,
                            );
                        lemma_new_game_live(
                            (game.round_stacks_spec()[0] as int, game.round_stacks_spec()[1] as int),
                            deck,
                        );
                    }
                    (
                        MatchState {
                            game,
                            hand: Some(st),
                            announced: None,
                            waiting: None,
                            played,
                            rounds,
                            step,
                        },
                        MatchAction::TellBoth(EngineCommunication::StartGame),
                    )
                }
            },
            Some(st) => {
                if st.round_over() {
                    let msg = EngineCommunication::get_round_end(&st);
                    let ghost sb = game.sb;
                    let mut game = game;
                    game.finish_round(&st);
                    proof {
                        lemma_finish_round_keeps_total(sb, st);
                    }
                    (
                        MatchState {
                            game,
                            hand: None,
                            announced: None,
                            waiting: None,
                            played: played + 1,
                            rounds,
                            step,
                        },
                        MatchAction::TellBoth(msg),
                    )
                } else if announced != Some(st.round) {
                    let msg = announcement(&st).unwrap();
                    let round = st.round;
                    (
                        MatchState {
                            game,
                            hand: Some(st),
                            announced: Some(round),
                            waiting: None,
                            played,
                            rounds,
                            step,
                        },
                        MatchAction::TellBoth(msg),
                    )
                } else {
                    let seat = st.whose_turn().unwrap();
                    let bot = game.get_bot_from_position(seat);
                    let msg = EngineCommunication::get_betting_state(&st);
                    (
                        MatchState {
                            game,
                            hand: Some(st),
                            announced,
                            waiting: Some(bot),
                            played,
                            rounds,
                            step,
                        },
                        MatchAction::Ask(bot, msg),
                    )
                }
            },
        },
    }
}

// ------------------------------------------------------------------
// What the bots are told when a betting round starts
// ------------------------------------------------------------------

/// The hand's board can be announced for its round.
pub open spec fn announceable(state: GameState) -> bool {
    match state.round {
        Round::PreFlop => state.player_states[0].hole_cards@.len() >= 2
            && state.player_states[1].hole_cards@.len() >= 2,
        Round::Flop => state.community_cards@.len() >= 3,
        Round::Turn => state.community_cards@.len() >= 4,
        Round::River => state.community_cards@.len() >= 5,
        Round::End => true,
    }
}

/// `msg` announces the round of `state`: the hole cards before the flop,
/// then the flop, turn and river cards.
pub open spec fn announces(state: GameState, msg: EngineCommunication) -> bool {
    match state.round {
        Round::PreFlop => msg matches EngineCommunication::PreFlopCards(sb, bb) && sb@
            == state.player_states[0].hole_cards@ && bb@ == state.player_states[1].hole_cards@,
        Round::Flop => msg matches EngineCommunication::FlopCards(c) && c@
            == state.community_cards@.subrange(0, 3),
        Round::Turn => msg == EngineCommunication::TurnCard(state.community_cards@[3]),
        Round::River => msg == EngineCommunication::RiverCard(state.community_cards@[4]),
        Round::End => false,
    }
}

/// The message that opens a betting round: the hole cards before the flop,
/// then the flop, turn and river cards; there is none once the hand is over.
pub fn announcement(state: &GameState) -> (res: Result<EngineCommunication, GameError>)
    requires
        announceable(*state),
    ensures
        state.round == Round::End <==> res is Err,
        res matches Err(e) ==> e == GameError::InternalError,
        res matches Ok(msg) ==> announces(*state, msg),
{
    match state.round {
        Round::PreFlop => Ok(
            EngineCommunication::PreFlopCards(
                clone_cards(&state.player_states[0].hole_cards),
                clone_cards(&state.player_states[1].hole_cards),
            ),
        ),
        Round::Flop => {
            let c = &state.community_cards;
            let cards = [c[0], c[1], c[2]];
            assert(cards@ =~= c@.subrange(0, 3));
            Ok(EngineCommunication::FlopCards(cards))
        },
        Round::Turn => Ok(EngineCommunication::TurnCard(state.community_cards[3])),
        Round::River => Ok(EngineCommunication::RiverCard(state.community_cards[4])),
        Round::End => Err(GameError::InternalError),
    }
}

fn clone_cards(v: &Vec<Card>) -> (res: Vec<Card>)
    ensures
        res@ == v@,
{
    let mut res: Vec<Card> = Vec::new();
    let mut i: usize = 0;
    while i < v.len()
        invariant
            i <= v.len(),
            res@ == v@.subrange(0, i as int),
        decreases v.len() - i,
    {
        res.push(v[i]);
        i = i + 1;
        assert(res@ =~= v@.subrange(0, i as int));
    }
    assert(v@.subrange(0, v@.len() as int) =~= v@);
    res
}

// ------------------------------------------------------------------
// The record of a hand, step by step
// ------------------------------------------------------------------

/// One step of a hand as it is stored, from the defender's and challenger's
/// points of view.
pub struct GameStateRecord {
    pub game_id: String,
    pub step: i32,
    pub defender_stack: i32,
    pub challenger_stack: i32,
    pub defender_pushed: i32,
    pub challenger_pushed: i32,
    pub defender_hand: String,
    pub challenger_hand: String,
    pub flop: Option<String>,
    pub turn: Option<String>,
    pub river: Option<String>,
    pub button: String,
    pub sb: String,
    pub action_time: i32,
    pub last_action: String,
}

pub open spec fn opt_text(o: Option<String>) -> Option<Seq<char>> {
    match o {
        Some(s) => Some(s@),
        None => None,
    }
}

/// A hand whose cards are all aces to kings can be written down.
proof fn lemma_hand_recordable(st: GameState)
    requires
        cards_valid(all_cards(st@)),
    ensures
        recordable(st),
{
    let all = all_cards(st@);
    let d = st.deck@.len() as int;
    let c = st.community_cards@.len() as int;
    let h0 = st.player_states[0].hole_cards@.len() as int;
    assert forall|i: int| 0 <= i < c implies 1 <= #[trigger] st.community_cards@[i].value <= 13 by {
        assert(all[d + i] == st.community_cards@[i]);
    }
    assert forall|i: int| 0 <= i < h0 implies 1 <= #[trigger] st.player_states[0].hole_cards@[i].value
        <= 13 by {
        assert(all[d + c + i] == st.player_states[0].hole_cards@[i]);
    }
    assert forall|i: int| 0 <= i < st.player_states[1].hole_cards@.len() implies 1
        <= #[trigger] st.player_states[1].hole_cards@[i].value <= 13 by {
        assert(all[d + c + h0 + i] == st.player_states[1].hole_cards@[i]);
    }
}

/// The hand's cards can be written down.
pub open spec fn recordable(state: GameState) -> bool {
    &&& cards_printable(state.player_states[0].hole_cards@)
    &&& cards_printable(state.player_states[1].hole_cards@)
    &&& cards_printable(state.community_cards@)
}

fn position_string(p: PlayerPosition) -> (res: String)
    ensures
        res@ == position_text(p),
{
    proof {
        reveal_strlit("SB");
        reveal_strlit("BB");
    }
    match p {
        PlayerPosition::Button => String::from_str("SB"),
        PlayerPosition::BigBlind => String::from_str("BB"),
    }
}

/// The seat of the defender (0) or of the challenger (1) when `sb` is the
/// small blind.
pub open spec fn seat_index(sb: WhichBot, b: WhichBot) -> int {
    if sb == b {
        0
    } else {
        1
    }
}

/// `row` records step `step` of `state`, in a match where `sb` is the small
/// blind.
pub open spec fn records(sb: WhichBot, state: GameState, step: i32, row: GameStateRecord) -> bool {
    let d = state.player_states[seat_index(sb, WhichBot::Defender)];
    let c = state.player_states[seat_index(sb, WhichBot::Challenger)];
    &&& row.game_id@ == Seq::<char>::empty()
    &&& row.step == step
    &&& row.defender_stack == stack_at(state, seat_of(sb, WhichBot::Defender)) as i32
    &&& row.challenger_stack == stack_at(state, seat_of(sb, WhichBot::Challenger)) as i32
    &&& row.defender_pushed == d.pushed as i32
    &&& row.challenger_pushed == c.pushed as i32
    &&& row.defender_hand@ == cards_text(d.hole_cards@)
    &&& row.challenger_hand@ == cards_text(c.hole_cards@)
    &&& opt_text(row.flop) == (if state.community_cards@.len() >= 3 {
        Some(cards_text(state.community_cards@.subrange(0, 3)))
    } else {
        None
    })
    &&& opt_text(row.turn) == (if state.community_cards@.len() >= 4 {
        Some(card_text(state.community_cards@[3]))
    } else {
        None
    })
    &&& opt_text(row.river) == (if state.community_cards@.len() >= 5 {
        Some(card_text(state.community_cards@[4]))
    } else {
        None
    })
    &&& row.button@ == bot_text(other_bot(sb))
    &&& row.sb@ == bot_text(sb)
    &&& row.action_time == 0
    &&& row.last_action@ == position_text(state.last_aggressor)
}

/// The stored board follows the dealt cards: the flop is the first three
/// board cards, the turn the fourth and the river the fifth, each written
/// as its code, so a river that differs from the turn is stored
/// differently.
pub proof fn lemma_record_board(sb: WhichBot, state: GameState, step: i32, row: GameStateRecord)
    requires
        records(sb, state, step, row),
        state.community_cards@.len() >= 5,
        cards_printable(state.community_cards@),
    ensures
        row.flop matches Some(f) && f@ == cards_text(state.community_cards@.subrange(0, 3)),
        row.turn matches Some(t) && t@ == seq![
            value_char(state.community_cards@[3].value),
            suite_char(state.community_cards@[3].suite),
        ],
        row.river matches Some(r) && r@ == seq![
            value_char(state.community_cards@[4].value),
            suite_char(state.community_cards@[4].suite),
        ],
        state.community_cards@[3] != state.community_cards@[4] ==> row.river->0@ != row.turn->0@,
{
    let c3 = state.community_cards@[3];
    let c4 = state.community_cards@[4];
    assert(1 <= c3.value <= 13);
    assert(1 <= c4.value <= 13);
    lemma_card_code_round_trip(c3);
    lemma_card_code_round_trip(c4);
    if row.river->0@ == row.turn->0@ {
        assert(row.river->0@[0] == row.turn->0@[0]);
        assert(row.river->0@[1] == row.turn->0@[1]);
    }
}

/// The record follows the bots: the defender's stack, push and hole cards
/// are those of the button's seat when the defender is the small blind,
/// and of the big blind's seat otherwise; likewise for the challenger.
pub proof fn lemma_record_seats(sb: WhichBot, state: GameState, step: i32, row: GameStateRecord)
    requires
        records(sb, state, step, row),
    ensures
        row.step == step,
        sb == WhichBot::Defender ==> row.defender_stack == state.player_states[0].stack as i32
            && row.challenger_stack == state.player_states[1].stack as i32 && row.defender_pushed
            == state.player_states[0].pushed as i32 && row.challenger_pushed
            == state.player_states[1].pushed as i32 && row.defender_hand@ == cards_text(
            state.player_states[0].hole_cards@,
        ) && row.challenger_hand@ == cards_text(state.player_states[1].hole_cards@),
        sb == WhichBot::Challenger ==> row.defender_stack == state.player_states[1].stack as i32
            && row.challenger_stack == state.player_states[0].stack as i32 && row.defender_pushed
            == state.player_states[1].pushed as i32 && row.challenger_pushed
            == state.player_states[0].pushed as i32 && row.defender_hand@ == cards_text(
            state.player_states[1].hole_cards@,
        ) && row.challenger_hand@ == cards_text(state.player_states[0].hole_cards@),
        row.sb@ == bot_text(sb),
        row.button@ == bot_text(other_bot(sb)),
{
}

/// The record of step `step` of a hand in which `sb` is the small blind.
/// Stacks and pushes are stored as `i32` (wrapping above `i32::MAX`); the
/// board is stored as flop, turn and river as far as it is dealt.
pub fn record_row(sb: WhichBot, state: &GameState, step: i32) -> (res: GameStateRecord)
    requires
        recordable(*state),
    ensures
        records(sb, *state, step, res),
{
    let (d, c) = match sb {
        WhichBot::Defender => (&state.player_states[0], &state.player_states[1]),
        WhichBot::Challenger => (&state.player_states[1], &state.player_states[0]),
    };
    let mut defender_hand = String::new();
    push_cards(&mut defender_hand, d.hole_cards.as_slice());
    let mut challenger_hand = String::new();
    push_cards(&mut challenger_hand, c.hole_cards.as_slice());
    let board = &state.community_cards;
    let flop = if board.len() >= 3 {
        let three = [board[0], board[1], board[2]];
        assert(three@ =~= board@.subrange(0, 3));
        let mut s = String::new();
        push_cards(&mut s, three.as_slice());
        Some(s)
    } else {
        None
    };
    let turn = if board.len() >= 4 {
        let mut s = String::new();
        push_card(&mut s, &board[3]);
        assert(s@ =~= card_text(board@[3]));
        Some(s)
    } else {
        None
    };
    let river = if board.len() >= 5 {
        let mut s = String::new();
        push_card(&mut s, &board[4]);
        assert(s@ =~= card_text(board@[4]));
        Some(s)
    } else {
        None
    };
    let defender_pos = if sb == WhichBot::Defender {
        PlayerPosition::Button
    } else {
        PlayerPosition::BigBlind
    };
    assert(defender_pos == seat_of(sb, WhichBot::Defender));
    GameStateRecord {
        game_id: String::new(),
        step,
        defender_stack: d.stack as i32,
        challenger_stack: c.stack as i32,
        defender_pushed: d.pushed as i32,
        challenger_pushed: c.pushed as i32,
        defender_hand,
        challenger_hand,
        flop,
        turn,
        river,
        button: sb.other().to_string(),
        sb: sb.to_string(),
        action_time: 0,
        last_action: position_string(state.last_aggressor),
    }
}

} // verus!
