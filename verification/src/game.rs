//! The betting state machine of one heads-up hand.
use crate::hands::{
    best5, best_selection, combo_lt, combos_valid, hand_order, hand_order_exec, hand_valid, is_combo,
    lemma_hand_order_antisymmetric, pick, rank, value_of_hand, value_order, Card, Hand, Suite,
};
use rand::rngs::StdRng;
use rand::seq::SliceRandom;
use vstd::prelude::*;

verus! {

/// What a player does when it is their turn.
#[derive(PartialEq, Eq, Debug, Clone, Copy, Structural)]
pub enum Action {
    /// Calling and checking are raises of 0: the amount goes on top of the
    /// current highest push.
    Raise(u32),
    Fold,
}

#[derive(Clone, PartialEq, Eq, Debug, Copy, Structural)]
pub enum Round {
    PreFlop,
    Flop,
    Turn,
    River,
    End,
}

#[derive(Clone, Debug)]
pub struct PlayerState {
    pub stack: u32,
    pub hole_cards: Vec<Card>,
    /// Chips put into the pot during this hand.
    pub pushed: u32,
    /// Did the player act yet in the current betting round.
    pub acted: bool,
}

/// The button is player 0 and posts the small blind; the big blind is
/// player 1.
#[derive(Clone, Copy, Debug, PartialEq, Eq, Structural)]
pub enum PlayerPosition {
    Button,
    BigBlind,
}

#[derive(Clone, Copy, Debug, PartialEq, Eq, Structural)]
pub enum WinReason {
    Showdown(PlayerPosition),
    OtherPlayerFolded(PlayerPosition),
    Tie,
}

#[derive(Clone, Debug)]
pub struct GameState {
    /// Cards still in the deck; they are dealt from its end.
    pub deck: Vec<Card>,
    pub player_states: [PlayerState; 2],
    pub community_cards: Vec<Card>,
    pub round: Round,
    /// The last player to raise; the big blind until someone raises.
    pub last_aggressor: PlayerPosition,
    /// The amount the next player to act must have pushed to call.
    pub target_push: u32,
    pub win_reason: Option<WinReason>,
}

pub enum RoundResult {
    Accept,
    End { payouts: Vec<u32> },
}

/// Why an action was refused.
#[derive(Debug, Clone, Copy, PartialEq, Eq, Structural)]
pub enum GameActionError {
    /// The hand is over.
    GameOver,
    /// The text sent by a bot is not an action.
    CouldNotParse,
}

// ------------------------------------------------------------------
// The mathematical model of a hand
// ------------------------------------------------------------------

#[verifier::ext_equal]
pub struct PlayerModel {
    pub stack: int,
    pub hole_cards: Seq<Card>,
    pub pushed: int,
    pub acted: bool,
}

#[verifier::ext_equal]
pub struct GameModel {
    pub deck: Seq<Card>,
    pub button: PlayerModel,
    pub big_blind: PlayerModel,
    pub community: Seq<Card>,
    pub round: Round,
    pub last_aggressor: PlayerPosition,
    pub target_push: int,
    pub win_reason: Option<WinReason>,
}

impl View for PlayerState {
    type V = PlayerModel;

    open spec fn view(&self) -> PlayerModel {
        PlayerModel {
            stack: self.stack as int,
            hole_cards: self.hole_cards@,
            pushed: self.pushed as int,
            acted: self.acted,
        }
    }
}

impl View for GameState {
    type V = GameModel;

    open spec fn view(&self) -> GameModel {
        GameModel {
            deck: self.deck@,
            button: self.player_states[0]@,
            big_blind: self.player_states[1]@,
            community: self.community_cards@,
            round: self.round,
            last_aggressor: self.last_aggressor,
            target_push: self.target_push as int,
            win_reason: self.win_reason,
        }
    }
}

pub open spec fn other(p: PlayerPosition) -> PlayerPosition {
    match p {
        PlayerPosition::Button => PlayerPosition::BigBlind,
        PlayerPosition::BigBlind => PlayerPosition::Button,
    }
}

pub open spec fn pos_index(p: PlayerPosition) -> int {
    match p {
        PlayerPosition::Button => 0,
        PlayerPosition::BigBlind => 1,
    }
}

pub open spec fn seat(m: GameModel, p: PlayerPosition) -> PlayerModel {
    match p {
        PlayerPosition::Button => m.button,
        PlayerPosition::BigBlind => m.big_blind,
    }
}

pub open spec fn with_player(m: GameModel, p: PlayerPosition, s: PlayerModel) -> GameModel {
    match p {
        PlayerPosition::Button => GameModel { button: s, ..m },
        PlayerPosition::BigBlind => GameModel { big_blind: s, ..m },
    }
}

/// The position of a round in the hand, from 0 before the flop to 4 at
/// the end.
pub open spec fn round_index(r: Round) -> int {
    match r {
        Round::PreFlop => 0,
        Round::Flop => 1,
        Round::Turn => 2,
        Round::River => 3,
        Round::End => 4,
    }
}

pub open spec fn min_int(a: int, b: int) -> int {
    if a <= b {
        a
    } else {
        b
    }
}

pub open spec fn max_int(a: int, b: int) -> int {
    if a >= b {
        a
    } else {
        b
    }
}

/// The standard deck: for each value from ace to king, the clubs, spades,
/// hearts and diamonds card.
pub open spec fn standard_deck() -> Seq<Card> {
    Seq::new(52, |i: int| Card { value: (i / 4 + 1) as u32, suite: suite_at(i % 4) })
}

pub open spec fn suite_at(i: int) -> Suite {
    if i == 0 {
        Suite::Clubs
    } else if i == 1 {
        Suite::Spades
    } else if i == 2 {
        Suite::Hearts
    } else {
        Suite::Diamonds
    }
}

/// The last `k` cards of the deck in the order they are dealt.
pub open spec fn dealt(deck: Seq<Card>, k: int) -> Seq<Card> {
    Seq::new(k as nat, |i: int| deck[deck.len() - 1 - i])
}

/// Moves `k` cards from the end of the deck to the board.
pub open spec fn deal(m: GameModel, k: int) -> GameModel {
    GameModel {
        deck: m.deck.subrange(0, m.deck.len() - k),
        community: m.community + dealt(m.deck, k),
        ..m
    }
}

/// A fresh hand: the button posts 1, the big blind posts 2 (or its whole
/// stack if smaller), and each player is dealt two cards from the end of the
/// deck, the button first.
pub open spec fn new_game(stacks: (int, int), deck: Seq<Card>) -> GameModel {
    let n = deck.len();
    let bb_pushed = min_int(2, stacks.1);
    GameModel {
        deck: deck.subrange(0, n - 4),
        button: PlayerModel {
            stack: stacks.0,
            hole_cards: seq![deck[n - 1], deck[n - 2]],
            pushed: 1,
            acted: false,
        },
        big_blind: PlayerModel {
            stack: stacks.1,
            hole_cards: seq![deck[n - 3], deck[n - 4]],
            pushed: bb_pushed,
            acted: false,
        },
        community: Seq::empty(),
        round: Round::PreFlop,
        last_aggressor: PlayerPosition::BigBlind,
        target_push: min_int(bb_pushed, min_int(stacks.0, stacks.1)),
        win_reason: None,
    }
}

/// A player still has to act: they did not act yet in this betting round, or
/// they have not matched the highest push, and the hand is not over.
pub open spec fn should_act(m: GameModel, p: PlayerPosition) -> bool {
    (!seat(m, p).acted || seat(m, p).pushed < m.target_push) && m.round != Round::End
}

/// Who acts next: before the flop the button first, afterwards the big
/// blind first.
pub open spec fn whose_turn(m: GameModel) -> Option<PlayerPosition> {
    let first = if m.round == Round::PreFlop {
        PlayerPosition::Button
    } else {
        PlayerPosition::BigBlind
    };
    if should_act(m, first) {
        Some(first)
    } else if should_act(m, other(first)) {
        Some(other(first))
    } else {
        None
    }
}

pub open spec fn round_over(m: GameModel) -> bool {
    !should_act(m, PlayerPosition::Button) && !should_act(m, PlayerPosition::BigBlind)
}

/// A raise of `amt` by `turn`: the player's push becomes the current target
/// plus `amt`, but never more than either stack.
pub open spec fn apply_raise(m: GameModel, turn: PlayerPosition, amt: int) -> GameModel {
    let cur = seat(m, turn);
    let opp = seat(m, other(turn));
    let added = min_int(m.target_push + amt, min_int(cur.stack, opp.stack));
    let m1 = GameModel {
        last_aggressor: if amt > 0 {
            turn
        } else {
            m.last_aggressor
        },
        target_push: max_int(added, m.target_push),
        ..m
    };
    with_player(m1, turn, PlayerModel { pushed: added, acted: true, ..cur })
}

/// `turn` folds and loses what they pushed to the other player.
pub open spec fn apply_fold(m: GameModel, turn: PlayerPosition) -> GameModel {
    let cur = seat(m, turn);
    let opp = seat(m, other(turn));
    let m1 = with_player(m, turn, PlayerModel { stack: cur.stack - cur.pushed, ..cur });
    let m2 = with_player(m1, other(turn), PlayerModel { stack: opp.stack + cur.pushed, ..opp });
    GameModel { round: Round::End, win_reason: Some(WinReason::OtherPlayerFolded(other(turn))), ..m2 }
}

pub open spec fn reset_acted(m: GameModel) -> GameModel {
    GameModel {
        button: PlayerModel { acted: false, ..m.button },
        big_blind: PlayerModel { acted: false, ..m.big_blind },
        ..m
    }
}

/// The cards a player shows down with: the board and their hole cards.
pub open spec fn showdown_cards(m: GameModel, p: PlayerPosition) -> Seq<Card> {
    m.community + seat(m, p).hole_cards
}

/// How many cards the showdown still deals to complete the board.
pub open spec fn missing_board(m: GameModel) -> int {
    if m.community.len() < 5 {
        5 - m.community.len()
    } else {
        0
    }
}

/// `q` is a best five-card selection of the cards `h`.
pub open spec fn is_best_combo(h: Seq<Card>, q: (int, int, int, int, int)) -> bool {
    &&& is_combo(h.len() as int, q)
    &&& forall|p: (int, int, int, int, int)|
        #[trigger] is_combo(h.len() as int, p) ==> hand_order(pick(h, q), pick(h, p)) >= 0
}

/// The value of the best five cards among `h`.
pub open spec fn best_hand_value(h: Seq<Card>) -> (int, Seq<u8>, Seq<u8>) {
    value_of_hand(pick(h, choose|q: (int, int, int, int, int)| is_best_combo(h, q)))
}

/// How the players' best hands compare: -1 if the button's is worse, 0 on a
/// tie, 1 if it is better.
pub open spec fn showdown_order(m: GameModel) -> int {
    value_order(
        best_hand_value(showdown_cards(m, PlayerPosition::Button)),
        best_hand_value(showdown_cards(m, PlayerPosition::BigBlind)),
    )
}

/// The board is completed, the better hand takes what the other player
/// pushed, and the hand ends; on a tie every player keeps their chips.
pub open spec fn showdown_model(m: GameModel) -> GameModel {
    let m1 = GameModel { round: Round::End, ..deal(m, missing_board(m)) };
    let o = showdown_order(m1);
    let b = m1.button;
    let bb = m1.big_blind;
    if o == 0 {
        GameModel { win_reason: Some(WinReason::Tie), ..m1 }
    } else if o > 0 {
        GameModel {
            button: PlayerModel { stack: b.stack + bb.pushed, ..b },
            big_blind: PlayerModel { stack: bb.stack - bb.pushed, ..bb },
            win_reason: Some(WinReason::Showdown(PlayerPosition::Button)),
            ..m1
        }
    } else {
        GameModel {
            button: PlayerModel { stack: b.stack - b.pushed, ..b },
            big_blind: PlayerModel { stack: bb.stack + b.pushed, ..bb },
            win_reason: Some(WinReason::Showdown(PlayerPosition::BigBlind)),
            ..m1
        }
    }
}

/// The next betting round: the flop deals three cards, turn and river one
/// each, after the river comes the showdown.
pub open spec fn advance(m: GameModel) -> GameModel {
    let m0 = reset_acted(m);
    match m.round {
        Round::PreFlop => GameModel { round: Round::Flop, ..deal(m0, 3) },
        Round::Flop => GameModel { round: Round::Turn, ..deal(m0, 1) },
        Round::Turn => GameModel { round: Round::River, ..deal(m0, 1) },
        _ => showdown_model(GameModel { round: Round::End, ..m0 }),
    }
}

/// The state after the player whose turn it is acted, before the round is
/// closed; `None` when the action is a fold, which ends the hand at once.
pub open spec fn after_bet(m: GameModel, action: Action) -> GameModel {
    match whose_turn(m) {
        Some(turn) => match action {
            Action::Raise(amt) => apply_raise(m, turn, amt as int),
            Action::Fold => m,
        },
        None => m,
    }
}

pub open spec fn is_fold_turn(m: GameModel, action: Action) -> bool {
    whose_turn(m) is Some && action == Action::Fold
}

/// What posting `action` does to the hand.
pub open spec fn post_action_model(m: GameModel, action: Action) -> Result<GameModel, GameActionError> {
    if m.round == Round::End {
        Err(GameActionError::GameOver)
    } else if is_fold_turn(m, action) {
        Ok(apply_fold(m, whose_turn(m)->0))
    } else {
        let m1 = after_bet(m, action);
        if round_over(m1) {
            Ok(advance(m1))
        } else {
            Ok(m1)
        }
    }
}

// ------------------------------------------------------------------
// When the engine can carry a step out
// ------------------------------------------------------------------

/// The cards of a showdown hand can be scored.
pub open spec fn showdown_hand_ok(h: Seq<Card>) -> bool {
    h.len() >= 5 && combos_valid(h)
}

/// Chip amounts fit in `u32`.
pub open spec fn fits(x: int) -> bool {
    0 <= x <= u32::MAX
}

/// The showdown of `m` can be carried out: the deck completes the board,
/// both hands can be scored, and the winner's new stack fits.
pub open spec fn showdown_ok(m: GameModel) -> bool {
    let m1 = GameModel { round: Round::End, ..deal(m, missing_board(m)) };
    let o = showdown_order(m1);
    &&& m.deck.len() >= missing_board(m)
    &&& showdown_hand_ok(showdown_cards(m1, PlayerPosition::Button))
    &&& showdown_hand_ok(showdown_cards(m1, PlayerPosition::BigBlind))
    &&& (o > 0 ==> fits(m.button.stack + m.big_blind.pushed) && m.big_blind.stack
        >= m.big_blind.pushed)
    &&& (o < 0 ==> fits(m.big_blind.stack + m.button.pushed) && m.button.stack >= m.button.pushed)
}

/// The round after `m` can be dealt.
pub open spec fn advance_ok(m: GameModel) -> bool {
    match m.round {
        Round::PreFlop => m.deck.len() >= 3,
        Round::Flop => m.deck.len() >= 1,
        Round::Turn => m.deck.len() >= 1,
        Round::River => showdown_ok(reset_acted(m)),
        Round::End => true,
    }
}

/// `action` can be posted without the engine running out of cards or chip
/// arithmetic leaving `u32`.
pub open spec fn post_action_ok(m: GameModel, action: Action) -> bool {
    m.round != Round::End ==> if is_fold_turn(m, action) {
        let cur = seat(m, whose_turn(m)->0);
        let opp = seat(m, other(whose_turn(m)->0));
        cur.stack >= cur.pushed && fits(opp.stack + cur.pushed)
    } else {
        &&& (whose_turn(m) is Some && action is Raise) ==> fits(m.target_push + action->Raise_0)
        &&& round_over(after_bet(m, action)) ==> advance_ok(after_bet(m, action))
    }
}


// ------------------------------------------------------------------
// Lemmas
// ------------------------------------------------------------------

proof fn lemma_deal_step(m: GameModel, k: int)
    requires
        0 <= k,
        k + 1 <= m.deck.len(),
    ensures
        deal(deal(m, k), 1) == deal(m, k + 1),
{
    let d1 = deal(deal(m, k), 1);
    let d2 = deal(m, k + 1);
    assert(d1.deck =~= d2.deck);
    assert(d1.community =~= d2.community);
}

/// The value of what `best5` returns is the value of the best hand.
proof fn lemma_best_value(h: Seq<Card>, r: Seq<Card>)
    requires
        best_selection(h, r),
    ensures
        value_of_hand(r) == best_hand_value(h),
{
    let q = choose|q: (int, int, int, int, int)|
        #[trigger] is_combo(h.len() as int, q) && r == pick(h, q) && forall|
            p: (int, int, int, int, int),
        | #[trigger] is_combo(h.len() as int, p) && combo_lt(q, p) ==> hand_order(r, pick(h, p)) > 0;
    assert(is_best_combo(h, q));
    let c = choose|c: (int, int, int, int, int)| is_best_combo(h, c);
    assert(is_best_combo(h, c));
    assert(hand_order(r, pick(h, c)) >= 0);
    assert(hand_order(pick(h, c), pick(h, q)) >= 0);
    lemma_hand_order_antisymmetric(r, pick(h, c));
}

// ------------------------------------------------------------------
// Laws of the betting state machine
// ------------------------------------------------------------------

/// Taking the other seat twice gives back the seat.
pub proof fn lemma_other_involution(p: PlayerPosition)
    ensures
        other(other(p)) == p,
        other(p) != p,
{
}

/// Nobody is to act exactly when the betting round is over.
pub proof fn lemma_no_turn_iff_round_over(m: GameModel)
    ensures
        whose_turn(m) is None <==> round_over(m),
        whose_turn(m) is Some ==> should_act(m, whose_turn(m)->0),
{
}

/// An action is refused exactly when the hand is over, and then with
/// `GameOver`.
pub proof fn lemma_refused_iff_over(m: GameModel, action: Action)
    ensures
        post_action_model(m, action) is Err <==> m.round == Round::End,
        post_action_model(m, action) is Err ==> post_action_model(m, action)->Err_0
            == GameActionError::GameOver,
{
}

/// Chips are never created or lost: the two stacks add up to the same
/// total before and after an action.
pub proof fn lemma_post_action_conserves_chips(m: GameModel, action: Action)
    requires
        post_action_model(m, action) is Ok,
    ensures
        post_action_model(m, action)->Ok_0.button.stack + post_action_model(m, action)->Ok_0.big_blind.stack
            == m.button.stack + m.big_blind.stack,
{
    if !is_fold_turn(m, action) {
        let m1 = after_bet(m, action);
        if round_over(m1) {
            let m0 = reset_acted(m1);
            if m1.round == Round::River {
                let m2 = GameModel { round: Round::End, ..m0 };
                let m3 = GameModel { round: Round::End, ..deal(m2, missing_board(m2)) };
                assert(m3.button.stack + m3.big_blind.stack == m.button.stack + m.big_blind.stack);
            }
        }
    }
}

/// A fold ends the hand at once: the player whose turn it was loses what
/// they pushed to the other player, who is named the winner.
pub proof fn lemma_fold_pays_other(m: GameModel)
    requires
        m.round != Round::End,
        whose_turn(m) is Some,
    ensures
        ({
            let p = whose_turn(m)->0;
            let r = post_action_model(m, Action::Fold)->Ok_0;
            &&& post_action_model(m, Action::Fold) is Ok
            &&& r.round == Round::End
            &&& r.win_reason == Some(WinReason::OtherPlayerFolded(other(p)))
            &&& seat(r, p).stack == seat(m, p).stack - seat(m, p).pushed
            &&& seat(r, other(p)).stack == seat(m, other(p)).stack + seat(m, p).pushed
        }),
{
}

/// At the showdown the board is completed; the player whose best five
/// cards rank higher takes what the other pushed, and on a tie no stack
/// changes.
pub proof fn lemma_showdown_pays_better_hand(m: GameModel)
    ensures
        ({
            let m1 = GameModel { round: Round::End, ..deal(m, missing_board(m)) };
            let r = showdown_model(m);
            let o = showdown_order(m1);
            &&& r.round == Round::End
            &&& r.community == m1.community
            &&& o == 0 ==> r.win_reason == Some(WinReason::Tie) && r.button.stack == m.button.stack
                && r.big_blind.stack == m.big_blind.stack
            &&& o > 0 ==> r.win_reason == Some(WinReason::Showdown(PlayerPosition::Button))
                && r.button.stack == m.button.stack + m.big_blind.pushed && r.big_blind.stack
                == m.big_blind.stack - m.big_blind.pushed
            &&& o < 0 ==> r.win_reason == Some(WinReason::Showdown(PlayerPosition::BigBlind))
                && r.big_blind.stack == m.big_blind.stack + m.button.pushed && r.button.stack
                == m.button.stack - m.button.pushed
        }),
{
}

/// A raise forces the other player to answer: when the player whose turn
/// it was brings their push up to the new highest push, and the other
/// player's push falls short of it, the betting round goes on and it is
/// the other player's turn.
pub proof fn lemma_raise_forces_call(m: GameModel, amt: u32)
    requires
        m.round != Round::End,
        whose_turn(m) is Some,
        ({
            let p = whose_turn(m)->0;
            let m1 = after_bet(m, Action::Raise(amt));
            seat(m1, p).pushed == m1.target_push && seat(m1, other(p)).pushed < m1.target_push
        }),
    ensures
        post_action_model(m, Action::Raise(amt)) == Ok::<GameModel, GameActionError>(
            after_bet(m, Action::Raise(amt)),
        ),
        whose_turn(after_bet(m, Action::Raise(amt))) == Some(other(whose_turn(m)->0)),
{
}

/// After an action the hand is never stuck: either it is over and names its
/// winner, or someone still has to act.
pub proof fn lemma_post_action_live(m: GameModel, action: Action)
    requires
        post_action_model(m, action) is Ok,
    ensures
        round_over(post_action_model(m, action)->Ok_0) ==> post_action_model(m, action)->Ok_0.round
            == Round::End && post_action_model(m, action)->Ok_0.win_reason is Some,
{
}

/// A freshly dealt hand is not stuck: the button has to act.
pub proof fn lemma_new_game_live(stacks: (int, int), deck: Seq<Card>)
    ensures
        !round_over(new_game(stacks, deck)),
        whose_turn(new_game(stacks, deck)) == Some(PlayerPosition::Button),
{
}

/// The betting rounds only move forward.
pub proof fn lemma_rounds_advance(m: GameModel, action: Action)
    requires
        post_action_model(m, action) is Ok,
    ensures
        round_index(post_action_model(m, action)->Ok_0.round) >= round_index(m.round),
{
}

/// A folded or shown-down hand is over, and a hand that is over names how
/// it was won.
pub proof fn lemma_end_has_winner(m: GameModel, action: Action)
    requires
        post_action_model(m, action) is Ok,
        playable(m),
    ensures
        post_action_model(m, action)->Ok_0.round == Round::End <==> post_action_model(
            m,
            action,
        )->Ok_0.win_reason is Some,
{
}

// ------------------------------------------------------------------
// The hand can always be played on
// ------------------------------------------------------------------

/// How many cards lie on the board during a betting round.
pub open spec fn board_len(r: Round) -> int {
    match r {
        Round::PreFlop => 0,
        Round::Flop => 3,
        Round::Turn => 4,
        _ => 5,
    }
}

/// Every card of the hand: the deck, the board and both players' hole cards.
pub open spec fn all_cards(m: GameModel) -> Seq<Card> {
    m.deck + m.community + m.button.hole_cards + m.big_blind.hole_cards
}

/// Every card has a value from ace (1) to king (13).
pub open spec fn cards_valid(s: Seq<Card>) -> bool {
    forall|i: int| 0 <= i < s.len() ==> 1 <= #[trigger] s[i].value <= 13
}

/// A hand in progress that the engine can play on: the board matches the
/// round, the deck can complete it, no card occurs twice, each player has
/// two hole cards, nobody pushed more than their stack, the stacks add up
/// to an amount that fits, and nobody has won yet.
pub open spec fn playable(m: GameModel) -> bool {
    m.round != Round::End ==> {
        &&& m.community.len() == board_len(m.round)
        &&& m.deck.len() + m.community.len() >= 5
        &&& m.button.hole_cards.len() == 2
        &&& m.big_blind.hole_cards.len() == 2
        &&& all_cards(m).no_duplicates()
        &&& cards_valid(all_cards(m))
        &&& 0 <= m.button.pushed <= m.button.stack
        &&& 0 <= m.big_blind.pushed <= m.big_blind.stack
        &&& m.button.stack + m.big_blind.stack <= u32::MAX
        &&& m.win_reason is None
    }
}

/// A list whose entries are taken, at distinct positions, from a list
/// without repeated or invalid cards has none either.
proof fn lemma_reindexed(old: Seq<Card>, new: Seq<Card>, g: spec_fn(int) -> int)
    requires
        old.no_duplicates(),
        cards_valid(old),
        forall|i: int| 0 <= i < new.len() ==> 0 <= g(i) < old.len() && #[trigger] new[i] == old[g(i)],
        forall|i: int, j: int| 0 <= i < j < new.len() ==> #[trigger] g(i) != #[trigger] g(j),
    ensures
        new.no_duplicates(),
        cards_valid(new),
{
    assert forall|i: int, j: int| 0 <= i < new.len() && 0 <= j < new.len() && i != j implies new[i]
        != new[j] by {
        if i < j {
            assert(g(i) != g(j));
        } else {
            assert(g(j) != g(i));
        }
    }
    assert forall|i: int| 0 <= i < new.len() implies 1 <= #[trigger] new[i].value <= 13 by {
        assert(new[i] == old[g(i)]);
    }
}

/// Dealing to the board keeps every card of the hand, each once.
proof fn lemma_deal_keeps_cards(m: GameModel, k: int)
    requires
        0 <= k <= m.deck.len(),
        all_cards(m).no_duplicates(),
        cards_valid(all_cards(m)),
    ensures
        all_cards(deal(m, k)).no_duplicates(),
        cards_valid(all_cards(deal(m, k))),
        deal(m, k).deck.len() + deal(m, k).community.len() == m.deck.len() + m.community.len(),
        deal(m, k).community.len() == m.community.len() + k,
{
    let n = m.deck.len() as int;
    let c = m.community.len() as int;
    let old = all_cards(m);
    let new = all_cards(deal(m, k));
    let g = |i: int|
        if i < n - k {
            i
        } else if i < n - k + c {
            i + k
        } else if i < n + c {
            n - 1 - (i - (n - k + c))
        } else {
            i
        };
    assert(new.len() == old.len());
    assert forall|i: int| 0 <= i < new.len() implies 0 <= g(i) < old.len() && #[trigger] new[i]
        == old[g(i)] by {
    }
    lemma_reindexed(old, new, g);
}

/// Five distinct cards of values ace to king never all share a value:
/// there are only four suites.
proof fn lemma_five_distinct(h: Seq<Card>)
    requires
        h.len() == 5,
        h.no_duplicates(),
        cards_valid(h),
    ensures
        hand_valid(h),
{
    if rank(h[1]) == rank(h[0]) && rank(h[2]) == rank(h[0]) && rank(h[3]) == rank(h[0]) && rank(h[4])
        == rank(h[0]) {
        assert(h[0] != h[1] && h[0] != h[2] && h[0] != h[3] && h[0] != h[4]);
        assert(h[1] != h[2] && h[1] != h[3] && h[1] != h[4]);
        assert(h[2] != h[3] && h[2] != h[4] && h[3] != h[4]);
        assert(h[1].value == h[0].value && h[2].value == h[0].value && h[3].value == h[0].value
            && h[4].value == h[0].value);
        assert(false);
    }
}

/// On a full board without repeated or invalid cards, every selection of
/// five of a player's seven cards can be scored.
proof fn lemma_showdown_cards_ok(m: GameModel, p: PlayerPosition)
    requires
        m.community.len() == 5,
        m.button.hole_cards.len() == 2,
        m.big_blind.hole_cards.len() == 2,
        all_cards(m).no_duplicates(),
        cards_valid(all_cards(m)),
    ensures
        showdown_hand_ok(showdown_cards(m, p)),
{
    let n = m.deck.len() as int;
    let old = all_cards(m);
    let h = showdown_cards(m, p);
    let g = |i: int|
        if i < 5 {
            n + i
        } else {
            match p {
                PlayerPosition::Button => n + i,
                PlayerPosition::BigBlind => n + i + 2,
            }
        };
    assert forall|i: int| 0 <= i < h.len() implies 0 <= g(i) < old.len() && #[trigger] h[i] == old[g(i)] by {
    }
    lemma_reindexed(old, h, g);
    assert forall|q: (int, int, int, int, int)| #[trigger] is_combo(h.len() as int, q) implies hand_valid(
        pick(h, q),
    ) by {
        let sel = pick(h, q);
        let gq = |i: int|
            if i == 0 {
                q.0
            } else if i == 1 {
                q.1
            } else if i == 2 {
                q.2
            } else if i == 3 {
                q.3
            } else {
                q.4
            };
        assert forall|i: int| 0 <= i < sel.len() implies 0 <= gq(i) < h.len() && #[trigger] sel[i] == h[gq(i)] by {
        }
        lemma_reindexed(h, sel, gq);
        lemma_five_distinct(sel);
    }
}

/// A hand that can be played on takes every action whose raise amount
/// fits: the engine neither runs out of cards nor leaves the chip range,
/// and the hand can again be played on afterwards.
pub proof fn lemma_playable_step(m: GameModel, action: Action)
    requires
        playable(m),
        action is Raise ==> fits(m.target_push + action->Raise_0),
    ensures
        post_action_ok(m, action),
        post_action_model(m, action) is Ok ==> playable(post_action_model(m, action)->Ok_0),
{
    if m.round != Round::End && !is_fold_turn(m, action) {
        let m1 = after_bet(m, action);
        assert(all_cards(m1) == all_cards(m));
        assert(0 <= m1.button.pushed <= m1.button.stack);
        assert(0 <= m1.big_blind.pushed <= m1.big_blind.stack);
        if round_over(m1) {
            let m0 = reset_acted(m1);
            assert(all_cards(m0) == all_cards(m1));
            match m1.round {
                Round::PreFlop => {
                    lemma_deal_keeps_cards(m0, 3);
                },
                Round::Flop => {
                    lemma_deal_keeps_cards(m0, 1);
                },
                Round::Turn => {
                    lemma_deal_keeps_cards(m0, 1);
                },
                Round::River => {
                    let m2 = GameModel { round: Round::End, ..m0 };
                    assert(missing_board(m0) == 0);
                    assert(deal(m0, 0).deck =~= m0.deck);
                    assert(deal(m0, 0).community =~= m0.community);
                    let m3 = GameModel { round: Round::End, ..deal(m0, 0) };
                    assert(all_cards(m3) == all_cards(m));
                    lemma_showdown_cards_ok(m3, PlayerPosition::Button);
                    lemma_showdown_cards_ok(m3, PlayerPosition::BigBlind);
                    assert(showdown_ok(m0));
                },
                Round::End => {},
            }
        }
    }
}

/// An action keeps every card of a hand that can be played on a card from
/// ace to king, whether or not the hand ends.
pub proof fn lemma_post_action_keeps_cards(m: GameModel, action: Action)
    requires
        playable(m),
        post_action_model(m, action) is Ok,
    ensures
        cards_valid(all_cards(post_action_model(m, action)->Ok_0)),
{
    if !is_fold_turn(m, action) {
        let m1 = after_bet(m, action);
        assert(all_cards(m1) == all_cards(m));
        if round_over(m1) {
            let m0 = reset_acted(m1);
            assert(all_cards(m0) == all_cards(m1));
            match m1.round {
                Round::PreFlop => {
                    lemma_deal_keeps_cards(m0, 3);
                },
                Round::Flop => {
                    lemma_deal_keeps_cards(m0, 1);
                },
                Round::Turn => {
                    lemma_deal_keeps_cards(m0, 1);
                },
                Round::River => {
                    assert(missing_board(m0) == 0);
                    let m2 = GameModel { round: Round::End, ..m0 };
                    assert(deal(m2, 0).deck =~= m2.deck);
                    assert(deal(m2, 0).community =~= m2.community);
                    assert(all_cards(showdown_model(m2)) == all_cards(m));
                },
                Round::End => {},
            }
        }
    } else {
        assert(all_cards(post_action_model(m, action)->Ok_0) == all_cards(m));
    }
}

/// A hand started from a shuffled standard deck, with positive stacks
/// whose sum fits, can be played on.
pub proof fn lemma_new_game_playable(stacks: (int, int), deck: Seq<Card>)
    requires
        deck.to_multiset() == standard_deck().to_multiset(),
        stacks.0 > 0,
        stacks.1 > 0,
        stacks.0 + stacks.1 <= u32::MAX,
    ensures
        deck.len() == 52,
        playable(new_game(stacks, deck)),
{
    broadcast use vstd::seq_lib::group_to_multiset_ensures;

    let std = standard_deck();
    assert forall|i: int, j: int| 0 <= i < std.len() && 0 <= j < std.len() && i != j implies std[i]
        != std[j] by {
        if std[i] == std[j] {
            assert(i / 4 == j / 4);
            assert(i % 4 == j % 4);
        }
    }
    assert(std.no_duplicates());
    std.lemma_multiset_has_no_duplicates();
    deck.lemma_multiset_has_no_duplicates_conv();
    assert(deck.len() == std.len()) by {
        assert(deck.to_multiset().len() == deck.len());
        assert(std.to_multiset().len() == std.len());
    }
    assert forall|i: int| 0 <= i < deck.len() implies 1 <= #[trigger] deck[i].value <= 13 by {
        assert(deck.to_multiset().count(deck[i]) > 0);
        assert(std.contains(deck[i]));
        let j = choose|j: int| 0 <= j < std.len() && std[j] == deck[i];
        assert(std[j].value == j / 4 + 1);
    }
    let n = 52int;
    let m = new_game(stacks, deck);
    let g = |i: int|
        if i < n - 4 {
            i
        } else {
            2 * n - 5 - i
        };
    let all = all_cards(m);
    assert forall|i: int| 0 <= i < all.len() implies 0 <= g(i) < deck.len() && #[trigger] all[i] == deck[g(i)] by {
    }
    lemma_reindexed(deck, all, g);
}

// ------------------------------------------------------------------
// Randomness
// ------------------------------------------------------------------

#[verifier::external_type_specification]
#[verifier::external_body]
pub struct ExStdRng(StdRng);

/// Calls rand's `SliceRandom::shuffle` on the cards with the generator: the
/// cards come back in an order the generator picks, none added or lost.
#[verifier::external_body]
fn shuffle_cards(cards: &mut Vec<Card>, rng: &mut StdRng)
    ensures
        final(cards)@.to_multiset() == old(cards)@.to_multiset(),
        final(cards)@.len() == old(cards)@.len(),
{
    cards.shuffle(rng);
}

// ------------------------------------------------------------------
// Executable hand
// ------------------------------------------------------------------

fn min_u32(a: u32, b: u32) -> (r: u32)
    ensures
        r as int == min_int(a as int, b as int),
{
    if a <= b {
        a
    } else {
        b
    }
}

fn max_u32(a: u32, b: u32) -> (r: u32)
    ensures
        r as int == max_int(a as int, b as int),
{
    if a >= b {
        a
    } else {
        b
    }
}

fn copy_cards(v: &Vec<Card>) -> (res: Vec<Card>)
    ensures
        res@ == v@,
{
    let mut res: Vec<Card> = Vec::new();
    let mut i: usize = 0;
    while i < v.len()
        invariant
            i <= v.len(),
            res@ == v@.subrange(0, i as int),
        decreases v.len() - i,
    {
        res.push(v[i]);
        i = i + 1;
        assert(res@ =~= v@.subrange(0, i as int));
    }
    assert(v@.subrange(0, v@.len() as int) =~= v@);
    res
}

impl PlayerPosition {
    /// The other seat.
    pub fn not(self) -> (res: PlayerPosition)
        ensures
            res == other(self),
    {
        match self {
            PlayerPosition::Button => PlayerPosition::BigBlind,
            PlayerPosition::BigBlind => PlayerPosition::Button,
        }
    }

    fn index(self) -> (i: usize)
        ensures
            i as int == pos_index(self),
    {
        match self {
            PlayerPosition::Button => 0,
            PlayerPosition::BigBlind => 1,
        }
    }
}

impl PlayerState {
    fn copy(&self) -> (res: PlayerState)
        ensures
            res@ == self@,
    {
        PlayerState {
            stack: self.stack,
            hole_cards: copy_cards(&self.hole_cards),
            pushed: self.pushed,
            acted: self.acted,
        }
    }
}

impl GameState {
    /// Starts a hand with the button's and the big blind's stacks and a deck
    /// from whose end the cards are dealt.
    pub fn new(stacks: [u32; 2], deck: Vec<Card>) -> (res: GameState)
        requires
            stacks[0] > 0,
            stacks[1] > 0,
            deck@.len() >= 4,
        ensures
            res@ == new_game((stacks[0] as int, stacks[1] as int), deck@),
    {
        let mut deck = deck;
        let ghost d = deck@;
        let b0 = deck.pop().unwrap();
        let b1 = deck.pop().unwrap();
        let g0 = deck.pop().unwrap();
        let g1 = deck.pop().unwrap();
        let mut button_cards: Vec<Card> = Vec::new();
        button_cards.push(b0);
        button_cards.push(b1);
        let mut bb_cards: Vec<Card> = Vec::new();
        bb_cards.push(g0);
        bb_cards.push(g1);
        let bb_pushed = min_u32(2, stacks[1]);
        let target_push = min_u32(bb_pushed, min_u32(stacks[0], stacks[1]));
        let out = GameState {
            deck,
            community_cards: Vec::new(),
            round: Round::PreFlop,
            last_aggressor: PlayerPosition::BigBlind,
            target_push,
            player_states: [
                PlayerState { stack: stacks[0], hole_cards: button_cards, pushed: 1, acted: false },
                PlayerState { stack: stacks[1], hole_cards: bb_cards, pushed: bb_pushed, acted: false },
            ],
            win_reason: None,
        };
        assert(out.deck@ =~= d.subrange(0, d.len() - 4));
        assert(out.player_states[0].hole_cards@ =~= seq![d[d.len() - 1], d[d.len() - 2]]);
        assert(out.player_states[1].hole_cards@ =~= seq![d[d.len() - 3], d[d.len() - 4]]);
        assert(out.community_cards@ =~= Seq::<Card>::empty());
        out
    }

    /// The 52 cards of a standard deck, ace to king, each value in the order
    /// clubs, spades, hearts, diamonds.
    pub fn get_deck() -> (deck: Vec<Card>)
        ensures
            deck@ == standard_deck(),
    {
        let mut out: Vec<Card> = Vec::new();
        out.reserve(52);
        let mut value: u32 = 1;
        while value <= 13
            invariant
                1 <= value <= 14,
                out@.len() == 4 * (value - 1),
                forall|i: int| 0 <= i < out@.len() ==> #[trigger] out@[i] == standard_deck()[i],
            decreases 14 - value,
        {
            let ghost start = out@.len() as int;
            out.push(Card { value, suite: Suite::Clubs });
            out.push(Card { value, suite: Suite::Spades });
            out.push(Card { value, suite: Suite::Hearts });
            out.push(Card { value, suite: Suite::Diamonds });
            assert forall|i: int| 0 <= i < out@.len() implies #[trigger] out@[i] == standard_deck()[i] by {
                if i >= start {
                    assert(i / 4 == value - 1);
                }
            }
            value = value + 1;
        }
        assert(out@ =~= standard_deck());
        out
    }

    /// The standard deck in an order drawn from the generator.
    pub fn get_shuffled_deck(rng: &mut StdRng) -> (deck: Vec<Card>)
        ensures
            deck@.to_multiset() == standard_deck().to_multiset(),
            deck@.len() == 52,
    {
        let mut out = GameState::get_deck();
        shuffle_cards(&mut out, rng);
        out
    }

    /// `pos` still has to act in this betting round.
    pub fn should_act(&self, pos: PlayerPosition) -> (res: bool)
        ensures
            res == should_act(self@, pos),
    {
        let ps = &self.player_states[pos.index()];
        (!ps.acted || ps.pushed < self.target_push) && self.round != Round::End
    }

    /// The player who acts next, or `None` when the betting round is over.
    pub fn whose_turn(&self) -> (res: Option<PlayerPosition>)
        ensures
            res == whose_turn(self@),
    {
        let pos = if self.round == Round::PreFlop {
            PlayerPosition::Button
        } else {
            PlayerPosition::BigBlind
        };
        if self.should_act(pos) {
            Some(pos)
        } else if self.should_act(pos.not()) {
            Some(pos.not())
        } else {
            None
        }
    }

    /// Neither player has to act.
    pub fn round_over(&self) -> (res: bool)
        ensures
            res == round_over(self@),
    {
        !self.should_act(PlayerPosition::Button) && !self.should_act(PlayerPosition::BigBlind)
    }

    /// The best five cards of the board and the player's hole cards.
    pub fn get_player_hand(&self, player: PlayerPosition) -> (res: Hand)
        requires
            showdown_cards(self@, player).len() >= 5,
            showdown_cards(self@, player).len() == 5 || combos_valid(showdown_cards(self@, player)),
        ensures
            best_selection(showdown_cards(self@, player), res.cards@),
    {
        let mut cards = copy_cards(&self.community_cards);
        let hole = &self.player_states[player.index()].hole_cards;
        let mut i: usize = 0;
        while i < hole.len()
            invariant
                i <= hole.len(),
                hole@ == seat(self@, player).hole_cards,
                cards@ == self@.community + hole@.subrange(0, i as int),
            decreases hole.len() - i,
        {
            cards.push(hole[i]);
            i = i + 1;
            assert(cards@ =~= self@.community + hole@.subrange(0, i as int));
        }
        assert(hole@.subrange(0, hole@.len() as int) =~= hole@);
        best5(&cards)
    }

    /// A copy of the player's state.
    pub fn get_state(&self, player: PlayerPosition) -> (res: PlayerState)
        ensures
            res@ == seat(self@, player),
    {
        self.player_states[player.index()].copy()
    }

    /// Replaces the player's state.
    pub fn set_state(&mut self, player: PlayerPosition, state: PlayerState)
        ensures
            final(self)@ == with_player(old(self)@, player, state@),
    {
        let i = player.index();
        self.player_states[i] = state;
    }

    /// Deals one card from the end of the deck to the board.
    fn deal_one(&mut self)
        requires
            old(self).deck@.len() >= 1,
        ensures
            final(self)@ == deal(old(self)@, 1),
    {
        let ghost m = self@;
        let c = self.deck.pop().unwrap();
        self.community_cards.push(c);
        assert(self@.deck =~= deal(m, 1).deck);
        assert(self@.community =~= deal(m, 1).community);
    }

    /// Completes the board, pays the better hand what the other player
    /// pushed (nothing moves on a tie) and ends the hand.
    pub fn showdown(self) -> (res: GameState)
        requires
            showdown_ok(self@),
        ensures
            res@ == showdown_model(self@),
    {
        let ghost m = self@;
        let ghost k = missing_board(m);
        let mut out = self;
        let ghost start = out.community_cards@.len() as int;
        proof {
            assert(deal(m, 0).deck =~= m.deck);
            assert(deal(m, 0).community =~= m.community);
        }
        while out.community_cards.len() < 5
            invariant
                0 <= out.community_cards@.len() - start <= k,
                out.community_cards@.len() < 5 ==> out.community_cards@.len() - start < k,
                start + k == if start < 5 { 5 } else { start },
                m.deck.len() >= k,
                out@ == deal(m, out.community_cards@.len() - start),
            decreases 5 - out.community_cards@.len(),
        {
            let ghost j = out.community_cards@.len() - start;
            out.deal_one();
            proof {
                lemma_deal_step(m, j);
            }
        }
        out.round = Round::End;
        let ghost m1 = out@;
        assert(m1 == GameModel { round: Round::End, ..deal(m, missing_board(m)) });
        let h0 = out.get_player_hand(PlayerPosition::Button);
        let h1 = out.get_player_hand(PlayerPosition::BigBlind);
        let o = hand_order_exec(&h0.cards, &h1.cards);
        proof {
            lemma_best_value(showdown_cards(m1, PlayerPosition::Button), h0.cards@);
            lemma_best_value(showdown_cards(m1, PlayerPosition::BigBlind), h1.cards@);
            assert(o as int == showdown_order(m1));
        }
        if o == 0 {
            out.win_reason = Some(WinReason::Tie);
        } else if o > 0 {
            let won = out.player_states[1].pushed;
            out.player_states[0].stack = out.player_states[0].stack + won;
            out.player_states[1].stack = out.player_states[1].stack - won;
            out.win_reason = Some(WinReason::Showdown(PlayerPosition::Button));
        } else {
            let won = out.player_states[0].pushed;
            out.player_states[1].stack = out.player_states[1].stack + won;
            out.player_states[0].stack = out.player_states[0].stack - won;
            out.win_reason = Some(WinReason::Showdown(PlayerPosition::BigBlind));
        }
        out
    }

    /// Posts the action of the player whose turn it is: a raise (or call) or
    /// a fold; a fold ends the hand.  When the betting round is then over the
    /// next one is dealt, after the river the showdown decides.  An action
    /// after the end of the hand is refused.
    pub fn post_action(self, action: Action) -> (res: Result<GameState, GameActionError>)
        requires
            post_action_ok(self@, action),
        ensures
            match res {
                Ok(out) => post_action_model(self@, action) == Ok::<GameModel, GameActionError>(out@),
                Err(e) => post_action_model(self@, action) == Err::<GameModel, GameActionError>(e),
            },
    {
        let ghost m = self@;
        if self.round == Round::End {
            return Err(GameActionError::GameOver);
        }
        let turn = self.whose_turn();
        let mut out: GameState = self;
        if let Some(turn) = turn {
            let mut cur_state = out.get_state(turn);
            let other_state = out.get_state(turn.not());
            match action {
                Action::Raise(amt) => {
                    let added = min_u32(
                        out.target_push + amt,
                        min_u32(cur_state.stack, other_state.stack),
                    );
                    if amt > 0 {
                        out.last_aggressor = turn;
                    }
                    cur_state.pushed = added;
                    out.target_push = max_u32(added, out.target_push);
                    cur_state.acted = true;
                    out.set_state(turn, cur_state);
                    out.set_state(turn.not(), other_state);
                    assert(out@ == after_bet(m, action));
                },
                Action::Fold => {
                    let mut other_state = other_state;
                    cur_state.stack = cur_state.stack - cur_state.pushed;
                    other_state.stack = other_state.stack + cur_state.pushed;
                    out.round = Round::End;
                    out.set_state(turn, cur_state);
                    out.set_state(turn.not(), other_state);
                    out.win_reason = Some(WinReason::OtherPlayerFolded(turn.not()));
                    assert(out@ == apply_fold(m, turn));
                    return Ok(out);
                },
            }
        }
        assert(out@ == after_bet(m, action));
        if out.round_over() {
            out.player_states[0].acted = false;
            out.player_states[1].acted = false;
            let ghost m1 = after_bet(m, action);
            assert(out@ == GameModel { round: m1.round, ..reset_acted(m1) });
            match out.round {
                Round::PreFlop => {
                    out.round = Round::Flop;
                    let ghost r0 = out@;
                    out.deal_one();
                    out.deal_one();
                    out.deal_one();
                    proof {
                        lemma_deal_step(r0, 1);
                        lemma_deal_step(r0, 2);
                    }
                },
                Round::Flop => {
                    out.round = Round::Turn;
                    out.deal_one();
                },
                Round::Turn => {
                    out.round = Round::River;
                    out.deal_one();
                },
                Round::River => {
                    out.round = Round::End;
                    out = out.showdown();
                },
                Round::End => return Err(GameActionError::GameOver),
            }
        }
        Ok(out)
    }
}

} // verus!
