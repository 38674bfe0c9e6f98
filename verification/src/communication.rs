//! The line-based text protocol between the engine and the bots.
use crate::game::{other, Action, GameActionError, GameState, PlayerPosition, WinReason};
use crate::hands::Card;
use crate::text::{
    cards_printable, cards_text, card_text, decimal, digit_char, push_card, push_cards, push_decimal,
};
use vstd::prelude::*;

verus! {

/// A message the engine sends to a bot.
pub enum EngineCommunication {
    StartGame,
    BettingState { sb_pushed: u32, sb_stack: u32, bb_pushed: u32, bb_stack: u32 },
    /// The hole cards of the small blind (the button) and of the big blind.
    PreFlopCards(Vec<Card>, Vec<Card>),
    FlopCards([Card; 3]),
    TurnCard(Card),
    RiverCard(Card),
    EndGame {
        end_reason: WinReason,
        last_aggressor: PlayerPosition,
        sb_hole_cards: Vec<Card>,
        bb_hole_cards: Vec<Card>,
    },
}

/// How a seat is named on the wire: "SB" for the small blind (the button),
/// "BB" for the big blind.
pub open spec fn position_text(p: PlayerPosition) -> Seq<char> {
    match p {
        PlayerPosition::Button => seq!['S', 'B'],
        PlayerPosition::BigBlind => seq!['B', 'B'],
    }
}

/// The two hole cards of a player as "c1 c2".
pub open spec fn two_cards(cards: Seq<Card>) -> Seq<char> {
    card_text(cards[0]) + seq![' '] + card_text(cards[1])
}

/// The line sent to the bot in seat `p`.
pub open spec fn rendered(msg: EngineCommunication, p: PlayerPosition) -> Seq<char> {
    match msg {
        EngineCommunication::StartGame => "START "@ + position_text(p),
        EngineCommunication::BettingState { sb_pushed, sb_stack, bb_pushed, bb_stack } => {
            let (mine_pushed, mine_stack, their_pushed, their_stack) = match p {
                PlayerPosition::BigBlind => (bb_pushed, bb_stack, sb_pushed, sb_stack),
                PlayerPosition::Button => (sb_pushed, sb_stack, bb_pushed, bb_stack),
            };
            "STACK "@ + decimal(mine_pushed as nat) + seq![' '] + decimal(mine_stack as nat) + seq![
                ' ',
            ] + decimal(their_pushed as nat) + seq![' '] + decimal(their_stack as nat)
        },
        EngineCommunication::PreFlopCards(sb, bb) => "PREFLOP "@ + two_cards(
            match p {
                PlayerPosition::Button => sb@,
                PlayerPosition::BigBlind => bb@,
            },
        ),
        EngineCommunication::FlopCards(cards) => "FLOP "@ + cards_text(cards@),
        EngineCommunication::TurnCard(c) => "TURN "@ + card_text(c),
        EngineCommunication::RiverCard(c) => "RIVER "@ + card_text(c),
        EngineCommunication::EndGame { end_reason, last_aggressor, sb_hole_cards, bb_hole_cards } => {
            let theirs = match p {
                PlayerPosition::BigBlind => sb_hole_cards@,
                PlayerPosition::Button => bb_hole_cards@,
            };
            match end_reason {
                WinReason::OtherPlayerFolded(winner) => "END FOLD "@ + position_text(other(winner)),
                WinReason::Showdown(winner) => if winner == p && last_aggressor == winner {
                    "END SHOWDOWN WINNER "@ + position_text(winner) + " HIDDEN"@
                } else {
                    "END SHOWDOWN WINNER "@ + position_text(winner) + " SHOWN "@ + two_cards(theirs)
                },
                WinReason::Tie => "END SHOWDOWN TIE "@ + two_cards(theirs),
            }
        },
    }
}

/// The message can be written: every card in it is an ace to a king, and
/// each hole-card list that is shown has two cards.
pub open spec fn renderable(msg: EngineCommunication) -> bool {
    match msg {
        EngineCommunication::PreFlopCards(sb, bb) => sb@.len() >= 2 && bb@.len() >= 2
            && cards_printable(sb@) && cards_printable(bb@),
        EngineCommunication::FlopCards(cards) => cards_printable(cards@),
        EngineCommunication::TurnCard(c) => 1 <= c.value <= 13,
        EngineCommunication::RiverCard(c) => 1 <= c.value <= 13,
        EngineCommunication::EndGame { end_reason, sb_hole_cards, bb_hole_cards, .. } =>
            end_reason is OtherPlayerFolded || (sb_hole_cards@.len() >= 2 && bb_hole_cards@.len()
            >= 2 && cards_printable(sb_hole_cards@) && cards_printable(bb_hole_cards@)),
        _ => true,
    }
}

/// At a showdown every seat is told the winner; the winner's own seat gets
/// "HIDDEN" exactly when the winner also raised last, and otherwise each
/// seat is shown the other seat's two hole cards.
pub proof fn lemma_showdown_line(
    winner: PlayerPosition,
    last_aggressor: PlayerPosition,
    sb_hole_cards: Vec<Card>,
    bb_hole_cards: Vec<Card>,
    p: PlayerPosition,
)
    ensures
        ({
            let msg = EngineCommunication::EndGame {
                end_reason: WinReason::Showdown(winner),
                last_aggressor,
                sb_hole_cards,
                bb_hole_cards,
            };
            let theirs = if p == PlayerPosition::Button {
                bb_hole_cards@
            } else {
                sb_hole_cards@
            };
            let head = "END SHOWDOWN WINNER "@ + position_text(winner);
            &&& (winner == p && last_aggressor == p) ==> rendered(msg, p) == head + " HIDDEN"@
            &&& !(winner == p && last_aggressor == p) ==> rendered(msg, p) == head + " SHOWN "@
                + card_text(theirs[0]) + seq![' '] + card_text(theirs[1])
        }),
{
}

/// After a fold both seats are told which seat folded; after a tie each
/// seat is shown the other seat's two hole cards; the stack line gives the
/// seat's own push and stack before the other seat's.
pub proof fn lemma_other_lines(
    msg: EngineCommunication,
    p: PlayerPosition,
)
    ensures
        msg matches EngineCommunication::EndGame { end_reason: WinReason::OtherPlayerFolded(w), .. }
            ==> rendered(msg, p) == "END FOLD "@ + position_text(other(w)),
        msg matches EngineCommunication::EndGame { end_reason: WinReason::Tie, sb_hole_cards, bb_hole_cards, .. }
            ==> rendered(msg, p) == "END SHOWDOWN TIE "@ + two_cards(
            if p == PlayerPosition::Button {
                bb_hole_cards@
            } else {
                sb_hole_cards@
            },
        ),
        msg matches EngineCommunication::BettingState { sb_pushed, sb_stack, bb_pushed, bb_stack } ==> (
        p == PlayerPosition::Button ==> rendered(msg, p) == "STACK "@ + decimal(sb_pushed as nat)
            + seq![' '] + decimal(sb_stack as nat) + seq![' '] + decimal(bb_pushed as nat) + seq![' ']
            + decimal(bb_stack as nat)),
        msg matches EngineCommunication::BettingState { sb_pushed, sb_stack, bb_pushed, bb_stack } ==> (
        p == PlayerPosition::BigBlind ==> rendered(msg, p) == "STACK "@ + decimal(bb_pushed as nat)
            + seq![' '] + decimal(bb_stack as nat) + seq![' '] + decimal(sb_pushed as nat) + seq![' ']
            + decimal(sb_stack as nat)),
{
}

/// `msg` tells how the finished hand `state` ended: why, who raised last,
/// and both players' hole cards.
pub open spec fn ends_hand(state: GameState, msg: EngineCommunication) -> bool {
    match msg {
        EngineCommunication::EndGame { end_reason, last_aggressor, sb_hole_cards, bb_hole_cards } => {
            &&& end_reason == state.win_reason->0
            &&& last_aggressor == state.last_aggressor
            &&& sb_hole_cards@ == state.player_states[0].hole_cards@
            &&& bb_hole_cards@ == state.player_states[1].hole_cards@
        },
        _ => false,
    }
}

fn push_position(s: &mut String, p: PlayerPosition)
    ensures
        final(s)@ == old(s)@ + position_text(p),
{
    proof {
        reveal_strlit("SB");
        reveal_strlit("BB");
    }
    match p {
        PlayerPosition::Button => s.append("SB"),
        PlayerPosition::BigBlind => s.append("BB"),
    }
}

fn push_two_cards(s: &mut String, cards: &Vec<Card>)
    requires
        cards@.len() >= 2,
        cards_printable(cards@),
    ensures
        final(s)@ == old(s)@ + two_cards(cards@),
{
    assert(1 <= cards@[0].value <= 13);
    assert(1 <= cards@[1].value <= 13);
    push_card(s, &cards[0]);
    s.append(" ");
    proof {
        reveal_strlit(" ");
    }
    push_card(s, &cards[1]);
    assert(s@ =~= old(s)@ + two_cards(cards@));
}

fn literal(t: &str) -> (s: String)
    ensures
        s@ == t@,
{
    String::from_str(t)
}

impl EngineCommunication {
    /// The stacks and pushes of both seats.
    pub fn get_betting_state(game_state: &GameState) -> (res: EngineCommunication)
        ensures
            res == (EngineCommunication::BettingState {
                sb_pushed: game_state.player_states[0].pushed,
                sb_stack: game_state.player_states[0].stack,
                bb_pushed: game_state.player_states[1].pushed,
                bb_stack: game_state.player_states[1].stack,
            }),
    {
        EngineCommunication::BettingState {
            sb_pushed: game_state.player_states[0].pushed,
            sb_stack: game_state.player_states[0].stack,
            bb_pushed: game_state.player_states[1].pushed,
            bb_stack: game_state.player_states[1].stack,
        }
    }

    /// The end of a finished hand: why it ended, who raised last, and both
    /// players' hole cards.
    pub fn get_round_end(game_state: &GameState) -> (res: EngineCommunication)
        requires
            game_state.win_reason is Some,
        ensures
            ends_hand(*game_state, res),
    {
        let end_reason = match game_state.win_reason {
            Some(r) => r,
            None => WinReason::Tie,
        };
        EngineCommunication::EndGame {
            end_reason,
            last_aggressor: game_state.last_aggressor,
            sb_hole_cards: copy_card_list(&game_state.player_states[0].hole_cards),
            bb_hole_cards: copy_card_list(&game_state.player_states[1].hole_cards),
        }
    }

    /// The line sent to the bot in seat `position`.
    pub fn render_for_bot(&self, position: PlayerPosition) -> (res: String)
        requires
            renderable(*self),
        ensures
            res@ == rendered(*self, position),
    {
        proof {
            reveal_strlit("START ");
            reveal_strlit("STACK ");
            reveal_strlit("PREFLOP ");
            reveal_strlit("FLOP ");
            reveal_strlit("TURN ");
            reveal_strlit("RIVER ");
            reveal_strlit("END FOLD ");
            reveal_strlit("END SHOWDOWN WINNER ");
            reveal_strlit(" HIDDEN");
            reveal_strlit(" SHOWN ");
            reveal_strlit("END SHOWDOWN TIE ");
            reveal_strlit(" ");
        }
        match self {
            EngineCommunication::StartGame => {
                let mut s = literal("START ");
                push_position(&mut s, position);
                s
            },
            EngineCommunication::BettingState { sb_pushed, sb_stack, bb_pushed, bb_stack } => {
                let (a, b, c, d) = match position {
                    PlayerPosition::BigBlind => (*bb_pushed, *bb_stack, *sb_pushed, *sb_stack),
                    PlayerPosition::Button => (*sb_pushed, *sb_stack, *bb_pushed, *bb_stack),
                };
                let mut s = literal("STACK ");
                push_decimal(&mut s, a);
                s.append(" ");
                push_decimal(&mut s, b);
                s.append(" ");
                push_decimal(&mut s, c);
                s.append(" ");
                push_decimal(&mut s, d);
                s
            },
            EngineCommunication::PreFlopCards(sb, bb) => {
                let mut s = literal("PREFLOP ");
                match position {
                    PlayerPosition::Button => push_two_cards(&mut s, sb),
                    PlayerPosition::BigBlind => push_two_cards(&mut s, bb),
                }
                s
            },
            EngineCommunication::FlopCards(cards) => {
                let mut s = literal("FLOP ");
                push_cards(&mut s, cards.as_slice());
                s
            },
            EngineCommunication::TurnCard(c) => {
                let mut s = literal("TURN ");
                push_card(&mut s, c);
                s
            },
            EngineCommunication::RiverCard(c) => {
                let mut s = literal("RIVER ");
                push_card(&mut s, c);
                s
            },
            EngineCommunication::EndGame { end_reason, last_aggressor, sb_hole_cards, bb_hole_cards } => {
                let theirs = match position {
                    PlayerPosition::BigBlind => sb_hole_cards,
                    PlayerPosition::Button => bb_hole_cards,
                };
                match end_reason {
                    WinReason::OtherPlayerFolded(winner) => {
                        let mut s = literal("END FOLD ");
                        push_position(&mut s, winner.not());
                        s
                    },
                    WinReason::Showdown(winner) => {
                        let mut s = literal("END SHOWDOWN WINNER ");
                        push_position(&mut s, *winner);
                        if *winner == position && *last_aggressor == *winner {
                            s.append(" HIDDEN");
                        } else {
                            s.append(" SHOWN ");
                            push_two_cards(&mut s, theirs);
                        }
                        s
                    },
                    WinReason::Tie => {
                        let mut s = literal("END SHOWDOWN TIE ");
                        push_two_cards(&mut s, theirs);
                        s
                    },
                }
            },
        }
    }
}

fn copy_card_list(v: &Vec<Card>) -> (res: Vec<Card>)
    ensures
        res@ == v@,
{
    let mut res: Vec<Card> = Vec::new();
    let mut i: usize = 0;
    while i < v.len()
        invariant
            i <= v.len(),
            res@ == v@.subrange(0, i as int),
        decreases v.len() - i,
    {
        res.push(v[i]);
        i = i + 1;
        assert(res@ =~= v@.subrange(0, i as int));
    }
    assert(v@.subrange(0, v@.len() as int) =~= v@);
    res
}


// ------------------------------------------------------------------
// Reading the bots' actions
// ------------------------------------------------------------------

pub open spec fn is_digit(c: char) -> bool {
    '0' <= c <= '9'
}

pub open spec fn all_digits(s: Seq<char>) -> bool {
    forall|i: int| 0 <= i < s.len() ==> #[trigger] is_digit(s[i])
}

/// The number written by the decimal digits `s`.
pub open spec fn digits_value(s: Seq<char>) -> nat
    decreases s.len(),
{
    if s.len() == 0 {
        0
    } else {
        digits_value(s.drop_last()) * 10 + ((s.last() as u32 - 48) as nat)
    }
}

/// How an unsigned 32-bit number is read from text: an optional leading '+'
/// and at least one decimal digit, the value not above `u32::MAX`.
pub open spec fn parse_u32(s: Seq<char>) -> Option<u32> {
    let digits = if s.len() > 0 && s[0] == '+' {
        s.drop_first()
    } else {
        s
    };
    if digits.len() > 0 && all_digits(digits) && digits_value(digits) <= u32::MAX {
        Some(digits_value(digits) as u32)
    } else {
        None
    }
}

/// An action line: "F" folds, "C" calls (a raise of 0), "R" followed by a
/// number raises by that number; anything else cannot be read.
pub open spec fn parse_action_spec(line: Seq<char>) -> Result<Action, GameActionError> {
    if line == seq!['F'] {
        Ok(Action::Fold)
    } else if line == seq!['C'] {
        Ok(Action::Raise(0))
    } else if line.len() == 0 || line[0] != 'R' {
        Err(GameActionError::CouldNotParse)
    } else {
        match parse_u32(line.drop_first()) {
            Some(v) => Ok(Action::Raise(v)),
            None => Err(GameActionError::CouldNotParse),
        }
    }
}

/// The decimal digits of a number are digits, at least one, and read back
/// as the number.
pub proof fn lemma_decimal_reads_back(n: nat)
    ensures
        decimal(n).len() > 0,
        all_digits(decimal(n)),
        digits_value(decimal(n)) == n,
        is_digit(decimal(n)[0]),
    decreases n,
{
    let k = (n % 10) as int;
    let c = digit_char(k);
    assert(c as u32 == k + 48);
    if n >= 10 {
        lemma_decimal_reads_back(n / 10);
        let d = decimal(n / 10);
        assert(decimal(n) == d.push(c));
        assert(decimal(n).drop_last() =~= d);
        assert(decimal(n)[0] == d[0]);
        assert(digits_value(decimal(n)) == digits_value(d) * 10 + k);
        assert((n / 10) * 10 + n % 10 == n) by (nonlinear_arith);
    } else {
        assert(decimal(n) == seq![c]);
        assert(decimal(n).drop_last() =~= Seq::<char>::empty());
        assert(decimal(n).last() == c);
        assert(digits_value(decimal(n)) == digits_value(Seq::<char>::empty()) * 10 + k);
    }
}

/// A raise written in decimal after an 'R' is read as that raise, and "F"
/// and "C" are a fold and a call.
pub proof fn lemma_action_lines_read_back(n: u32)
    ensures
        parse_action_spec(seq!['R'] + decimal(n as nat)) == Ok::<Action, GameActionError>(Action::Raise(n)),
        parse_action_spec(seq!['F']) == Ok::<Action, GameActionError>(Action::Fold),
        parse_action_spec(seq!['C']) == Ok::<Action, GameActionError>(Action::Raise(0)),
{
    lemma_decimal_reads_back(n as nat);
    let line = seq!['R'] + decimal(n as nat);
    assert(line.drop_first() =~= decimal(n as nat));
    assert(line[0] == 'R');
    assert(line != seq!['F']);
    assert(line != seq!['C']);
    assert(seq!['C'] != seq!['F']) by {
        assert(seq!['C'][0] != seq!['F'][0]);
    }
}

proof fn lemma_digits_value_push(s: Seq<char>, c: char)
    ensures
        digits_value(s.push(c)) == digits_value(s) * 10 + ((c as u32 - 48) as nat),
{
    assert(s.push(c).drop_last() =~= s);
}

/// Reads an unsigned number from the characters of `line` from position
/// `start` on.
fn parse_number(line: &str, start: usize) -> (res: Option<u32>)
    requires
        start <= line@.len(),
    ensures
        res == parse_u32(line@.subrange(start as int, line@.len() as int)),
{
    let n = line.unicode_len();
    let ghost s = line@.subrange(start as int, n as int);
    let mut i = start;
    if i < n && line.get_char(i) == '+' {
        i = i + 1;
    }
    let ghost digits = line@.subrange(i as int, n as int);
    assert(digits =~= (if s.len() > 0 && s[0] == '+' {
        s.drop_first()
    } else {
        s
    }));
    if i == n {
        return None;
    }
    let first = i;
    let mut value: u64 = 0;
    while i < n
        invariant
            n == line@.len(),
            first <= i <= n,
            digits == line@.subrange(first as int, n as int),
            digits == (if s.len() > 0 && s[0] == '+' {
                s.drop_first()
            } else {
                s
            }),
            digits.len() > 0,
            s == line@.subrange(start as int, n as int),
            all_digits(line@.subrange(first as int, i as int)),
            value as nat == digits_value(line@.subrange(first as int, i as int)),
            value <= u32::MAX,
        decreases n - i,
    {
        let c = line.get_char(i);
        let ghost pre = line@.subrange(first as int, i as int);
        assert(line@.subrange(first as int, i + 1) =~= pre.push(c));
        assert(digits[i - first] == c);
        if c < '0' || c > '9' {
            assert(!is_digit(digits[i - first]));
            assert(!all_digits(digits));
            return None;
        }
        proof {
            lemma_digits_value_push(pre, c);
        }
        let d = (c as u32 - 48) as u64;
        value = value * 10 + d;
        if value > 4294967295 {
            proof {
                assert(all_digits(line@.subrange(first as int, i + 1)));
                if all_digits(digits) {
                    lemma_digits_prefix_bound(digits, (i + 1 - first) as int);
                    assert(digits.subrange(0, i + 1 - first) =~= line@.subrange(first as int, i + 1));
                }
            }
            return None;
        }
        i = i + 1;
    }
    Some(value as u32)
}

/// A number's digits are worth at least as much as any prefix of them.
proof fn lemma_digits_prefix_bound(s: Seq<char>, k: int)
    requires
        0 <= k <= s.len(),
        all_digits(s),
    ensures
        digits_value(s.subrange(0, k)) <= digits_value(s),
    decreases s.len(),
{
    if k < s.len() {
        assert(s.drop_last() =~= s.subrange(0, s.len() - 1));
        assert(all_digits(s.drop_last()));
        lemma_digits_prefix_bound(s.drop_last(), k);
        assert(s.drop_last().subrange(0, k) =~= s.subrange(0, k));
    } else {
        assert(s.subrange(0, k) =~= s);
    }
}

/// Reads a bot's action line.
pub fn parse_action(line: &str) -> (res: Result<Action, GameActionError>)
    ensures
        res == parse_action_spec(line@),
{
    let n = line.unicode_len();
    if n == 1 && line.get_char(0) == 'F' {
        assert(line@ =~= seq!['F']);
        return Ok(Action::Fold);
    }
    if n == 1 && line.get_char(0) == 'C' {
        assert(line@ =~= seq!['C']);
        return Ok(Action::Raise(0));
    }
    assert(line@ != seq!['F'] && line@ != seq!['C']) by {
        if line@ == seq!['F'] || line@ == seq!['C'] {
            assert(line@.len() == 1);
        }
    }
    if n == 0 || line.get_char(0) != 'R' {
        return Err(GameActionError::CouldNotParse);
    }
    assert(line@.drop_first() =~= line@.subrange(1, n as int));
    match parse_number(line, 1) {
        Some(v) => Ok(Action::Raise(v)),
        None => Err(GameActionError::CouldNotParse),
    }
}

} // verus!
