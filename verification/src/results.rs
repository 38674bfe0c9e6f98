//! Scoring the outcome of a match, and pairing teams for the next matches.
use crate::listing::{parse_i32, parse_i32_range};
use crate::matchplay::{GameError, GameStatus, WhichBot};
use rand::rngs::StdRng;
use rand::Rng;
use vstd::prelude::*;

verus! {

/// Which team index each seat stands for when `sb` is the small blind.
pub fn sb_to_team(sb: WhichBot) -> (res: [usize; 2])
    ensures
        sb == WhichBot::Defender ==> res == [1usize, 0usize],
        sb == WhichBot::Challenger ==> res == [0usize, 1usize],
{
    match sb {
        WhichBot::Defender => [1, 0],
        WhichBot::Challenger => [0, 1],
    }
}

/// The starting stack of the rating formula: the configured text read as a
/// number, 500 when there is none or it cannot be read.
pub fn starting_stack_size(configured: Option<String>) -> (res: i32)
    ensures
        res == match configured {
            Some(s) => match parse_i32(s@) {
                Some(v) => v,
                None => 500i32,
            },
            None => 500i32,
        },
{
    match configured {
        Some(s) => {
            let n = s.as_str().unicode_len();
            match parse_i32_range(s.as_str(), 0, n) {
                Some(v) => {
                    assert(s@.subrange(0, n as int) =~= s@);
                    v
                },
                None => {
                    assert(s@.subrange(0, n as int) =~= s@);
                    500
                },
            }
        },
        None => 500,
    }
}

/// The bot to blame for a failed match.
pub open spec fn blamed(e: GameError) -> Option<WhichBot> {
    match e {
        GameError::InternalError => None,
        GameError::InvalidActionError(b) => Some(b),
        GameError::MemoryError(b) => Some(b),
        GameError::RunTimeError(b) => Some(b),
        GameError::TimeoutError(b) => Some(b),
    }
}

/// The scores of defender and challenger: the chips each won in a played
/// match; nothing for a test game; after an internal error the starting
/// stack to both; when a bot failed, it loses the starting stack and the
/// other bot wins it.
pub open spec fn scores(result: Result<GameStatus, GameError>, start: i32) -> (int, int) {
    match result {
        Ok(GameStatus::ScoreChanged(d, c)) => (d as int, c as int),
        Ok(_) => (0, 0),
        Err(e) => match blamed(e) {
            None => (start as int, start as int),
            Some(WhichBot::Defender) => (-start, start as int),
            Some(WhichBot::Challenger) => (start as int, -start),
        },
    }
}

/// When a bot is to blame for a failed match, the scores are zero-sum: the
/// bot to blame loses the starting stack and the other bot wins it.
pub proof fn lemma_blame_zero_sum(e: GameError, start: i32)
    requires
        blamed(e) is Some,
    ensures
        scores(Err(e), start).0 + scores(Err(e), start).1 == 0,
        blamed(e) == Some(WhichBot::Defender) ==> scores(Err(e), start).0 == -start,
        blamed(e) == Some(WhichBot::Challenger) ==> scores(Err(e), start).1 == -start,
{
}

/// The scores of a match result.
pub fn game_scores(result: &Result<GameStatus, GameError>, starting_stack_size: i32) -> (res: (
    i32,
    i32,
))
    requires
        (*result matches Err(e) && blamed(e) is Some) ==> starting_stack_size != i32::MIN,
    ensures
        res.0 as int == scores(*result, starting_stack_size).0,
        res.1 as int == scores(*result, starting_stack_size).1,
{
    let s = starting_stack_size;
    match result {
        Ok(GameStatus::ScoreChanged(d, c)) => (*d, *c),
        Ok(GameStatus::TestGameSucceeded) => (0, 0),
        Ok(GameStatus::TestGameFailed) => (0, 0),
        Err(e) => match e {
            GameError::InternalError => (s, s),
            GameError::InvalidActionError(b)
            | GameError::MemoryError(b)
            | GameError::RunTimeError(b)
            | GameError::TimeoutError(b) => match b {
                WhichBot::Defender => (-s, s),
                WhichBot::Challenger => (s, -s),
            },
        },
    }
}

/// Ratings change after every match but one that failed on the engine's
/// side.
pub fn rated(result: &Result<GameStatus, GameError>) -> (res: bool)
    ensures
        res == !(result == &Err::<GameStatus, GameError>(GameError::InternalError)),
{
    match result {
        Err(GameError::InternalError) => false,
        _ => true,
    }
}

/// What a finished match leads to: a played or failed match changes the
/// ratings; a bot's test game marks the bot as passed or failed.
#[derive(Clone, Copy, Debug, PartialEq, Eq, Structural)]
pub enum ResultAction {
    RateMatch,
    MarkTestSucceeded,
    MarkTestFailed,
}

pub open spec fn result_action_of(result: Result<GameStatus, GameError>) -> ResultAction {
    match result {
        Ok(GameStatus::TestGameSucceeded) => ResultAction::MarkTestSucceeded,
        Ok(GameStatus::TestGameFailed) => ResultAction::MarkTestFailed,
        _ => ResultAction::RateMatch,
    }
}

/// What to do with a match result.
pub fn result_action(result: &Result<GameStatus, GameError>) -> (res: ResultAction)
    ensures
        res == result_action_of(*result),
{
    match result {
        Ok(GameStatus::TestGameSucceeded) => ResultAction::MarkTestSucceeded,
        Ok(GameStatus::TestGameFailed) => ResultAction::MarkTestFailed,
        _ => ResultAction::RateMatch,
    }
}

// ------------------------------------------------------------------
// Matchmaking
// ------------------------------------------------------------------

/// The teams `i` may play against among `n` teams ordered by rating: those
/// at most 5 places away, from `lo` up to but excluding `hi`.
pub open spec fn window_lo(i: int) -> int {
    if i >= 5 {
        i - 5
    } else {
        0
    }
}

pub open spec fn window_hi(i: int, n: int) -> int {
    if i + 6 <= n {
        i + 6
    } else {
        n
    }
}

/// Calls rand's `Rng::gen_range(lo..hi)`: a number from `lo` up to but
/// excluding `hi`, drawn by the generator.
#[verifier::external_body]
pub(crate) fn gen_index(rng: &mut StdRng, lo: usize, hi: usize) -> (r: usize)
    requires
        lo < hi,
    ensures
        lo <= r < hi,
{
    rng.gen_range(lo..hi)
}

/// The opponent of team `i` for a draw `r` among the other teams of its
/// window: the draw skips over `i` itself.
pub fn opponent_from_draw(i: usize, r: usize, n: usize) -> (res: usize)
    requires
        i < n,
        window_lo(i as int) <= r < window_hi(i as int, n as int) - 1,
    ensures
        res as int == if r >= i {
            r + 1
        } else {
            r as int
        },
        window_lo(i as int) <= res < window_hi(i as int, n as int),
        res != i,
{
    if r >= i {
        r + 1
    } else {
        r
    }
}

/// For each of `n` teams ordered by rating, the index of its opponent:
/// another team at most 5 places away, drawn at random with equal chances.
/// A single team (or none) plays nobody.
pub fn pick_opponents(n: usize, rng: &mut StdRng) -> (res: Vec<usize>)
    ensures
        n <= 1 ==> res@.len() == 0,
        n > 1 ==> res@.len() == n,
        n > 1 ==> forall|i: int|
            0 <= i < n ==> window_lo(i) <= #[trigger] res@[i] < window_hi(i, n as int) && res@[i]
                != i,
{
    let mut res: Vec<usize> = Vec::new();
    if n <= 1 {
        return res;
    }
    let mut i: usize = 0;
    while i < n
        invariant
            n > 1,
            i <= n,
            res@.len() == i,
            forall|k: int|
                0 <= k < i ==> window_lo(k) <= #[trigger] res@[k] < window_hi(k, n as int)
                    && res@[k] != k,
        decreases n - i,
    {
        let lo = if i >= 5 {
            i - 5
        } else {
            0
        };
        let hi = if n - i >= 6 {
            i + 6
        } else {
            n
        };
        let r = gen_index(rng, lo, hi - 1);
        let other = opponent_from_draw(i, r, n);
        res.push(other);
        i = i + 1;
    }
    res
}

} // verus!
