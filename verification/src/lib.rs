//! Heads-up no-limit poker engine for bot tournaments: card and hand
//! evaluation, the betting state machine, the text protocol spoken with the
//! bots, match bookkeeping, result scoring and the account and team rules of
//! the league website.
use vstd::prelude::*;

pub mod accounts;
pub mod communication;
pub mod game;
pub mod hands;
pub mod listing;
pub mod matchplay;
pub mod membership;
pub mod results;
pub mod signin;
pub mod text;

verus! {

} // verus!
