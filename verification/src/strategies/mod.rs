//! Strategies that choose a move for the side to act.

use crate::game::Game;
use vstd::prelude::*;

pub mod mcts;
pub mod mcts_parallel;
pub mod mcts_rayon;
pub mod negamax;
pub mod playout;

verus! {

/// A way of choosing moves, made from its parameters.
pub trait Strategy<G: Game>: Sized {
    type Params;

    /// The parameters that `create` accepts.
    spec fn params_valid(params: Self::Params) -> bool;

    /// The invariant of a strategy that `create` has made.
    spec fn ready(&self) -> bool;

    /// Chooses a move for the side to act in `game`, which must offer one.
    fn decide(&mut self, game: &G) -> (m: G::Move)
        requires
            old(self).ready(),
            game.wf(),
            game.spec_moves().len() > 0,
        ensures
            final(self).ready(),
            game.spec_moves().contains(m),
            game.spec_move_valid(m),
    ;

    fn create(params: Self::Params) -> (s: Self)
        requires
            Self::params_valid(params),
        ensures
            s.ready(),
    ;
}

} // verus!
