//! The capability that a game offers to the search strategies, and moves whose
//! validity has been checked.

use crate::rng::shuffle;
use rand::XorShiftRng;
use vstd::prelude::*;

pub mod connectfour;
pub mod dots;
pub mod tictactoe;
pub mod trivial;

verus! {

pub type Score = i32;

/// A two-player game state. The `spec_*` functions are the mathematical
/// model of a state; every executable method is tied to them.
pub trait Game: Sized + Copy {
    type Move;

    type Agent: Copy;

    /// The representation invariant of a state.
    spec fn wf(&self) -> bool;

    spec fn spec_to_act(&self) -> Self::Agent;

    spec fn spec_ref_player(&self) -> Self::Agent;

    spec fn spec_winner(&self) -> Option<Self::Agent>;

    spec fn spec_agent_id(a: Self::Agent) -> u32;

    spec fn spec_has_won(&self, a: Self::Agent) -> bool;

    spec fn spec_move_valid(&self, m: Self::Move) -> bool;

    /// The legal moves of the side to act, in the order in which
    /// `possible_moves` lists them; empty once the game is over.
    spec fn spec_moves(&self) -> Seq<Self::Move>;

    spec fn spec_apply(&self, m: Self::Move) -> Self;

    spec fn spec_new(start: Self::Agent) -> Self;

    /// The position key under which statistics of this state are filed.
    spec fn spec_key(&self) -> u128;

    /// The natural strict order of moves, used to break ties.
    spec fn spec_move_lt(a: Self::Move, b: Self::Move) -> bool;

    /// An upper bound on the number of moves that can still be played.
    spec fn plies_left(&self) -> nat;

    /// What every well-formed state satisfies: agents have distinct ids in
    /// {0, 1}; the winner is exactly the agent that has won; a finished game
    /// lists no move; an unfinished one lists a move whenever one is valid;
    /// every listed move is valid and listed once, in ascending order.
    proof fn lemma_state_laws(&self)
        requires
            self.wf(),
        ensures
            forall|a: Self::Agent| #[trigger] Self::spec_agent_id(a) <= 1,
            forall|a: Self::Agent, b: Self::Agent|
                Self::spec_agent_id(a) == Self::spec_agent_id(b) ==> a == b,
            forall|a: Self::Agent| self.spec_winner() == Some(a) <==> #[trigger] self.spec_has_won(a),
            self.spec_winner() is Some ==> self.spec_moves().len() == 0,
            self.spec_winner() is None && self.spec_moves().len() == 0 ==> forall|m: Self::Move|
                !self.spec_move_valid(m),
            forall|i: int|
                0 <= i < self.spec_moves().len() ==> self.spec_move_valid(
                    #[trigger] self.spec_moves()[i],
                ),
            forall|i: int, j: int|
                0 <= i < j < self.spec_moves().len() ==> Self::spec_move_lt(
                    #[trigger] self.spec_moves()[i],
                    #[trigger] self.spec_moves()[j],
                ),
    ;

    /// The order of moves is a strict total order.
    proof fn lemma_move_order(a: Self::Move, b: Self::Move, c: Self::Move)
        ensures
            !Self::spec_move_lt(a, a),
            Self::spec_move_lt(a, b) && Self::spec_move_lt(b, c) ==> Self::spec_move_lt(a, c),
            a != b ==> Self::spec_move_lt(a, b) || Self::spec_move_lt(b, a),
    ;

    /// A valid move in an unfinished game leads to a well-formed state that
    /// is strictly closer to the end, with the same reference player.
    proof fn lemma_apply(&self, m: Self::Move)
        requires
            self.wf(),
            self.spec_move_valid(m),
            self.spec_winner() is None,
        ensures
            self.spec_apply(m).wf(),
            self.spec_apply(m).plies_left() < self.plies_left(),
            self.spec_apply(m).spec_ref_player() == self.spec_ref_player(),
    ;

    /// States with one key are one position to a search: the same side is
    /// to act, the same agent has won, the same moves are listed and valid,
    /// and a move leads both to states with one key again.
    proof fn lemma_key_congruence(&self, other: &Self, m: Self::Move)
        requires
            self.wf(),
            other.wf(),
            self.spec_key() == other.spec_key(),
        ensures
            self.spec_to_act() == other.spec_to_act(),
            self.spec_winner() == other.spec_winner(),
            self.spec_moves() == other.spec_moves(),
            self.spec_move_valid(m) == other.spec_move_valid(m),
            self.spec_apply(m).spec_key() == other.spec_apply(m).spec_key(),
    ;

    fn to_act(&self) -> (a: Self::Agent)
        requires
            self.wf(),
        ensures
            a == self.spec_to_act(),
    ;

    /// +1 for the reference player, -1 for the other agent.
    fn player_weight(&self, a: &Self::Agent) -> (w: Score)
        requires
            self.wf(),
        ensures
            w == if *a == self.spec_ref_player() {
                1i32
            } else {
                -1i32
            },
    ;

    fn winner(&self) -> (w: Option<Self::Agent>)
        requires
            self.wf(),
        ensures
            w == self.spec_winner(),
    ;

    fn agent_id(&self, a: &Self::Agent) -> (id: u32)
        ensures
            id == Self::spec_agent_id(*a),
            id <= 1,
    ;

    fn ref_player(&self) -> (a: Self::Agent)
        requires
            self.wf(),
        ensures
            a == self.spec_ref_player(),
    ;

    fn new(start: &Self::Agent) -> (g: Self)
        ensures
            g == Self::spec_new(*start),
            g.wf(),
            g.spec_to_act() == *start,
            g.spec_ref_player() == *start,
            g.spec_winner() is None,
    ;

    fn possible_moves(&self) -> (moves: Vec<ValidMove<Self>>)
        requires
            self.wf(),
        ensures
            moves@.len() == self.spec_moves().len(),
            forall|i: int|
                0 <= i < moves@.len() ==> (#[trigger] moves@[i]).valid_move
                    == self.spec_moves()[i] && moves@[i].valid_for == *self,
    ;

    fn move_valid(&self, m: &Self::Move) -> (ok: bool)
        requires
            self.wf(),
        ensures
            ok == self.spec_move_valid(*m),
    ;

    fn has_won(&self, agent: &Self::Agent) -> (won: bool)
        requires
            self.wf(),
        ensures
            won == self.spec_has_won(*agent),
    ;

    fn apply(&mut self, m: Self::Move)
        requires
            old(self).wf(),
            old(self).spec_move_valid(m),
            old(self).spec_winner() is None,
        ensures
            *final(self) == old(self).spec_apply(m),
            final(self).wf(),
    ;

    fn key(&self) -> (k: u128)
        requires
            self.wf(),
        ensures
            k == self.spec_key(),
    ;

    fn move_lt(a: &Self::Move, b: &Self::Move) -> (lt: bool)
        ensures
            lt == Self::spec_move_lt(*a, *b),
    ;

    fn has_winner(&self) -> (b: bool)
        requires
            self.wf(),
        ensures
            b == self.spec_winner() is Some,
    {
        self.winner().is_some()
    }

    /// Checks `m` against this state and wraps both when the move is valid
    /// and the game is not over.
    fn verify_move(self, m: Self::Move) -> (vm: Option<ValidMove<Self>>)
        requires
            self.wf(),
        ensures
            vm is Some <==> self.spec_move_valid(m) && self.spec_winner() is None,
            vm matches Some(v) ==> v.valid_move == m && v.valid_for == self,
    {
        if !self.move_valid(&m) {
            return None;
        }
        if self.has_winner() {
            return None;
        }
        Some(ValidMove { valid_move: m, valid_for: self })
    }

    /// As `verify_move`, but borrows the state instead of taking it.
    fn verify_move_mut<'gs>(&'gs mut self, m: Self::Move) -> (vm: Option<ValidMoveMut<'gs, Self>>)
        requires
            old(self).wf(),
        ensures
            vm is Some <==> old(self).spec_move_valid(m) && old(self).spec_winner() is None,
            match vm {
                Some(v) => v.valid_move == m && *v.valid_for == *old(self) && *final(self)
                    == *final(v.valid_for),
                None => *final(self) == *old(self),
            },
    {
        if !self.move_valid(&m) {
            return None;
        }
        if self.has_winner() {
            return None;
        }
        Some(ValidMoveMut { valid_move: m, valid_for: self })
    }

    /// Plays `m` in place if it is valid and the game is not over; says
    /// whether it did.
    fn try_move_mut(&mut self, m: Self::Move) -> (played: bool)
        requires
            old(self).wf(),
        ensures
            played == (old(self).spec_move_valid(m) && old(self).spec_winner() is None),
            played ==> *final(self) == old(self).spec_apply(m),
            !played ==> *final(self) == *old(self),
            final(self).wf(),
    {
        if self.move_valid(&m) && !self.has_winner() {
            self.apply(m);
            true
        } else {
            false
        }
    }

    /// Plays `m` if it is valid and the game is not over; says whether it
    /// did. A refused move leaves the state as it was.
    fn try_move(&mut self, m: Self::Move) -> (played: bool)
        requires
            old(self).wf(),
        ensures
            played == (old(self).spec_move_valid(m) && old(self).spec_winner() is None),
            played ==> *final(self) == old(self).spec_apply(m),
            !played ==> *final(self) == *old(self),
            final(self).wf(),
    {
        if self.move_valid(&m) && !self.has_winner() {
            self.apply(m);
            true
        } else {
            false
        }
    }
}

/// The states that `try_moves` passes through: `start`, then after each of
/// the first `n` moves, a refused move leaving the state as it is.
pub open spec fn after_moves<G: Game>(start: G, moves: Seq<G::Move>, n: int) -> G
    decreases n,
{
    if n <= 0 {
        start
    } else {
        let before = after_moves(start, moves, n - 1);
        if before.spec_move_valid(moves[n - 1]) && before.spec_winner() is None {
            before.spec_apply(moves[n - 1])
        } else {
            before
        }
    }
}

/// Tries the moves in turn, as `try_move` does, and says for each whether
/// it was played.
pub fn try_moves<G: Game>(game: &mut G, moves: Vec<G::Move>) -> (played: Vec<bool>)
    requires
        old(game).wf(),
    ensures
        final(game).wf(),
        *final(game) == after_moves(*old(game), moves@, moves@.len() as int),
        played@.len() == moves@.len(),
        forall|i: int|
            0 <= i < moves@.len() ==> #[trigger] played@[i] == (after_moves(
                *old(game),
                moves@,
                i,
            ).spec_move_valid(moves@[i]) && after_moves(*old(game), moves@, i).spec_winner()
                is None),
{
    let ghost all = moves@;
    let ghost start = *game;
    let mut played: Vec<bool> = Vec::new();
    for m in it: moves
        invariant
            it.seq() == all,
            game.wf(),
            *game == after_moves(start, all, it.index() as int),
            played@.len() == it.index(),
            forall|i: int|
                0 <= i < it.index() ==> #[trigger] played@[i] == (after_moves(
                    start,
                    all,
                    i,
                ).spec_move_valid(all[i]) && after_moves(start, all, i).spec_winner() is None),
    {
        let ok = game.try_move(m);
        played.push(ok);
    }
    played
}

/// A move together with the state it was checked against.
pub struct ValidMove<G: Game> {
    pub valid_move: G::Move,
    pub valid_for: G,
}

impl<G: Game> ValidMove<G> {
    /// The move is valid for the state, and the state is not decided.
    pub open spec fn wf(&self) -> bool {
        &&& self.valid_for.wf()
        &&& self.valid_for.spec_move_valid(self.valid_move)
        &&& self.valid_for.spec_winner() is None
    }

    pub fn valid_move(&self) -> (m: &G::Move)
        ensures
            *m == self.valid_move,
    {
        &self.valid_move
    }

    pub fn board(&self) -> (g: &G)
        ensures
            *g == self.valid_for,
    {
        &self.valid_for
    }

    /// Consumes the checked move and yields the successor state.
    pub fn apply(self) -> (next: G)
        requires
            self.wf(),
        ensures
            next == self.valid_for.spec_apply(self.valid_move),
            next.wf(),
    {
        let mut state: G = self.valid_for;
        state.apply(self.valid_move);
        state
    }
}

/// A checked move that holds its state by mutable reference, so that
/// applying it changes the state in place.
pub struct ValidMoveMut<'gs, G: Game> {
    pub valid_move: G::Move,
    pub valid_for: &'gs mut G,
}

impl<'gs, G: Game> ValidMoveMut<'gs, G> {
    pub fn valid_move(&self) -> (m: &G::Move)
        ensures
            *m == self.valid_move,
    {
        &self.valid_move
    }

    /// Plays the move on the borrowed state.
    pub fn apply(self)
        requires
            self.valid_for.wf(),
            self.valid_for.spec_move_valid(self.valid_move),
            self.valid_for.spec_winner() is None,
        ensures
            *final(self.valid_for) == old(self.valid_for).spec_apply(self.valid_move),
            final(self.valid_for).wf(),
    {
        self.valid_for.apply(self.valid_move);
    }
}

/// `path` is a game played from `start` to its end: it begins at `start`,
/// every further state comes from the one before by a valid move in an
/// undecided position, and the last state is decided or has no valid move.
pub open spec fn is_playout<G: Game>(start: G, path: Seq<G>) -> bool {
    &&& path.len() >= 1
    &&& path[0] == start
    &&& forall|i: int| 0 <= i < path.len() ==> (#[trigger] path[i]).wf()
    &&& forall|i: int|
        0 <= i < path.len() - 1 ==> (#[trigger] path[i]).spec_winner() is None && exists|
            m: G::Move,
        |
            path[i].spec_move_valid(m) && path[i + 1] == path[i].spec_apply(m)
    &&& path.last().spec_winner() is None ==> forall|m: G::Move| !path.last().spec_move_valid(m)
}

/// `w` is what a random game from `start` may end with: nothing where
/// `start` is decided already, and else the winner at the end of a game
/// played from `start`.
pub open spec fn is_outcome<G: Game>(start: G, w: Option<G::Agent>) -> bool {
    if start.spec_winner() is Some {
        w is None
    } else {
        exists|path: Seq<G>| #[trigger] is_playout(start, path) && w == path.last().spec_winner()
    }
}

/// Each of `outcomes` is what a random game from `start` may end with.
pub open spec fn are_outcomes<G: Game>(start: G, outcomes: Seq<Option<G::Agent>>) -> bool {
    forall|k: int| 0 <= k < outcomes.len() ==> is_outcome(start, #[trigger] outcomes[k])
}

/// How many of `outcomes` are wins of `a`.
pub open spec fn wins_of<G: Game>(outcomes: Seq<Option<G::Agent>>, a: G::Agent) -> nat
    decreases outcomes.len(),
{
    if outcomes.len() == 0 {
        0
    } else {
        wins_of::<G>(outcomes.drop_last(), a) + if outcomes.last() == Some(a) {
            1nat
        } else {
            0nat
        }
    }
}

/// Games that can be played out at random.
pub trait RandGame: Game {
    /// Picks a valid move at random, if there is one. The choice is up to
    /// the generator; in an undecided position a move is returned exactly
    /// when one is listed.
    fn random_move<'gs>(&'gs mut self, rng: &mut XorShiftRng) -> (r: Option<ValidMoveMut<'gs, Self>>)
        requires
            old(self).wf(),
        ensures
            match r {
                Some(v) => old(self).spec_move_valid(v.valid_move) && *v.valid_for == *old(self)
                    && *final(self) == *final(v.valid_for),
                None => *final(self) == *old(self),
            },
            old(self).spec_winner() is None ==> (r is None <==> old(self).spec_moves().len() == 0),
    {
        let mut moves = self.possible_moves();
        let ghost listed = moves@;
        shuffle(rng, &mut moves);
        proof {
            self.lemma_state_laws();
            vstd::seq_lib::to_multiset_len(moves@);
            vstd::seq_lib::to_multiset_len(listed);
        }
        if moves.len() == 0 {
            None
        } else {
            let ghost shuffled = moves@;
            let first = moves.swap_remove(0);
            proof {
                assert(shuffled.contains(first)) by {
                    assert(shuffled[0] == first);
                }
                vstd::seq_lib::to_multiset_contains(shuffled, first);
                vstd::seq_lib::to_multiset_contains(listed, first);
                let i = choose|i: int| 0 <= i < listed.len() && listed[i] == first;
                assert(first.valid_move == self.spec_moves()[i]);
            }
            Some(ValidMoveMut { valid_move: first.valid_move, valid_for: self })
        }
    }

    /// Plays random moves from this state until the game ends, and returns
    /// the winner of the final state, `None` for a draw. A state that is
    /// already decided is not played on and yields `None`.
    fn random_outcome(&self, rng: &mut XorShiftRng) -> (w: Option<Self::Agent>)
        requires
            self.wf(),
        ensures
            self.spec_winner() is Some ==> w is None,
            self.spec_winner() is None ==> exists|path: Seq<Self>| #[trigger]
                is_playout(*self, path) && w == path.last().spec_winner(),
    {
        let mut game: Self = *self;
        let ghost mut path: Seq<Self> = seq![*self];
        while !game.has_winner()
            invariant
                game.wf(),
                path.len() >= 1,
                path[0] == *self,
                path.last() == game,
                path.len() == 1 || game.spec_winner() is None,
                forall|i: int| 0 <= i < path.len() ==> (#[trigger] path[i]).wf(),
                forall|i: int|
                    0 <= i < path.len() - 1 ==> (#[trigger] path[i]).spec_winner() is None
                        && exists|m: Self::Move|
                        path[i].spec_move_valid(m) && path[i + 1] == path[i].spec_apply(m),
            decreases game.plies_left(),
        {
            let ghost before = game;
            match game.random_move(rng) {
                None => {
                    proof {
                        before.lemma_state_laws();
                        assert(is_playout(*self, path));
                    }
                    return None;
                },
                Some(v) => {
                    let mv = v.valid_move;
                    proof {
                        before.lemma_apply(mv);
                    }
                    game.apply(mv);
                    proof {
                        let ghost longer = path.push(game);
                        assert forall|i: int| 0 <= i < longer.len() - 1 implies (
                        #[trigger] longer[i]).spec_winner() is None && exists|m: Self::Move|
                            longer[i].spec_move_valid(m) && longer[i + 1] == longer[i].spec_apply(
                                m,
                            ) by {
                            if i < path.len() - 1 {
                                assert(longer[i] == path[i]);
                                assert(longer[i + 1] == path[i + 1]);
                            } else {
                                assert(longer[i] == before);
                                assert(before.spec_move_valid(mv) && longer[i + 1]
                                    == before.spec_apply(mv));
                            }
                        }
                        path = longer;
                    }
                },
            }
            if game.has_winner() {
                proof {
                    assert(is_playout(*self, path));
                }
                return game.winner();
            }
        }
        None
    }

    /// Plays `trials` random games from this state and counts those that the
    /// reference player wins. Which games are played is up to the
    /// generator; the count is that of the reference player's wins among
    /// their outcomes.
    fn monte_carlo(&self, rng: &mut XorShiftRng, trials: u32) -> (wins: u32)
        requires
            self.wf(),
        ensures
            wins <= trials,
            self.spec_winner() is Some ==> wins == 0,
            exists|outcomes: Seq<Option<Self::Agent>>| #[trigger]
                are_outcomes(*self, outcomes) && outcomes.len() == trials && wins == wins_of::<
                    Self,
                >(outcomes, self.spec_ref_player()),
    {
        let ref_player = self.ref_player();
        let ref_id: u32 = self.agent_id(&ref_player);
        let ghost mut outcomes: Seq<Option<Self::Agent>> = Seq::empty();
        let mut wins: u32 = 0;
        let mut played: u32 = 0;
        while played < trials
            invariant
                self.wf(),
                played <= trials,
                wins <= played,
                self.spec_winner() is Some ==> wins == 0,
                ref_player == self.spec_ref_player(),
                ref_id == Self::spec_agent_id(ref_player),
                outcomes.len() == played,
                are_outcomes(*self, outcomes),
                wins == wins_of::<Self>(outcomes, ref_player),
            decreases trials - played,
        {
            let outcome = self.random_outcome(rng);
            proof {
                self.lemma_state_laws();
                let longer = outcomes.push(outcome);
                assert(longer.drop_last() =~= outcomes);
                assert(is_outcome(*self, outcome));
                assert forall|k: int| 0 <= k < longer.len() implies is_outcome(
                    *self,
                    #[trigger] longer[k],
                ) by {
                    if k < outcomes.len() {
                        assert(longer[k] == outcomes[k]);
                    }
                }
                outcomes = longer;
            }
            match outcome {
                Some(c) => {
                    if self.agent_id(&c) == ref_id {
                        wins += 1;
                    }
                },
                None => {},
            }
            played += 1;
        }
        wins
    }
}

/// Games whose moves can be written and read as text.
pub trait ParseGame: Game {
    /// The move that `input` denotes in this state, if it denotes one.
    spec fn spec_parse_move(&self, input: Seq<char>) -> Option<Self::Move>;

    /// The text of a move.
    spec fn spec_move_text(m: Self::Move) -> Seq<char>;

    /// Reading the text of a move that the state lists gives the move
    /// back.
    proof fn lemma_parse_round_trip(&self, m: Self::Move)
        requires
            self.wf(),
            self.spec_moves().contains(m),
        ensures
            self.spec_parse_move(Self::spec_move_text(m)) == Some(m),
    ;

    fn parse_move(&self, input: &str) -> (m: Option<Self::Move>)
        requires
            self.wf(),
        ensures
            m == self.spec_parse_move(input@),
    ;

    /// Writes a move that is valid in this state.
    fn move_text(&self, m: &Self::Move) -> (s: String)
        requires
            self.wf(),
            self.spec_move_valid(*m),
        ensures
            s@ == Self::spec_move_text(*m),
    ;
}

} // verus!
