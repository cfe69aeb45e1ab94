//! A game without choices: the players take turns at counting up, and the
//! first to reach the top wins.

use super::{Game, ParseGame, RandGame, Score, ValidMove};
use vstd::string::StringExecFns;
use vstd::array::spec_array_update;
use crate::rng::next_bool;
use rand::XorShiftRng;
use vstd::prelude::*;

verus! {

pub const MAX_STATE: i64 = 49;

#[derive(Copy, Clone, Debug, PartialEq, Eq, Hash, PartialOrd, Ord, Structural)]
pub enum Player {
    A,
    B,
}

impl Player {
    /// The side that a toss of a coin gives: `A` for heads.
    pub fn from_coin(heads: bool) -> (side: Player)
        ensures
            side == (if heads {
                Player::A
            } else {
                Player::B
            }),
    {
        if heads {
            return Player::A;
        }
        Player::B
    }

    /// A side chosen by the generator.
    pub fn rand(rng: &mut XorShiftRng) -> (side: Player) {
        Self::from_coin(next_bool(rng))
    }

    pub open spec fn spec_other(self) -> Player {
        match self {
            Player::A => Player::B,
            Player::B => Player::A,
        }
    }

    pub fn other(&self) -> (p: Player)
        ensures
            p == self.spec_other(),
    {
        match *self {
            Player::A => Player::B,
            Player::B => Player::A,
        }
    }
}

#[derive(Copy, Clone, Debug, PartialEq, Eq, Hash, PartialOrd, Ord, Structural)]
pub struct PlayerState(pub i64);

#[derive(Copy, Clone, Debug, PartialEq, Eq, Hash, PartialOrd, Ord)]
pub struct TrivialGame {
    pub to_act: Player,
    pub states: [PlayerState; 2],
    pub ref_player: Player,
}

impl TrivialGame {
    /// How far `p` has counted.
    pub open spec fn spec_state(self, p: Player) -> i64 {
        match p {
            Player::A => self.states@[0].0,
            Player::B => self.states@[1].0,
        }
    }

    pub fn state(&self, p: Player) -> (s: i64)
        ensures
            s == self.spec_state(p),
    {
        match p {
            Player::A => self.states[0].0,
            Player::B => self.states[1].0,
        }
    }

    /// Equal keys mean equal counts, side to act and reference player.
    pub proof fn lemma_key_injective(a: TrivialGame, b: TrivialGame)
        requires
            a.wf(),
            b.wf(),
            a.spec_key() == b.spec_key(),
        ensures
            a.states@ == b.states@,
            a.to_act == b.to_act,
            a.ref_player == b.ref_player,
    {
        assert(a.states@[0].0 == b.states@[0].0);
        assert(a.states@[1].0 == b.states@[1].0);
        assert(a.states@ =~= b.states@);
    }
}

pub open spec fn player_code(p: Player) -> int {
    match p {
        Player::A => 0,
        Player::B => 1,
    }
}

impl Game for TrivialGame {
    type Move = ();

    type Agent = Player;

    /// Both counts are between nought and the top, and at most one has
    /// reached it.
    open spec fn wf(&self) -> bool {
        &&& 0 <= self.states@[0].0 <= 49
        &&& 0 <= self.states@[1].0 <= 49
        &&& !(self.states@[0].0 == 49 && self.states@[1].0 == 49)
    }

    open spec fn spec_to_act(&self) -> Player {
        self.to_act
    }

    open spec fn spec_ref_player(&self) -> Player {
        self.ref_player
    }

    open spec fn spec_winner(&self) -> Option<Player> {
        if self.states@[0].0 == 49 {
            Some(Player::A)
        } else if self.states@[1].0 == 49 {
            Some(Player::B)
        } else {
            None
        }
    }

    open spec fn spec_agent_id(a: Player) -> u32 {
        match a {
            Player::A => 0,
            Player::B => 1,
        }
    }

    open spec fn spec_has_won(&self, a: Player) -> bool {
        self.spec_state(a) == 49
    }

    /// The one move is always valid.
    open spec fn spec_move_valid(&self, m: ()) -> bool {
        true
    }

    open spec fn spec_moves(&self) -> Seq<()> {
        if self.spec_winner() is Some {
            Seq::empty()
        } else {
            seq![()]
        }
    }

    open spec fn spec_apply(&self, m: ()) -> TrivialGame {
        let id = player_code(self.to_act);
        TrivialGame {
            to_act: self.to_act.spec_other(),
            states: spec_array_update(
                self.states,
                id,
                PlayerState((self.states@[id].0 + 1) as i64),
            ),
            ref_player: self.ref_player,
        }
    }

    open spec fn spec_new(start: Player) -> TrivialGame {
        TrivialGame {
            to_act: start,
            states: vstd::array::spec_array_fill_for_copy_type::<PlayerState, 2>(PlayerState(0)),
            ref_player: start,
        }
    }

    open spec fn spec_key(&self) -> u128 {
        (((self.states@[0].0 * 50 + self.states@[1].0) * 2 + player_code(self.to_act)) * 2
            + player_code(self.ref_player)) as u128
    }

    open spec fn spec_move_lt(a: (), b: ()) -> bool {
        false
    }

    /// The turns left if both players were to count to the top.
    open spec fn plies_left(&self) -> nat {
        (98 - self.states@[0].0 - self.states@[1].0) as nat
    }

    proof fn lemma_state_laws(&self) {
    }

    proof fn lemma_move_order(a: (), b: (), c: ()) {
    }

    proof fn lemma_apply(&self, m: ()) {
        let next = self.spec_apply(m);
        let id = player_code(self.to_act);
        assert(next.states@ == self.states@.update(id, PlayerState((self.states@[id].0 + 1) as i64)));
        assert(next.wf());
        assert(self.spec_apply(m).plies_left() < self.plies_left());
        assert(self.spec_apply(m).spec_ref_player() == self.spec_ref_player());
    }

    proof fn lemma_key_congruence(&self, other: &TrivialGame, m: ()) {
        Self::lemma_key_injective(*self, *other);
        assert(self.states =~= other.states);
        assert(*self == *other);
    }

    fn to_act(&self) -> Player {
        self.to_act
    }

    fn player_weight(&self, p: &Player) -> Score {
        if *p == self.ref_player {
            1
        } else {
            -1
        }
    }

    fn winner(&self) -> Option<Player> {
        if self.has_won(&Player::A) {
            return Some(Player::A);
        }
        if self.has_won(&Player::B) {
            return Some(Player::B);
        }
        None
    }

    fn agent_id(&self, p: &Player) -> u32 {
        match *p {
            Player::A => 0,
            Player::B => 1,
        }
    }

    fn ref_player(&self) -> Player {
        self.ref_player
    }

    fn new(p: &Player) -> TrivialGame {
        let game = TrivialGame {
            to_act: *p,
            states: [PlayerState(0), PlayerState(0)],
            ref_player: *p,
        };
        proof {
            assert(game.states =~= vstd::array::spec_array_fill_for_copy_type::<PlayerState, 2>(
                PlayerState(0),
            ));
        }
        game
    }

    fn possible_moves(&self) -> (moves: Vec<ValidMove<TrivialGame>>) {
        let mut moves: Vec<ValidMove<TrivialGame>> = Vec::new();
        match self.verify_move(()) {
            Some(v) => {
                moves.push(v);
            },
            None => {},
        }
        moves
    }

    fn move_valid(&self, m: &()) -> bool {
        true
    }

    fn has_won(&self, p: &Player) -> bool {
        let won: bool = self.state(*p) == MAX_STATE;
        assert(won == self.spec_has_won(*p));
        won
    }

    fn apply(&mut self, m: ()) {
        let id: usize = match self.to_act {
            Player::A => 0,
            Player::B => 1,
        };
        let count: i64 = self.states[id].0;
        self.states[id] = PlayerState(count + 1);
        self.to_act = self.to_act.other();
        proof {
            old(self).lemma_apply(m);
            assert(self.states =~= old(self).spec_apply(m).states);
        }
    }

    fn key(&self) -> u128 {
        let a: u128 = self.states[0].0 as u128;
        let b: u128 = self.states[1].0 as u128;
        let t: u128 = match self.to_act {
            Player::A => 0,
            Player::B => 1,
        };
        let r: u128 = match self.ref_player {
            Player::A => 0,
            Player::B => 1,
        };
        ((a * 50 + b) * 2 + t) * 2 + r
    }

    fn move_lt(a: &(), b: &()) -> bool {
        false
    }
}

impl RandGame for TrivialGame {

}

impl ParseGame for TrivialGame {
    /// Every text denotes the one move.
    open spec fn spec_parse_move(&self, input: Seq<char>) -> Option<()> {
        Some(())
    }

    open spec fn spec_move_text(m: ()) -> Seq<char> {
        Seq::empty()
    }

    proof fn lemma_parse_round_trip(&self, m: ()) {
    }

    fn parse_move(&self, input: &str) -> (m: Option<()>) {
        Some(())
    }

    fn move_text(&self, m: &()) -> (s: String) {
        let s = String::from_str("");
        proof {
            reveal_strlit("");
            assert(s@ =~= Seq::<char>::empty());
        }
        s
    }
}

} // verus!
