//! Tic-tac-toe on a three by three board.

use super::{Game, ParseGame, RandGame, Score, ValidMove, ValidMoveMut};
use crate::text::{
    chars_of, decimal_text, find_word, find_word_end, format_usize, lemma_decimal_text,
    lemma_digits_end, lemma_parse_decimal, next_word, parse_usize, slice, spec_parse_usize,
    word_end,
};
use vstd::string::StringExecFns;
use crate::rng::{next_bool, shuffle};
use rand::XorShiftRng;
use crate::counting::{
    all_below4, count_true, lemma_count_clear, lemma_pack4_injective, lemma_true_indices,
    lemma_true_indices_step, pack4, pack_digits, true_indices,
};
use vstd::array::spec_array_fill_for_copy_type;
use vstd::array::spec_array_update;
use vstd::prelude::*;

verus! {

pub const SIZE: usize = 3;

pub const REQ: usize = 3;

#[derive(Copy, Clone, Debug, PartialEq, Eq, Hash, PartialOrd, Ord, Structural)]
pub enum Marker {
    X,
    O,
}

impl Marker {
    /// The side that a toss of a coin gives: `X` for heads.
    pub fn from_coin(heads: bool) -> (side: Marker)
        ensures
            side == (if heads {
                Marker::X
            } else {
                Marker::O
            }),
    {
        if heads {
            return Marker::X;
        }
        Marker::O
    }

    /// A side chosen by the generator.
    pub fn rand(rng: &mut XorShiftRng) -> (side: Marker) {
        Self::from_coin(next_bool(rng))
    }

    pub open spec fn spec_flip(self) -> Marker {
        match self {
            Marker::X => Marker::O,
            Marker::O => Marker::X,
        }
    }

    pub fn flip(&self) -> (m: Marker)
        ensures
            m == self.spec_flip(),
    {
        match *self {
            Marker::X => Marker::O,
            Marker::O => Marker::X,
        }
    }
}

#[derive(Copy, Clone, Debug, PartialEq, Eq, Hash, Structural)]
pub struct Square(pub Option<Marker>);

#[derive(Copy, Clone, Debug, PartialEq, Eq, Hash)]
pub struct Board {
    pub board: [Square; 9],
}

impl Board {
    /// The square in row `i`, column `j`.
    pub open spec fn at(self, i: int, j: int) -> Square {
        self.board@[i * 3 + j]
    }

    pub fn get(&self, i: usize, j: usize) -> (s: Square)
        requires
            i * 3 + j < 9,
        ensures
            s == self.at(i as int, j as int),
    {
        self.board[i * SIZE + j]
    }

    pub fn set(&mut self, i: usize, j: usize, x: Marker)
        requires
            i * 3 + j < 9,
        ensures
            final(self).board == spec_array_update(old(self).board, i * 3 + j, Square(Some(x))),
            final(self).board@ == old(self).board@.update(i * 3 + j, Square(Some(x))),
    {
        self.board[i * SIZE + j] = Square(Some(x));
    }
}

impl Default for Board {
    fn default() -> (b: Board)
        ensures
            b.board == spec_array_fill_for_copy_type::<Square, 9>(Square(None)),
            forall|k: int| 0 <= k < 9 ==> b.board@[k] == Square(None),
    {
        Board { board: [Square(None);9] }
    }
}

#[derive(Copy, Clone, Debug, PartialEq, Eq, Hash)]
pub struct TicTacToe {
    pub state: Board,
    pub to_act: Marker,
    pub ref_player: Marker,
    pub winner: Option<Marker>,
}

/// The three squares `a`, `b`, `c` all hold `m`.
pub open spec fn line(cells: Seq<Square>, m: Marker, a: int, b: int, c: int) -> bool {
    cells[a] == Square(Some(m)) && cells[b] == Square(Some(m)) && cells[c] == Square(Some(m))
}

/// `m` fills a row, a column or a diagonal.
pub open spec fn three_in_a_row(cells: Seq<Square>, m: Marker) -> bool {
    ||| line(cells, m, 0, 1, 2)
    ||| line(cells, m, 3, 4, 5)
    ||| line(cells, m, 6, 7, 8)
    ||| line(cells, m, 0, 3, 6)
    ||| line(cells, m, 1, 4, 7)
    ||| line(cells, m, 2, 5, 8)
    ||| line(cells, m, 0, 4, 8)
    ||| line(cells, m, 2, 4, 6)
}

pub open spec fn marker_code(m: Marker) -> nat {
    match m {
        Marker::X => 0,
        Marker::O => 1,
    }
}

pub open spec fn square_code(s: Square) -> nat {
    match s.0 {
        None => 0,
        Some(m) => marker_code(m) + 1,
    }
}

/// The move that fills square `k`, counted row by row.
pub open spec fn move_at(k: int, m: Marker) -> (usize, usize, Marker) {
    ((k / 3) as usize, (k % 3) as usize, m)
}

impl TicTacToe {
    /// Which squares are free.
    pub open spec fn empties(self) -> Seq<bool> {
        self.state.board@.map_values(|s: Square| s.0 is None)
    }

    /// The base-four digits of the position key: the nine squares, the side
    /// to act, the reference player and the winner.
    pub open spec fn digits(self) -> Seq<nat> {
        self.state.board@.map_values(|s: Square| square_code(s)).push(
            marker_code(self.to_act),
        ).push(marker_code(self.ref_player)).push(square_code(Square(self.winner)))
    }

    fn lines_won(board: &Board, marker: Marker) -> (won: bool)
        ensures
            won == three_in_a_row(board.board@, marker),
    {
        let want = Square(Some(marker));
        let mut i: usize = 0;
        while i < SIZE
            invariant
                i <= 3,
                want == Square(Some(marker)),
                i > 0 ==> !line(board.board@, marker, 0, 1, 2) && !line(board.board@, marker, 0, 3, 6),
                i > 1 ==> !line(board.board@, marker, 3, 4, 5) && !line(board.board@, marker, 1, 4, 7),
                i > 2 ==> !line(board.board@, marker, 6, 7, 8) && !line(board.board@, marker, 2, 5, 8),
            decreases 3 - i,
        {
            if board.get(i, 0) == want && board.get(i, 1) == want && board.get(i, 2) == want {
                return true;
            }
            if board.get(0, i) == want && board.get(1, i) == want && board.get(2, i) == want {
                return true;
            }
            i += 1;
        }
        if board.get(0, 0) == want && board.get(1, 1) == want && board.get(2, 2) == want {
            return true;
        }
        board.get(0, 2) == want && board.get(1, 1) == want && board.get(2, 0) == want
    }

    /// Equal keys mean equal squares, side to act, reference player and
    /// winner.
    pub proof fn lemma_key_injective(a: TicTacToe, b: TicTacToe)
        requires
            a.spec_key() == b.spec_key(),
        ensures
            a.state.board@ == b.state.board@,
            a.to_act == b.to_act,
            a.ref_player == b.ref_player,
            a.winner == b.winner,
    {
        Self::lemma_digits(a);
        Self::lemma_digits(b);
        lemma_pack4_injective(a.digits(), b.digits());
        assert forall|k: int| 0 <= k < 9 implies a.state.board@[k] == b.state.board@[k] by {
            assert(a.digits()[k] == square_code(a.state.board@[k]));
            assert(b.digits()[k] == square_code(b.state.board@[k]));
        }
        assert(a.state.board@ =~= b.state.board@);
        assert(a.digits()[9] == b.digits()[9]);
        assert(a.digits()[10] == b.digits()[10]);
        assert(a.digits()[11] == b.digits()[11]);
    }

    proof fn lemma_digits(g: TicTacToe)
        ensures
            g.digits().len() == 12,
            all_below4(g.digits()),
            pack4(g.digits()) <= u128::MAX,
    {
        crate::counting::lemma_pack4_bound(g.digits());
        crate::counting::lemma_pow4_monotone(12, 63);
        crate::counting::lemma_pow4_63();
    }
}

/// The sign of a square: a blank for a free one, else its marker.
pub open spec fn square_text(s: Square) -> Seq<char> {
    match s.0 {
        None => " "@,
        Some(Marker::X) => "X"@,
        Some(Marker::O) => "O"@,
    }
}

/// Row `i`: its three squares, each between two blanks, between two bars.
pub open spec fn row_text(cells: Seq<Square>, i: int) -> Seq<char> {
    "|"@ + " "@ + square_text(cells[i * 3]) + " "@ + " "@ + square_text(cells[i * 3 + 1]) + " "@
        + " "@ + square_text(cells[i * 3 + 2]) + " "@ + "|\n"@
}

impl Marker {
    pub fn show(&self) -> (s: &'static str)
        ensures
            s@ == square_text(Square(Some(*self))),
    {
        match *self {
            Marker::X => "X",
            Marker::O => "O",
        }
    }
}

impl Square {
    pub fn show(&self) -> (s: &'static str)
        ensures
            s@ == square_text(*self),
    {
        match self.0 {
            None => " ",
            Some(x) => x.show(),
        }
    }
}

impl Board {
    /// The board as text: the three rows between two lines of dashes, and
    /// the numbers of the columns.
    pub open spec fn text(self) -> Seq<char> {
        "|---------|\n"@ + row_text(self.board@, 0) + row_text(self.board@, 1) + row_text(
            self.board@,
            2,
        ) + "|---------|\n"@ + "  1  2  3  \n"@
    }

    fn row_string(&self, i: usize) -> (s: String)
        requires
            i < 3,
        ensures
            s@ == row_text(self.board@, i as int),
    {
        let mut s = String::from_str("|");
        let mut j: usize = 0;
        while j < SIZE
            invariant
                i < 3,
                j <= 3,
                j == 0 ==> s@ == "|"@,
                j == 1 ==> s@ == "|"@ + " "@ + square_text(self.board@[i * 3]) + " "@,
                j == 2 ==> s@ == "|"@ + " "@ + square_text(self.board@[i * 3]) + " "@ + " "@
                    + square_text(self.board@[i * 3 + 1]) + " "@,
                j == 3 ==> s@ == "|"@ + " "@ + square_text(self.board@[i * 3]) + " "@ + " "@
                    + square_text(self.board@[i * 3 + 1]) + " "@ + " "@ + square_text(
                    self.board@[i * 3 + 2],
                ) + " "@,
            decreases 3 - j,
        {
            let square = self.get(i, j);
            s.append(" ");
            s.append(square.show());
            s.append(" ");
            j += 1;
        }
        s.append("|\n");
        s
    }

    pub fn to_string(&self) -> (s: String)
        ensures
            s@ == self.text(),
    {
        let mut s = String::from_str("|---------|\n");
        let mut i: usize = 0;
        while i < SIZE
            invariant
                i <= 3,
                i == 0 ==> s@ == "|---------|\n"@,
                i == 1 ==> s@ == "|---------|\n"@ + row_text(self.board@, 0),
                i == 2 ==> s@ == "|---------|\n"@ + row_text(self.board@, 0) + row_text(
                    self.board@,
                    1,
                ),
                i == 3 ==> s@ == "|---------|\n"@ + row_text(self.board@, 0) + row_text(
                    self.board@,
                    1,
                ) + row_text(self.board@, 2),
            decreases 3 - i,
        {
            let row = self.row_string(i);
            s.append(row.as_str());
            i += 1;
        }
        s.append("|---------|\n");
        s.append("  1  2  3  \n");
        s
    }
}

impl TicTacToe {
    /// The state as text: who acts and who is the reference player, then
    /// the board and an empty line.
    pub open spec fn text(self) -> Seq<char> {
        "Acting: "@ + square_text(Square(Some(self.to_act))) + ", Ref: "@ + square_text(
            Square(Some(self.ref_player)),
        ) + "\n"@ + self.state.text() + "\n"@
    }

    pub fn to_string(&self) -> (s: String)
        ensures
            s@ == self.text(),
    {
        let mut s = String::from_str("Acting: ");
        s.append(self.to_act.show());
        s.append(", Ref: ");
        s.append(self.ref_player.show());
        s.append("\n");
        let board = self.state.to_string();
        s.append(board.as_str());
        s.append("\n");
        s
    }
}

impl Game for TicTacToe {
    type Move = (usize, usize, Marker);

    type Agent = Marker;

    open spec fn wf(&self) -> bool {
        &&& self.winner == Some(Marker::X) <==> three_in_a_row(self.state.board@, Marker::X)
        &&& self.winner == Some(Marker::O) <==> three_in_a_row(self.state.board@, Marker::O)
    }

    open spec fn spec_to_act(&self) -> Marker {
        self.to_act
    }

    open spec fn spec_ref_player(&self) -> Marker {
        self.ref_player
    }

    open spec fn spec_winner(&self) -> Option<Marker> {
        self.winner
    }

    open spec fn spec_agent_id(a: Marker) -> u32 {
        match a {
            Marker::X => 0,
            Marker::O => 1,
        }
    }

    open spec fn spec_has_won(&self, a: Marker) -> bool {
        three_in_a_row(self.state.board@, a)
    }

    /// The square exists and is free. The marker of the move is not looked
    /// at.
    open spec fn spec_move_valid(&self, m: (usize, usize, Marker)) -> bool {
        m.0 < 3 && m.1 < 3 && self.state.at(m.0 as int, m.1 as int).0 is None
    }

    open spec fn spec_moves(&self) -> Seq<(usize, usize, Marker)> {
        if self.winner is Some {
            Seq::empty()
        } else {
            true_indices(self.empties()).map_values(|k: int| move_at(k, self.to_act))
        }
    }

    open spec fn spec_apply(&self, m: (usize, usize, Marker)) -> TicTacToe {
        let board = spec_array_update(self.state.board, m.0 * 3 + m.1, Square(Some(m.2)));
        TicTacToe {
            state: Board { board },
            to_act: self.to_act.spec_flip(),
            ref_player: self.ref_player,
            winner: if three_in_a_row(board@, m.2) {
                Some(m.2)
            } else {
                self.winner
            },
        }
    }

    open spec fn spec_new(start: Marker) -> TicTacToe {
        TicTacToe {
            state: Board { board: spec_array_fill_for_copy_type::<Square, 9>(Square(None)) },
            to_act: start,
            ref_player: start,
            winner: None,
        }
    }

    open spec fn spec_key(&self) -> u128 {
        pack4(self.digits()) as u128
    }

    /// Row first, then column, then `X` before `O`.
    open spec fn spec_move_lt(a: (usize, usize, Marker), b: (usize, usize, Marker)) -> bool {
        a.0 < b.0 || (a.0 == b.0 && (a.1 < b.1 || (a.1 == b.1 && marker_code(a.2) < marker_code(
            b.2,
        ))))
    }

    /// The number of free squares.
    open spec fn plies_left(&self) -> nat {
        count_true(self.empties())
    }

    proof fn lemma_state_laws(&self) {
        lemma_true_indices(self.empties());
        let ti = true_indices(self.empties());
        let moves = self.spec_moves();
        if self.winner is None && moves.len() == 0 {
            assert forall|m: (usize, usize, Marker)| !self.spec_move_valid(m) by {
                if self.spec_move_valid(m) {
                    let k: int = m.0 * 3 + m.1;
                    assert(self.empties()[k]);
                    assert(ti.contains(k));
                }
            }
        }
        assert forall|i: int| 0 <= i < moves.len() implies self.spec_move_valid(
            #[trigger] moves[i],
        ) by {
            let k = ti[i];
            assert(self.empties()[k]);
            assert(moves[i] == move_at(k, self.to_act));
        }
        assert forall|i: int, j: int| 0 <= i < j < moves.len() implies Self::spec_move_lt(
            #[trigger] moves[i],
            #[trigger] moves[j],
        ) by {
            assert(ti[i] < ti[j]);
            assert(moves[i] == move_at(ti[i], self.to_act));
            assert(moves[j] == move_at(ti[j], self.to_act));
        }
    }

    proof fn lemma_move_order(
        a: (usize, usize, Marker),
        b: (usize, usize, Marker),
        c: (usize, usize, Marker),
    ) {
    }

    proof fn lemma_apply(&self, m: (usize, usize, Marker)) {
        let k: int = m.0 * 3 + m.1;
        let next = self.spec_apply(m);
        assert(self.state.board@.len() == 9);
        assert(0 <= k < 9);
        assert(next.ref_player == self.ref_player);
        assert(next.state.board@ == self.state.board@.update(k, Square(Some(m.2))));
        assert(next.empties() =~= self.empties().update(k, false));
        lemma_count_clear(self.empties(), k);
        assert(self.spec_apply(m).spec_ref_player() == self.spec_ref_player());
        assert(next.plies_left() < self.plies_left());
        assert(self.spec_apply(m).plies_left() < self.plies_left());
    }

    proof fn lemma_key_congruence(&self, other: &TicTacToe, m: (usize, usize, Marker)) {
        Self::lemma_key_injective(*self, *other);
        assert(self.state.board =~= other.state.board);
        assert(*self == *other);
    }

    fn to_act(&self) -> Marker {
        self.to_act
    }

    fn player_weight(&self, a: &Marker) -> Score {
        if *a == self.ref_player() {
            return 1;
        }
        -1
    }

    fn winner(&self) -> Option<Marker> {
        self.winner
    }

    fn agent_id(&self, a: &Marker) -> u32 {
        match *a {
            Marker::X => 0,
            Marker::O => 1,
        }
    }

    fn ref_player(&self) -> Marker {
        self.ref_player
    }

    fn new(start: &Marker) -> TicTacToe {
        let board = Board::default();
        let game = TicTacToe { to_act: *start, ref_player: *start, state: board, winner: None };
        proof {
            assert(game.state.board =~= spec_array_fill_for_copy_type::<Square, 9>(Square(None)));
        }
        game
    }

    fn possible_moves(&self) -> (moves: Vec<ValidMove<TicTacToe>>) {
        let marker = self.to_act();
        let mut moves: Vec<ValidMove<TicTacToe>> = Vec::new();
        if self.winner.is_some() {
            return moves;
        }
        let ghost flags = self.empties();
        let mut k: usize = 0;
        while k < SIZE * SIZE
            invariant
                k <= 9,
                marker == self.to_act,
                flags == self.empties(),
                moves@.len() == true_indices(flags.take(k as int)).len(),
                forall|i: int|
                    0 <= i < moves@.len() ==> (#[trigger] moves@[i]).valid_move == move_at(
                        true_indices(flags.take(k as int))[i],
                        marker,
                    ) && moves@[i].valid_for == *self,
            decreases 9 - k,
        {
            proof {
                lemma_true_indices_step(flags, k as int);
            }
            if !self.state.get(k / SIZE, k % SIZE).0.is_some() {
                moves.push(ValidMove { valid_move: (k / SIZE, k % SIZE, marker), valid_for: *self });
            }
            k += 1;
        }
        proof {
            assert(flags.take(9) =~= flags);
        }
        moves
    }

    fn move_valid(&self, m: &(usize, usize, Marker)) -> bool {
        m.0 < SIZE && m.1 < SIZE && !self.state.get(m.0, m.1).0.is_some()
    }

    fn has_won(&self, marker: &Marker) -> bool {
        Self::lines_won(&self.state, *marker)
    }

    fn apply(&mut self, m: (usize, usize, Marker)) {
        let (i, j, marker) = m;
        self.state.set(i, j, marker);
        if Self::lines_won(&self.state, marker) {
            self.winner = Some(marker);
        }
        self.to_act = self.to_act.flip();
        proof {
            old(self).lemma_apply(m);
        }
    }

    fn key(&self) -> u128 {
        let mut digits: Vec<u8> = Vec::new();
        let mut k: usize = 0;
        while k < 9
            invariant
                k <= 9,
                digits@.len() == k,
                forall|i: int|
                    0 <= i < k ==> #[trigger] digits@[i] as nat == square_code(self.state.board@[i]),
            decreases 9 - k,
        {
            let code: u8 = match self.state.board[k].0 {
                None => 0,
                Some(Marker::X) => 1,
                Some(Marker::O) => 2,
            };
            digits.push(code);
            k += 1;
        }
        digits.push(
            match self.to_act {
                Marker::X => 0,
                Marker::O => 1,
            },
        );
        digits.push(
            match self.ref_player {
                Marker::X => 0,
                Marker::O => 1,
            },
        );
        digits.push(
            match self.winner {
                None => 0,
                Some(Marker::X) => 1,
                Some(Marker::O) => 2,
            },
        );
        proof {
            Self::lemma_digits(*self);
            assert(digits@.map_values(|d: u8| d as nat) =~= self.digits());
        }
        pack_digits(&digits)
    }

    fn move_lt(a: &(usize, usize, Marker), b: &(usize, usize, Marker)) -> bool {
        a.0 < b.0 || (a.0 == b.0 && (a.1 < b.1 || (a.1 == b.1 && a.2 == Marker::X && b.2
            == Marker::O)))
    }
}

impl RandGame for TicTacToe {
    fn random_move<'gs>(&'gs mut self, rng: &mut XorShiftRng) -> (r: Option<
        ValidMoveMut<'gs, TicTacToe>,
    >) {
        let mut moves = self.possible_moves();
        if moves.len() == 0 {
            None
        } else {
            let ghost listed = moves@;
            shuffle(rng, &mut moves);
            proof {
                self.lemma_state_laws();
                vstd::seq_lib::to_multiset_len(moves@);
                vstd::seq_lib::to_multiset_len(listed);
                vstd::seq_lib::to_multiset_contains(moves@, moves@[0]);
                vstd::seq_lib::to_multiset_contains(listed, moves@[0]);
                let i = choose|i: int| 0 <= i < listed.len() && listed[i] == moves@[0];
                assert(moves@[0].valid_move == self.spec_moves()[i]);
            }
            Some(ValidMoveMut { valid_move: moves[0].valid_move, valid_for: self })
        }
    }
}

impl ParseGame for TicTacToe {
    /// A square is written as its row and its column, two words; what
    /// follows them is not read. The marker is that of the side to act.
    open spec fn spec_parse_move(&self, input: Seq<char>) -> Option<(usize, usize, Marker)> {
        let first = next_word(input, 0);
        let first_end = word_end(input, first);
        let second = next_word(input, first_end);
        let second_end = word_end(input, second);
        if first >= input.len() || second >= input.len() {
            None
        } else {
            match (spec_parse_usize(slice(input, first, first_end)), spec_parse_usize(slice(input, second, second_end))) {
                (Some(i), Some(j)) => Some((i, j, self.to_act)),
                _ => None,
            }
        }
    }

    open spec fn spec_move_text(m: (usize, usize, Marker)) -> Seq<char> {
        decimal_text(m.0 as nat) + " "@ + decimal_text(m.1 as nat)
    }

    proof fn lemma_parse_round_trip(&self, m: (usize, usize, Marker)) {
        reveal_strlit(" ");
        lemma_true_indices(self.empties());
        let i = choose|i: int| 0 <= i < self.spec_moves().len() && self.spec_moves()[i] == m;
        assert(self.spec_moves()[i] == move_at(true_indices(self.empties())[i], self.to_act));
        assert(m.2 == self.to_act);
        let di = decimal_text(m.0 as nat);
        let dj = decimal_text(m.1 as nat);
        let t = Self::spec_move_text(m);
        lemma_decimal_text(m.0 as nat);
        lemma_decimal_text(m.1 as nat);
        let a = di.len() as int;
        assert(t.len() == a + 1 + dj.len());
        assert(t[a] == ' ');
        assert(t.subrange(0, a) =~= di);
        assert(t.subrange(a + 1, t.len() as int) =~= dj);
        lemma_digits_end(t, 0, a);
        lemma_digits_end(t, a + 1, t.len() as int);
        assert(next_word(t, a) == next_word(t, a + 1)) by {
            assert(crate::text::is_blank(t[a]));
        }
        lemma_parse_decimal(m.0);
        lemma_parse_decimal(m.1);
    }

    fn parse_move(&self, input: &str) -> (m: Option<(usize, usize, Marker)>) {
        let chars = chars_of(input);
        let n: usize = chars.len();
        let first: usize = find_word(&chars, 0);
        if first >= n {
            return None;
        }
        let first_end: usize = find_word_end(&chars, first);
        let second: usize = find_word(&chars, first_end);
        if second >= n {
            return None;
        }
        let second_end: usize = find_word_end(&chars, second);
        match (parse_usize(&chars, first, first_end), parse_usize(&chars, second, second_end)) {
            (Some(i), Some(j)) => Some((i, j, self.to_act())),
            _ => None,
        }
    }

    fn move_text(&self, m: &(usize, usize, Marker)) -> (s: String) {
        let mut s = format_usize(m.0);
        s.append(" ");
        let column = format_usize(m.1);
        s.append(column.as_str());
        s
    }
}

} // verus!
