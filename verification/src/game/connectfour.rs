//! Connect Four on a board of six rows and seven columns.

use super::{Game, ParseGame, RandGame, Score, ValidMove, ValidMoveMut};
use crate::text::{
    chars_of, decimal_text, format_usize, lemma_parse_decimal, parse_usize, slice, spec_parse_usize,
};
use crate::counting::{
    all_below4, count_true, lemma_count_clear, lemma_pack4_injective, lemma_true_indices,
    lemma_true_indices_step, pack4, pack_digits, true_indices,
};
use crate::rng::{next_bool, shuffle};
use rand::XorShiftRng;
use vstd::array::spec_array_fill_for_copy_type;
use vstd::array::spec_array_update;
use vstd::prelude::*;
use vstd::string::StringExecFns;

verus! {

pub const HEIGHT: usize = 6;

pub const WIDTH: usize = 7;

pub const NEEDED: usize = 4;

#[derive(Clone, Copy, PartialOrd, PartialEq, Hash, Debug, Ord, Eq, Structural)]
pub enum Color {
    R,
    B,
}

impl Color {
    /// The side that a toss of a coin gives: `R` for heads.
    pub fn from_coin(heads: bool) -> (side: Color)
        ensures
            side == (if heads {
                Color::R
            } else {
                Color::B
            }),
    {
        if heads {
            return Color::R;
        }
        Color::B
    }

    /// A side chosen by the generator.
    pub fn rand(rng: &mut XorShiftRng) -> (side: Color) {
        Self::from_coin(next_bool(rng))
    }

    pub open spec fn spec_flip(self) -> Color {
        match self {
            Color::R => Color::B,
            Color::B => Color::R,
        }
    }

    pub fn flip(&self) -> (c: Color)
        ensures
            c == self.spec_flip(),
    {
        match *self {
            Color::R => Color::B,
            Color::B => Color::R,
        }
    }

    /// The sign with which the colour is drawn.
    pub fn show(&self) -> (s: &'static str)
        ensures
            s@ == (match *self {
                Color::R => "X"@,
                Color::B => "@"@,
            }),
    {
        match *self {
            Color::R => "X",
            Color::B => "@",
        }
    }
}

#[derive(Clone, Copy, PartialEq, Eq, Hash, Debug, Structural)]
pub enum Slot {
    Empty,
    Full(Color),
}

impl Slot {
    pub fn new() -> (s: Slot)
        ensures
            s == Slot::Empty,
    {
        Slot::Empty
    }
}

/// The board, row by row from the bottom: the slot in row `i`, column `j`
/// is entry `i * 7 + j`.
#[derive(Clone, Copy, Hash, Debug, PartialEq, Eq)]
pub struct C4Board {
    pub board: [Slot; 42],
}

impl C4Board {
    pub open spec fn at(self, i: int, j: int) -> Slot {
        self.board@[i * 7 + j]
    }

    pub fn get(&self, i: usize, j: usize) -> (s: Slot)
        requires
            i < 6,
            j < 7,
        ensures
            s == self.at(i as int, j as int),
    {
        self.board[i * WIDTH + j]
    }

    pub fn set(&mut self, i: usize, j: usize, c: Color)
        requires
            i < 6,
            j < 7,
        ensures
            final(self).board == spec_array_update(old(self).board, i * 7 + j, Slot::Full(c)),
            final(self).board@ == old(self).board@.update(i * 7 + j, Slot::Full(c)),
    {
        self.board[i * WIDTH + j] = Slot::Full(c);
    }

    /// The number of discs on the board.
    pub fn num_pieces(&self) -> (n: usize)
        ensures
            n + count_true(empty_flags(self.board@)) == 42,
    {
        let ghost flags = empty_flags(self.board@);
        let mut n: usize = 0;
        let mut k: usize = 0;
        while k < 42
            invariant
                k <= 42,
                flags == empty_flags(self.board@),
                n + count_true(flags.take(k as int)) == k,
            decreases 42 - k,
        {
            proof {
                lemma_true_indices_step(flags, k as int);
            }
            match self.board[k] {
                Slot::Empty => {},
                Slot::Full(_) => {
                    n += 1;
                },
            }
            k += 1;
        }
        proof {
            assert(flags.take(42) =~= flags);
        }
        n
    }
}

/// Which slots are empty.
pub open spec fn empty_flags(cells: Seq<Slot>) -> Seq<bool> {
    cells.map_values(|s: Slot| s == Slot::Empty)
}

/// Which columns still take a disc: those whose top slot is empty.
pub open spec fn open_columns(cells: Seq<Slot>) -> Seq<bool> {
    Seq::new(7, |j: int| cells[35 + j] == Slot::Empty)
}

/// The four slots that start in row `r`, column `c` and go on by `dr` rows
/// and `dc` columns each are on the board and hold discs of `color`.
pub open spec fn four(cells: Seq<Slot>, color: Color, r: int, c: int, dr: int, dc: int) -> bool {
    &&& 0 <= r && r + 3 * dr < 6
    &&& 0 <= c + 3 * dc < 7 && 0 <= c < 7
    &&& cells[r * 7 + c] == Slot::Full(color)
    &&& cells[(r + dr) * 7 + (c + dc)] == Slot::Full(color)
    &&& cells[(r + 2 * dr) * 7 + (c + 2 * dc)] == Slot::Full(color)
    &&& cells[(r + 3 * dr) * 7 + (c + 3 * dc)] == Slot::Full(color)
}

/// A line of four discs of `color` starts at row `r`, column `c` and runs
/// upwards, to the right, or diagonally upwards to either side.
pub open spec fn wins_at(cells: Seq<Slot>, color: Color, r: int, c: int) -> bool {
    ||| four(cells, color, r, c, 1, 0)
    ||| four(cells, color, r, c, 0, 1)
    ||| four(cells, color, r, c, 1, 1)
    ||| four(cells, color, r, c, 1, -1)
}

/// Four discs of `color` stand in a line somewhere on the board.
pub open spec fn four_in_a_row(cells: Seq<Slot>, color: Color) -> bool {
    exists|r: int, c: int| 0 <= r < 6 && 0 <= c < 7 && #[trigger] wins_at(cells, color, r, c)
}

/// The lowest empty row of column `col` at or above row `from`; six if the
/// column is full from there on.
pub open spec fn landing_row(cells: Seq<Slot>, col: int, from: int) -> int
    decreases 6 - from,
{
    if from >= 6 {
        6
    } else if cells[from * 7 + col] == Slot::Empty {
        from
    } else {
        landing_row(cells, col, from + 1)
    }
}

pub open spec fn color_code(c: Color) -> nat {
    match c {
        Color::R => 0,
        Color::B => 1,
    }
}

pub open spec fn slot_code(s: Slot) -> nat {
    match s {
        Slot::Empty => 0,
        Slot::Full(c) => color_code(c) + 1,
    }
}

pub open spec fn winner_code(w: Option<Color>) -> nat {
    match w {
        None => 0,
        Some(c) => color_code(c) + 1,
    }
}

#[derive(Hash, Clone, Copy, Debug, PartialEq, Eq)]
pub struct ConnectFour {
    pub state: C4Board,
    pub to_act: Color,
    pub ref_player: Color,
    pub winner: Option<Color>,
}

impl ConnectFour {
    /// The base-four digits of the position key: the forty-two slots, the
    /// side to act, the reference player and the winner.
    pub open spec fn digits(self) -> Seq<nat> {
        self.state.board@.map_values(|s: Slot| slot_code(s)).push(color_code(self.to_act)).push(
            color_code(self.ref_player),
        ).push(winner_code(self.winner))
    }

    fn wins_from(board: &C4Board, color: Color, r: usize, c: usize) -> (won: bool)
        requires
            r < 6,
            c < 7,
        ensures
            won == wins_at(board.board@, color, r as int, c as int),
    {
        let want = Slot::Full(color);
        if board.get(r, c) != want {
            return false;
        }
        if r + 3 < HEIGHT {
            if board.get(r + 1, c) == want && board.get(r + 2, c) == want && board.get(r + 3, c)
                == want {
                return true;
            }
            if c + 3 < WIDTH && board.get(r + 1, c + 1) == want && board.get(r + 2, c + 2) == want
                && board.get(r + 3, c + 3) == want {
                return true;
            }
            if c >= 3 && board.get(r + 1, c - 1) == want && board.get(r + 2, c - 2) == want
                && board.get(r + 3, c - 3) == want {
                return true;
            }
        }
        c + 3 < WIDTH && board.get(r, c + 1) == want && board.get(r, c + 2) == want && board.get(
            r,
            c + 3,
        ) == want
    }

    fn board_won(board: &C4Board, color: Color) -> (won: bool)
        ensures
            won == four_in_a_row(board.board@, color),
    {
        let mut r: usize = 0;
        while r < HEIGHT
            invariant
                r <= 6,
                forall|r0: int, c0: int|
                    0 <= r0 < r && 0 <= c0 < 7 ==> !#[trigger] wins_at(board.board@, color, r0, c0),
            decreases 6 - r,
        {
            let mut c: usize = 0;
            while c < WIDTH
                invariant
                    r < 6,
                    c <= 7,
                    forall|r0: int, c0: int|
                        0 <= r0 < r && 0 <= c0 < 7 ==> !#[trigger] wins_at(
                            board.board@,
                            color,
                            r0,
                            c0,
                        ),
                    forall|c0: int|
                        0 <= c0 < c ==> !#[trigger] wins_at(board.board@, color, r as int, c0),
                decreases 7 - c,
            {
                if Self::wins_from(board, color, r, c) {
                    return true;
                }
                c += 1;
            }
            r += 1;
        }
        false
    }

    /// Equal keys mean equal slots, side to act, reference player and
    /// winner.
    pub proof fn lemma_key_injective(a: ConnectFour, b: ConnectFour)
        requires
            a.spec_key() == b.spec_key(),
        ensures
            a.state.board@ == b.state.board@,
            a.to_act == b.to_act,
            a.ref_player == b.ref_player,
            a.winner == b.winner,
    {
        Self::lemma_digits(a);
        Self::lemma_digits(b);
        lemma_pack4_injective(a.digits(), b.digits());
        assert forall|k: int| 0 <= k < 42 implies a.state.board@[k] == b.state.board@[k] by {
            assert(a.digits()[k] == slot_code(a.state.board@[k]));
            assert(b.digits()[k] == slot_code(b.state.board@[k]));
        }
        assert(a.state.board@ =~= b.state.board@);
        assert(a.digits()[42] == b.digits()[42]);
        assert(a.digits()[43] == b.digits()[43]);
        assert(a.digits()[44] == b.digits()[44]);
    }

    proof fn lemma_digits(g: ConnectFour)
        ensures
            g.digits().len() == 45,
            all_below4(g.digits()),
            pack4(g.digits()) <= u128::MAX,
    {
        crate::counting::lemma_pack4_bound(g.digits());
        crate::counting::lemma_pow4_monotone(45, 63);
        crate::counting::lemma_pow4_63();
    }

    /// A column whose top slot is empty has a landing row on the board, and
    /// that slot is empty.
    proof fn lemma_landing_row(cells: Seq<Slot>, col: int, from: int)
        requires
            cells.len() == 42,
            0 <= col < 7,
            0 <= from <= 5,
            cells[35 + col] == Slot::Empty,
        ensures
            from <= landing_row(cells, col, from) <= 5,
            cells[landing_row(cells, col, from) * 7 + col] == Slot::Empty,
        decreases 6 - from,
    {
        if cells[from * 7 + col] != Slot::Empty {
            Self::lemma_landing_row(cells, col, from + 1);
        }
    }
}

/// The sign of a slot: a blank for an empty one, else the sign of its disc.
pub open spec fn slot_text(s: Slot) -> Seq<char> {
    match s {
        Slot::Empty => " "@,
        Slot::Full(Color::R) => "X"@,
        Slot::Full(Color::B) => "@"@,
    }
}

/// The first `n` slots of row `r`, each between two blanks.
pub open spec fn cells_text(cells: Seq<Slot>, r: int, n: int) -> Seq<char>
    decreases n,
{
    if n <= 0 {
        Seq::empty()
    } else {
        cells_text(cells, r, n - 1) + " "@ + slot_text(cells[r * 7 + n - 1]) + " "@
    }
}

/// Row `r` between two bars.
pub open spec fn row_text(cells: Seq<Slot>, r: int) -> Seq<char> {
    "|"@ + cells_text(cells, r, 7) + "|\n"@
}

/// The topmost `k` rows, the top row first.
pub open spec fn rows_text(cells: Seq<Slot>, k: int) -> Seq<char>
    decreases k,
{
    if k <= 0 {
        Seq::empty()
    } else {
        rows_text(cells, k - 1) + row_text(cells, 6 - k)
    }
}

impl Slot {
    pub fn show(&self) -> (s: &'static str)
        ensures
            s@ == slot_text(*self),
    {
        match *self {
            Slot::Empty => " ",
            Slot::Full(Color::R) => "X",
            Slot::Full(Color::B) => "@",
        }
    }
}

impl C4Board {
    /// The board as text: the rows from the top down, a line of dashes,
    /// and the numbers of the columns.
    pub open spec fn text(self) -> Seq<char> {
        rows_text(self.board@, 6) + "|---------------------|\n"@ + "  1  2  3  4  5  6  7  \n"@
    }

    fn row_string(&self, r: usize) -> (s: String)
        requires
            r < 6,
        ensures
            s@ == row_text(self.board@, r as int),
    {
        let mut s = String::from_str("|");
        let mut j: usize = 0;
        while j < WIDTH
            invariant
                r < 6,
                j <= 7,
                s@ == "|"@ + cells_text(self.board@, r as int, j as int),
            decreases 7 - j,
        {
            let slot = self.get(r, j);
            s.append(" ");
            s.append(slot.show());
            s.append(" ");
            j += 1;
            proof {
                assert(s@ =~= "|"@ + cells_text(self.board@, r as int, j as int));
            }
        }
        s.append("|\n");
        s
    }

    pub fn to_string(&self) -> (s: String)
        ensures
            s@ == self.text(),
    {
        let mut s = String::from_str("");
        proof {
            reveal_strlit("");
            assert(s@ =~= Seq::<char>::empty());
        }
        let mut k: usize = 0;
        while k < HEIGHT
            invariant
                k <= 6,
                s@ == rows_text(self.board@, k as int),
            decreases 6 - k,
        {
            let row = self.row_string(HEIGHT - 1 - k);
            s.append(row.as_str());
            k += 1;
        }
        s.append("|---------------------|\n");
        s.append("  1  2  3  4  5  6  7  \n");
        s
    }
}

impl ConnectFour {
    /// The state as text: who acts and who is the reference player, then
    /// the board and an empty line.
    pub open spec fn text(self) -> Seq<char> {
        "Acting: "@ + slot_text(Slot::Full(self.to_act)) + ", Ref: "@ + slot_text(
            Slot::Full(self.ref_player),
        ) + "\n"@ + self.state.text() + "\n"@
    }

    pub fn to_string(&self) -> (s: String)
        ensures
            s@ == self.text(),
    {
        let mut s = String::from_str("Acting: ");
        s.append(self.to_act.show());
        s.append(", Ref: ");
        s.append(self.ref_player.show());
        s.append("\n");
        let board = self.state.to_string();
        s.append(board.as_str());
        s.append("\n");
        s
    }

    /// Whether `g` holds more discs than this state, as every state that
    /// follows it does.
    pub fn reachable(&self, g: &ConnectFour) -> (more: bool)
        ensures
            more == (count_true(empty_flags(g.state.board@)) < count_true(
                empty_flags(self.state.board@),
            )),
    {
        g.state.num_pieces() > self.state.num_pieces()
    }

    /// Whether the state is well-formed: the winner on record is the one
    /// that the board shows.
    pub fn check(&self) -> (ok: bool)
        ensures
            ok == self.wf(),
    {
        let red: bool = Self::board_won(&self.state, Color::R);
        let blue: bool = Self::board_won(&self.state, Color::B);
        let says_red: bool = match self.winner {
            Some(Color::R) => true,
            _ => false,
        };
        let says_blue: bool = match self.winner {
            Some(Color::B) => true,
            _ => false,
        };
        red == says_red && blue == says_blue
    }
}

impl Game for ConnectFour {
    type Move = (usize, Color);

    type Agent = Color;

    open spec fn wf(&self) -> bool {
        &&& self.winner == Some(Color::R) <==> four_in_a_row(self.state.board@, Color::R)
        &&& self.winner == Some(Color::B) <==> four_in_a_row(self.state.board@, Color::B)
    }

    open spec fn spec_to_act(&self) -> Color {
        self.to_act
    }

    open spec fn spec_ref_player(&self) -> Color {
        self.ref_player
    }

    open spec fn spec_winner(&self) -> Option<Color> {
        self.winner
    }

    open spec fn spec_agent_id(a: Color) -> u32 {
        match a {
            Color::R => 0,
            Color::B => 1,
        }
    }

    open spec fn spec_has_won(&self, a: Color) -> bool {
        four_in_a_row(self.state.board@, a)
    }

    /// The column exists and is not full, and the disc is of the side to
    /// act.
    open spec fn spec_move_valid(&self, m: (usize, Color)) -> bool {
        m.0 < 7 && m.1 == self.to_act && self.state.board@[35 + m.0] == Slot::Empty
    }

    open spec fn spec_moves(&self) -> Seq<(usize, Color)> {
        if self.winner is Some {
            Seq::empty()
        } else {
            true_indices(open_columns(self.state.board@)).map_values(
                |j: int| (j as usize, self.to_act),
            )
        }
    }

    open spec fn spec_apply(&self, m: (usize, Color)) -> ConnectFour {
        let row = landing_row(self.state.board@, m.0 as int, 0);
        let board = spec_array_update(self.state.board, row * 7 + m.0, Slot::Full(m.1));
        ConnectFour {
            state: C4Board { board },
            to_act: self.to_act.spec_flip(),
            ref_player: self.ref_player,
            winner: if four_in_a_row(board@, m.1) {
                Some(m.1)
            } else {
                self.winner
            },
        }
    }

    open spec fn spec_new(start: Color) -> ConnectFour {
        ConnectFour {
            state: C4Board { board: spec_array_fill_for_copy_type::<Slot, 42>(Slot::Empty) },
            to_act: start,
            ref_player: start,
            winner: None,
        }
    }

    open spec fn spec_key(&self) -> u128 {
        pack4(self.digits()) as u128
    }

    /// Column first, then `R` before `B`.
    open spec fn spec_move_lt(a: (usize, Color), b: (usize, Color)) -> bool {
        a.0 < b.0 || (a.0 == b.0 && color_code(a.1) < color_code(b.1))
    }

    /// The number of empty slots.
    open spec fn plies_left(&self) -> nat {
        count_true(empty_flags(self.state.board@))
    }

    proof fn lemma_state_laws(&self) {
        let open = open_columns(self.state.board@);
        lemma_true_indices(open);
        let ti = true_indices(open);
        let moves = self.spec_moves();
        if self.winner is None && moves.len() == 0 {
            assert forall|m: (usize, Color)| !self.spec_move_valid(m) by {
                if self.spec_move_valid(m) {
                    assert(open[m.0 as int]);
                    assert(ti.contains(m.0 as int));
                }
            }
        }
        assert forall|i: int| 0 <= i < moves.len() implies self.spec_move_valid(
            #[trigger] moves[i],
        ) by {
            assert(open[ti[i]]);
        }
        assert forall|i: int, j: int| 0 <= i < j < moves.len() implies Self::spec_move_lt(
            #[trigger] moves[i],
            #[trigger] moves[j],
        ) by {
            assert(ti[i] < ti[j]);
        }
    }

    proof fn lemma_move_order(a: (usize, Color), b: (usize, Color), c: (usize, Color)) {
    }

    proof fn lemma_apply(&self, m: (usize, Color)) {
        let cells = self.state.board@;
        Self::lemma_landing_row(cells, m.0 as int, 0);
        let row = landing_row(cells, m.0 as int, 0);
        let k: int = row * 7 + m.0;
        let next = self.spec_apply(m);
        let after = next.state.board@;
        assert(after == cells.update(k, Slot::Full(m.1)));
        assert(empty_flags(after) =~= empty_flags(cells).update(k, false));
        lemma_count_clear(empty_flags(cells), k);
        let other = m.1.spec_flip();
        assert(!four_in_a_row(after, other)) by {
            if four_in_a_row(after, other) {
                let (r, c) = choose|r: int, c: int|
                    0 <= r < 6 && 0 <= c < 7 && #[trigger] wins_at(after, other, r, c);
                assert(wins_at(cells, other, r, c));
            }
        }
        assert(next.wf());
        assert(self.spec_apply(m).spec_ref_player() == self.spec_ref_player());
        assert(self.spec_apply(m).plies_left() < self.plies_left());
    }

    proof fn lemma_key_congruence(&self, other: &ConnectFour, m: (usize, Color)) {
        Self::lemma_key_injective(*self, *other);
        assert(self.state.board =~= other.state.board);
        assert(*self == *other);
    }

    fn to_act(&self) -> Color {
        self.to_act
    }

    fn player_weight(&self, p: &Color) -> Score {
        if *p == self.ref_player() {
            return 1;
        }
        -1
    }

    fn winner(&self) -> Option<Color> {
        self.winner
    }

    fn agent_id(&self, a: &Color) -> u32 {
        match *a {
            Color::R => 0,
            Color::B => 1,
        }
    }

    fn ref_player(&self) -> Color {
        self.ref_player
    }

    fn new(start: &Color) -> ConnectFour {
        let board = C4Board { board: [Slot::Empty;42] };
        let game = ConnectFour { to_act: *start, ref_player: *start, state: board, winner: None };
        proof {
            assert(game.state.board =~= spec_array_fill_for_copy_type::<Slot, 42>(Slot::Empty));
            assert(forall|r: int, c: int|
                0 <= r < 6 && 0 <= c < 7 ==> !#[trigger] wins_at(
                    game.state.board@,
                    Color::R,
                    r,
                    c,
                ));
            assert(forall|r: int, c: int|
                0 <= r < 6 && 0 <= c < 7 ==> !#[trigger] wins_at(
                    game.state.board@,
                    Color::B,
                    r,
                    c,
                ));
        }
        game
    }

    fn possible_moves(&self) -> (moves: Vec<ValidMove<ConnectFour>>) {
        let mut moves: Vec<ValidMove<ConnectFour>> = Vec::new();
        let color = self.to_act();
        if self.has_winner() {
            return moves;
        }
        let ghost flags = open_columns(self.state.board@);
        let mut j: usize = 0;
        while j < WIDTH
            invariant
                j <= 7,
                color == self.to_act,
                flags == open_columns(self.state.board@),
                moves@.len() == true_indices(flags.take(j as int)).len(),
                forall|i: int|
                    0 <= i < moves@.len() ==> (#[trigger] moves@[i]).valid_move == (
                        true_indices(flags.take(j as int))[i] as usize,
                        color,
                    ) && moves@[i].valid_for == *self,
            decreases 7 - j,
        {
            proof {
                lemma_true_indices_step(flags, j as int);
            }
            if self.state.get(HEIGHT - 1, j) == Slot::Empty {
                moves.push(ValidMove { valid_move: (j, color), valid_for: *self });
            }
            j += 1;
        }
        proof {
            assert(flags.take(7) =~= flags);
        }
        moves
    }

    fn move_valid(&self, m: &(usize, Color)) -> bool {
        let (col, color) = *m;
        if col >= WIDTH || color != self.to_act {
            return false;
        }
        self.state.get(HEIGHT - 1, col) == Slot::Empty
    }

    fn has_won(&self, color: &Color) -> bool {
        Self::board_won(&self.state, *color)
    }

    fn apply(&mut self, m: (usize, Color)) {
        let (n, color) = m;
        proof {
            Self::lemma_landing_row(self.state.board@, n as int, 0);
        }
        let mut i: usize = 0;
        while self.state.get(i, n) != Slot::Empty
            invariant
                i <= 5,
                n < 7,
                *self == *old(self),
                self.state.board@[35 + n] == Slot::Empty,
                landing_row(self.state.board@, n as int, 0) == landing_row(
                    self.state.board@,
                    n as int,
                    i as int,
                ),
            decreases 6 - i,
        {
            i += 1;
        }
        self.state.set(i, n, color);
        if Self::board_won(&self.state, color) {
            self.winner = Some(color);
        }
        self.to_act = self.to_act.flip();
        proof {
            old(self).lemma_apply(m);
        }
    }

    fn key(&self) -> u128 {
        let mut digits: Vec<u8> = Vec::new();
        let mut k: usize = 0;
        while k < 42
            invariant
                k <= 42,
                digits@.len() == k,
                forall|i: int|
                    0 <= i < k ==> #[trigger] digits@[i] as nat == slot_code(self.state.board@[i]),
            decreases 42 - k,
        {
            let code: u8 = match self.state.board[k] {
                Slot::Empty => 0,
                Slot::Full(Color::R) => 1,
                Slot::Full(Color::B) => 2,
            };
            digits.push(code);
            k += 1;
        }
        digits.push(
            match self.to_act {
                Color::R => 0,
                Color::B => 1,
            },
        );
        digits.push(
            match self.ref_player {
                Color::R => 0,
                Color::B => 1,
            },
        );
        digits.push(
            match self.winner {
                None => 0,
                Some(Color::R) => 1,
                Some(Color::B) => 2,
            },
        );
        proof {
            Self::lemma_digits(*self);
            assert(digits@.map_values(|d: u8| d as nat) =~= self.digits());
        }
        pack_digits(&digits)
    }

    fn move_lt(a: &(usize, Color), b: &(usize, Color)) -> bool {
        a.0 < b.0 || (a.0 == b.0 && a.1 == Color::R && b.1 == Color::B)
    }
}

impl RandGame for ConnectFour {
    /// Tries the columns in a random order and takes the first that is
    /// open.
    fn random_move<'gs>(&'gs mut self, rng: &mut XorShiftRng) -> (r: Option<
        ValidMoveMut<'gs, ConnectFour>,
    >) {
        let mut is: Vec<usize> = Vec::new();
        let mut j: usize = 0;
        while j < WIDTH
            invariant
                j <= 7,
                is@.len() == j,
                forall|i: int| 0 <= i < j ==> #[trigger] is@[i] == i,
            decreases 7 - j,
        {
            is.push(j);
            j += 1;
        }
        let ghost ordered = is@;
        shuffle(rng, &mut is);
        proof {
            vstd::seq_lib::to_multiset_len(is@);
            vstd::seq_lib::to_multiset_len(ordered);
        }
        let to_act = self.to_act();
        let mut k: usize = 0;
        while k < is.len()
            invariant
                k <= is@.len(),
                to_act == self.to_act,
                *self == *old(self),
                self.wf(),
                forall|i: int| 0 <= i < k ==> !self.spec_move_valid((#[trigger] is@[i], to_act)),
            decreases is@.len() - k,
        {
            let m = (is[k], to_act);
            if self.move_valid(&m) {
                proof {
                    self.lemma_state_laws();
                }
                return Some(ValidMoveMut { valid_move: m, valid_for: self });
            }
            k += 1;
        }
        proof {
            if self.winner is None && self.spec_moves().len() > 0 {
                self.lemma_state_laws();
                let m = self.spec_moves()[0];
                assert(self.spec_move_valid(m));
                let col = m.0;
                assert(ordered[col as int] == col);
                assert(ordered.contains(col));
                vstd::seq_lib::to_multiset_contains(ordered, col);
                vstd::seq_lib::to_multiset_contains(is@, col);
                let i = choose|i: int| 0 <= i < is@.len() && is@[i] == col;
                assert(!self.spec_move_valid((is@[i], to_act)));
            }
        }
        None
    }
}

impl ParseGame for ConnectFour {
    /// A column is written as its number, counted from one; the disc is of
    /// the side to act.
    open spec fn spec_parse_move(&self, input: Seq<char>) -> Option<(usize, Color)> {
        match spec_parse_usize(input) {
            Some(n) => if n >= 1 {
                Some(((n - 1) as usize, self.to_act))
            } else {
                None
            },
            None => None,
        }
    }

    open spec fn spec_move_text(m: (usize, Color)) -> Seq<char> {
        decimal_text((m.0 + 1) as nat)
    }

    proof fn lemma_parse_round_trip(&self, m: (usize, Color)) {
        self.lemma_state_laws();
        let i = choose|i: int| 0 <= i < self.spec_moves().len() && self.spec_moves()[i] == m;
        assert(self.spec_move_valid(self.spec_moves()[i]));
        lemma_parse_decimal((m.0 + 1) as usize);
    }

    fn parse_move(&self, input: &str) -> (m: Option<(usize, Color)>) {
        let chars = chars_of(input);
        proof {
            assert(slice(chars@, 0, chars@.len() as int) =~= input@);
        }
        match parse_usize(&chars, 0, chars.len()) {
            Some(n) => if n >= 1 {
                Some((n - 1, self.to_act()))
            } else {
                None
            },
            None => None,
        }
    }

    fn move_text(&self, m: &(usize, Color)) -> (s: String) {
        format_usize(m.0 + 1)
    }
}

} // verus!
