//! Dots and Boxes on a grid of three by three dots, which makes two by two
//! boxes, six horizontal and six vertical lines.

use super::{Game, ParseGame, RandGame, Score, ValidMove};
use crate::text::{
    chars_of, decimal_text, find_space, format_usize, lemma_decimal_text, lemma_digits_end,
    lemma_parse_decimal, next_space, parse_usize, slice, spec_parse_usize,
};
use crate::counting::{
    all_below4, count_true, lemma_count_clear, lemma_pack4_injective, lemma_true_indices,
    lemma_true_indices_step, pack4, pack_digits, true_indices,
};
use vstd::array::spec_array_fill_for_copy_type;
use vstd::array::spec_array_update;
use crate::rng::next_bool;
use rand::XorShiftRng;
use vstd::prelude::*;
use vstd::string::StringExecFns;

verus! {

pub const HEIGHT: usize = 3;

pub const WIDTH: usize = 3;

/// A board on which every line is drawn and every box belongs to `A`.
pub fn test_board() -> (b: DotsBoard)
    ensures
        forall|k: int| 0 <= k < 6 ==> b.horizontals@[k] && b.verticals@[k],
        forall|k: int| 0 <= k < 4 ==> b.owners@[k] == Some(DotsPlayer::A),
{
    DotsBoard {
        horizontals: [true;6],
        verticals: [true;6],
        owners: [Some(DotsPlayer::A);4],
    }
}

#[derive(Clone, Copy, PartialOrd, PartialEq, Hash, Debug, Ord, Eq, Structural)]
pub enum DotsPlayer {
    A,
    B,
}

impl DotsPlayer {
    /// The side that a toss of a coin gives: `A` for heads.
    pub fn from_coin(heads: bool) -> (side: DotsPlayer)
        ensures
            side == (if heads {
                DotsPlayer::A
            } else {
                DotsPlayer::B
            }),
    {
        if heads {
            return DotsPlayer::A;
        }
        DotsPlayer::B
    }

    /// A side chosen by the generator.
    pub fn rand(rng: &mut XorShiftRng) -> (side: DotsPlayer) {
        Self::from_coin(next_bool(rng))
    }

    pub open spec fn spec_flip(self) -> DotsPlayer {
        match self {
            DotsPlayer::A => DotsPlayer::B,
            DotsPlayer::B => DotsPlayer::A,
        }
    }

    pub fn flip(&self) -> (p: DotsPlayer)
        ensures
            p == self.spec_flip(),
    {
        match *self {
            DotsPlayer::A => DotsPlayer::B,
            DotsPlayer::B => DotsPlayer::A,
        }
    }
}

/// The lines and boxes. Horizontal line `(j, i)`, the `i`-th of row `j` of
/// dots, is entry `j * 2 + i` of `horizontals`; vertical line `(j, i)`
/// is entry `j * 3 + i` of `verticals`; box `(j, i)` is entry `j * 2 + i` of
/// `owners`.
#[derive(Clone, Copy, Hash, Debug, PartialEq, Eq)]
pub struct DotsBoard {
    pub horizontals: [bool; 6],
    pub verticals: [bool; 6],
    pub owners: [Option<DotsPlayer>; 4],
}

pub open spec fn hline_text(drawn: bool) -> Seq<char> {
    if drawn {
        "---"@
    } else {
        "   "@
    }
}

pub open spec fn vline_text(drawn: bool) -> Seq<char> {
    if drawn {
        "|"@
    } else {
        " "@
    }
}

pub open spec fn owner_text(owner: Option<DotsPlayer>) -> Seq<char> {
    match owner {
        Some(DotsPlayer::A) => "A "@,
        Some(DotsPlayer::B) => "B "@,
        None => "  "@,
    }
}

impl DotsBoard {
    /// Box `(j, i)` has its four sides drawn.
    pub open spec fn box_complete(self, j: int, i: int) -> bool {
        &&& self.verticals@[j * 3 + i]
        &&& self.horizontals@[j * 2 + i]
        &&& self.verticals@[j * 3 + i + 1]
        &&& self.horizontals@[(j + 1) * 2 + i]
    }

    /// The line is on the board and not drawn yet.
    pub open spec fn spec_is_free(self, m: DotsMove) -> bool {
        match m {
            DotsMove::H(j, i) => j < 3 && i < 2 && !self.horizontals@[j * 2 + i],
            DotsMove::V(j, i) => j < 2 && i < 3 && !self.verticals@[j * 3 + i],
        }
    }

    pub fn is_free(&self, m: &DotsMove) -> (free: bool)
        ensures
            free == self.spec_is_free(*m),
    {
        match *m {
            DotsMove::H(j, i) => j < HEIGHT && i < WIDTH - 1 && !self.horizontals[j * 2 + i],
            DotsMove::V(j, i) => j < HEIGHT - 1 && i < WIDTH && !self.verticals[j * 3 + i],
        }
    }

    /// Every line is drawn.
    pub open spec fn all_drawn(self) -> bool {
        forall|k: int| 0 <= k < 6 ==> self.horizontals@[k] && self.verticals@[k]
    }

    /// For each of the twelve lines, the horizontal ones first, whether it
    /// is still free.
    pub open spec fn free_flags(self) -> Seq<bool> {
        Seq::new(
            12,
            |k: int|
                if k < 6 {
                    !self.horizontals@[k]
                } else {
                    !self.verticals@[k - 6]
                },
        )
    }

    /// How many boxes belong to `p`.
    pub open spec fn owned(self, p: DotsPlayer) -> int {
        (if self.owners@[0] == Some(p) {
            1int
        } else {
            0int
        }) + (if self.owners@[1] == Some(p) {
            1int
        } else {
            0int
        }) + (if self.owners@[2] == Some(p) {
            1int
        } else {
            0int
        }) + (if self.owners@[3] == Some(p) {
            1int
        } else {
            0int
        })
    }

    /// The text of row `j` of horizontal lines.
    pub open spec fn hrow_text(self, j: int) -> Seq<char> {
        "+"@ + hline_text(self.horizontals@[j * 2]) + "+"@ + hline_text(self.horizontals@[j * 2 + 1])
            + "+\n"@
    }

    /// The text of row `j` of boxes, with the vertical lines between them.
    pub open spec fn vrow_text(self, j: int) -> Seq<char> {
        vline_text(self.verticals@[j * 3]) + " "@ + owner_text(self.owners@[j * 2]) + vline_text(
            self.verticals@[j * 3 + 1],
        ) + " "@ + owner_text(self.owners@[j * 2 + 1]) + vline_text(self.verticals@[j * 3 + 2])
            + "\n"@
    }

    /// The text of the whole board.
    pub open spec fn text(self) -> Seq<char> {
        self.hrow_text(0) + self.vrow_text(0) + self.hrow_text(1) + self.vrow_text(1)
            + self.hrow_text(2)
    }

    pub fn draw_hrow(&self, j: usize) -> (s: String)
        requires
            j < 3,
        ensures
            s@ == self.hrow_text(j as int),
    {
        let mut s = String::from_str("");
        proof {
            reveal_strlit("");
            assert(s@ =~= Seq::<char>::empty());
        }
        let mut i: usize = 0;
        while i < WIDTH - 1
            invariant
                j < 3,
                i <= 2,
                i == 0 ==> s@ == Seq::<char>::empty(),
                i == 1 ==> s@ == "+"@ + hline_text(self.horizontals@[j * 2]),
                i == 2 ==> s@ == "+"@ + hline_text(self.horizontals@[j * 2]) + "+"@ + hline_text(
                    self.horizontals@[j * 2 + 1],
                ),
            decreases 2 - i,
        {
            let c = if self.horizontals[j * 2 + i] {
                "---"
            } else {
                "   "
            };
            s.append("+");
            s.append(c);
            i += 1;
        }
        s.append("+\n");
        s
    }

    pub fn draw_vrow(&self, j: usize) -> (s: String)
        requires
            j < 2,
        ensures
            s@ == self.vrow_text(j as int),
    {
        let mut s = String::from_str("");
        proof {
            reveal_strlit("");
            assert(s@ =~= Seq::<char>::empty());
        }
        let mut i: usize = 0;
        while i < WIDTH - 1
            invariant
                j < 2,
                i <= 2,
                i == 0 ==> s@ == Seq::<char>::empty(),
                i == 1 ==> s@ == vline_text(self.verticals@[j * 3]) + " "@ + owner_text(
                    self.owners@[j * 2],
                ),
                i == 2 ==> s@ == vline_text(self.verticals@[j * 3]) + " "@ + owner_text(
                    self.owners@[j * 2],
                ) + vline_text(self.verticals@[j * 3 + 1]) + " "@ + owner_text(
                    self.owners@[j * 2 + 1],
                ),
            decreases 2 - i,
        {
            let c = if self.verticals[j * 3 + i] {
                "|"
            } else {
                " "
            };
            s.append(c);
            s.append(" ");
            match self.owners[j * 2 + i] {
                Some(DotsPlayer::A) => {
                    s.append("A ");
                },
                Some(DotsPlayer::B) => {
                    s.append("B ");
                },
                None => {
                    s.append("  ");
                },
            }
            i += 1;
        }
        let c = if self.verticals[j * 3 + (WIDTH - 1)] {
            "|"
        } else {
            " "
        };
        s.append(c);
        s.append("\n");
        s
    }

    /// The board as text: rows of lines and rows of boxes in turn.
    pub fn to_string(&self) -> (s: String)
        ensures
            s@ == self.text(),
    {
        let mut s = String::from_str("");
        proof {
            reveal_strlit("");
            assert(s@ =~= Seq::<char>::empty());
        }
        let mut j: usize = 0;
        while j < HEIGHT - 1
            invariant
                j <= 2,
                j == 0 ==> s@ == Seq::<char>::empty(),
                j == 1 ==> s@ == self.hrow_text(0) + self.vrow_text(0),
                j == 2 ==> s@ == self.hrow_text(0) + self.vrow_text(0) + self.hrow_text(1)
                    + self.vrow_text(1),
            decreases 2 - j,
        {
            let h = self.draw_hrow(j);
            s.append(h.as_str());
            let v = self.draw_vrow(j);
            s.append(v.as_str());
            j += 1;
        }
        let h = self.draw_hrow(HEIGHT - 1);
        s.append(h.as_str());
        s
    }
}

#[derive(Hash, Clone, Debug, PartialEq, Eq, Copy, PartialOrd, Ord, Structural)]
pub enum DotsMove {
    H(usize, usize),
    V(usize, usize),
}

impl DotsMove {
    pub open spec fn spec_coords(self) -> (usize, usize) {
        match self {
            DotsMove::V(j, i) => (j, i),
            DotsMove::H(j, i) => (j, i),
        }
    }

    /// The line of the same kind one row up.
    pub fn up(&self) -> (m: DotsMove)
        requires
            self.spec_coords().0 > 0,
        ensures
            m == (match *self {
                DotsMove::V(j, i) => DotsMove::V((j - 1) as usize, i),
                DotsMove::H(j, i) => DotsMove::H((j - 1) as usize, i),
            }),
    {
        match *self {
            DotsMove::V(j, i) => DotsMove::V(j - 1, i),
            DotsMove::H(j, i) => DotsMove::H(j - 1, i),
        }
    }

    /// The line of the same kind one column to the left.
    pub fn left(&self) -> (m: DotsMove)
        requires
            self.spec_coords().1 > 0,
        ensures
            m == (match *self {
                DotsMove::V(j, i) => DotsMove::V(j, (i - 1) as usize),
                DotsMove::H(j, i) => DotsMove::H(j, (i - 1) as usize),
            }),
    {
        match *self {
            DotsMove::V(j, i) => DotsMove::V(j, i - 1),
            DotsMove::H(j, i) => DotsMove::H(j, i - 1),
        }
    }

    pub fn coords(&self) -> (c: (usize, usize))
        ensures
            c == self.spec_coords(),
    {
        match *self {
            DotsMove::V(j, i) => (j, i),
            DotsMove::H(j, i) => (j, i),
        }
    }
}

/// The line with number `k`: the six horizontal lines come first.
pub open spec fn line_at(k: int) -> DotsMove {
    if k < 6 {
        DotsMove::H((k / 2) as usize, (k % 2) as usize)
    } else {
        DotsMove::V(((k - 6) / 3) as usize, ((k - 6) % 3) as usize)
    }
}

/// The four sides of box `(j, i)`: left, top, right, bottom.
pub open spec fn spec_box_bounds(b: (usize, usize)) -> Seq<DotsMove> {
    seq![
        DotsMove::V(b.0, b.1),
        DotsMove::H(b.0, b.1),
        DotsMove::V(b.0, (b.1 + 1) as usize),
        DotsMove::H((b.0 + 1) as usize, b.1),
    ]
}

/// Appends the four sides of box `(j, i)` to `v`.
pub fn box_bounds(b: (usize, usize), v: &mut Vec<DotsMove>)
    requires
        b.0 < usize::MAX,
        b.1 < usize::MAX,
    ensures
        final(v)@ == old(v)@ + spec_box_bounds(b),
{
    let (j, i) = b;
    v.push(DotsMove::V(j, i));
    v.push(DotsMove::H(j, i));
    v.push(DotsMove::V(j, i + 1));
    v.push(DotsMove::H(j + 1, i));
    proof {
        assert(v@ =~= old(v)@ + spec_box_bounds(b));
    }
}

/// The boxes that a line on the board touches: the box it opens, then the
/// box above or to the left of it, as far as they exist.
pub open spec fn candidates(m: DotsMove) -> Seq<(usize, usize)> {
    match m {
        DotsMove::H(j, i) => if j == 0 {
            seq![(0usize, i)]
        } else if j == 2 {
            seq![(1usize, i)]
        } else {
            seq![(1usize, i), (0usize, i)]
        },
        DotsMove::V(j, i) => if i == 0 {
            seq![(j, 0usize)]
        } else if i == 2 {
            seq![(j, 1usize)]
        } else {
            seq![(j, 1usize), (j, 0usize)]
        },
    }
}

/// Those of `boxes` that are complete on `board`, in their order.
pub open spec fn keep_complete(board: DotsBoard, boxes: Seq<(usize, usize)>) -> Seq<(usize, usize)>
    decreases boxes.len(),
{
    if boxes.len() == 0 {
        Seq::empty()
    } else if board.box_complete(boxes.last().0 as int, boxes.last().1 as int) {
        keep_complete(board, boxes.drop_last()).push(boxes.last())
    } else {
        keep_complete(board, boxes.drop_last())
    }
}

pub open spec fn player_code(p: DotsPlayer) -> nat {
    match p {
        DotsPlayer::A => 0,
        DotsPlayer::B => 1,
    }
}

pub open spec fn owner_code(o: Option<DotsPlayer>) -> nat {
    match o {
        None => 0,
        Some(p) => player_code(p) + 1,
    }
}

pub open spec fn flag_code(b: bool) -> nat {
    if b {
        1
    } else {
        0
    }
}

/// Who has won once every line is drawn: the player with more boxes.
pub open spec fn outcome(board: DotsBoard, scores: (usize, usize)) -> Option<DotsPlayer> {
    if !board.all_drawn() {
        None
    } else if scores.0 > scores.1 {
        Some(DotsPlayer::A)
    } else if scores.1 > scores.0 {
        Some(DotsPlayer::B)
    } else {
        None
    }
}

/// The owner of box `b` after a line was drawn by `acting`: a box that has
/// become complete and had no owner is now `acting`'s.
pub open spec fn owner_after(
    before: DotsBoard,
    after: DotsBoard,
    acting: DotsPlayer,
    b: int,
) -> Option<DotsPlayer> {
    if after.box_complete(b / 2, b % 2) && before.owners@[b] is None {
        Some(acting)
    } else {
        before.owners@[b]
    }
}

#[derive(Clone, Copy, Debug)]
pub struct Dots {
    pub board: DotsBoard,
    pub to_act: DotsPlayer,
    pub ref_player: DotsPlayer,
    pub winner: Option<DotsPlayer>,
    pub scores: (usize, usize),
}

impl Dots {
    /// The base-four digits of the position key: the lines, the owners of
    /// the boxes and the side to act.
    pub open spec fn digits(self) -> Seq<nat> {
        self.board.horizontals@.map_values(|b: bool| flag_code(b)) + self.board.verticals@.map_values(
            |b: bool| flag_code(b),
        ) + self.board.owners@.map_values(|o: Option<DotsPlayer>| owner_code(o)).push(
            player_code(self.to_act),
        )
    }

    pub open spec fn spec_score(self, a: DotsPlayer) -> usize {
        match a {
            DotsPlayer::A => self.scores.0,
            DotsPlayer::B => self.scores.1,
        }
    }

    /// The boxes that drawing `m` has completed, given that `m` is drawn on
    /// the board already.
    pub open spec fn spec_completes(self, m: DotsMove) -> Seq<(usize, usize)> {
        keep_complete(self.board, candidates(m))
    }

    pub fn completes(&self, m: DotsMove) -> (res: Vec<(usize, usize)>)
        requires
            match m {
                DotsMove::H(j, i) => j < 3 && i < 2,
                DotsMove::V(j, i) => j < 2 && i < 3,
            },
        ensures
            res@ == self.spec_completes(m),
    {
        let mut cands: Vec<(usize, usize)> = Vec::new();
        match m {
            DotsMove::H(j, _) => {
                if j == 0 {
                    cands.push(m.coords());
                } else if j == HEIGHT - 1 {
                    cands.push(m.up().coords());
                } else {
                    cands.push(m.coords());
                    cands.push(m.up().coords());
                }
            },
            DotsMove::V(_, i) => {
                if i == 0 {
                    cands.push(m.coords());
                } else if i == WIDTH - 1 {
                    cands.push(m.left().coords());
                } else {
                    cands.push(m.coords());
                    cands.push(m.left().coords());
                }
            },
        }
        proof {
            assert(cands@ =~= candidates(m));
        }
        let mut res: Vec<(usize, usize)> = Vec::new();
        let mut k: usize = 0;
        while k < cands.len()
            invariant
                k <= cands@.len(),
                cands@ == candidates(m),
                forall|s: int| 0 <= s < cands@.len() ==> (#[trigger] cands@[s]).0 < 2 && cands@[s].1 < 2,
                res@ == keep_complete(self.board, cands@.take(k as int)),
            decreases cands@.len() - k,
        {
            let square = cands[k];
            let mut checks: Vec<DotsMove> = Vec::new();
            box_bounds(square, &mut checks);
            proof {
                assert(checks@ =~= spec_box_bounds(square));
                assert(cands@.take(k + 1).drop_last() =~= cands@.take(k as int));
            }
            let got_square = !self.board.is_free(&checks[0]) && !self.board.is_free(&checks[1])
                && !self.board.is_free(&checks[2]) && !self.board.is_free(&checks[3]);
            if got_square {
                res.push(square);
            }
            k += 1;
        }
        proof {
            assert(cands@.take(k as int) =~= cands@);
        }
        res
    }

    /// The board with line `m` drawn and nothing else changed.
    pub open spec fn with_line(self, m: DotsMove) -> DotsBoard {
        match m {
            DotsMove::H(j, i) => DotsBoard {
                horizontals: spec_array_update(self.board.horizontals, j * 2 + i, true),
                verticals: self.board.verticals,
                owners: self.board.owners,
            },
            DotsMove::V(j, i) => DotsBoard {
                horizontals: self.board.horizontals,
                verticals: spec_array_update(self.board.verticals, j * 3 + i, true),
                owners: self.board.owners,
            },
        }
    }

    /// The boxes that drawing the free line `m` completes.
    pub open spec fn spec_completes_after(self, m: DotsMove) -> Seq<(usize, usize)> {
        keep_complete(self.with_line(m), candidates(m))
    }

    /// Box `b` is among the first two of `done`.
    pub open spec fn listed(done: Seq<(usize, usize)>, b: int) -> bool {
        (done.len() > 0 && done[0].0 * 2 + done[0].1 == b) || (done.len() > 1 && done[1].0 * 2
            + done[1].1 == b)
    }

    /// Drawing a line on the board completes at most two boxes, which lie
    /// on the board and differ.
    pub proof fn lemma_completed(self, m: DotsMove)
        requires
            self.spec_move_valid(m),
        ensures
            self.spec_completes_after(m).len() <= 2,
            forall|s: int|
                0 <= s < self.spec_completes_after(m).len() ==> (
                #[trigger] self.spec_completes_after(m)[s]).0 < 2 && self.spec_completes_after(
                    m,
                )[s].1 < 2,
            self.spec_completes_after(m).len() == 2 ==> self.spec_completes_after(m)[0]
                != self.spec_completes_after(m)[1],
    {
        reveal_with_fuel(keep_complete, 3);
        let cands = candidates(m);
        if cands.len() == 2 {
            assert(cands.drop_last().len() == 1);
            assert(cands.drop_last().last() == cands[0]);
            assert(cands.drop_last().drop_last().len() == 0);
        } else {
            assert(cands.drop_last().len() == 0);
        }
    }

    /// What drawing the free line `m` means for box `b`: the box is among
    /// the completed ones exactly when it is complete afterwards and had no
    /// owner, and afterwards it has an owner exactly when it is complete.
    #[verifier::spinoff_prover]
    #[verifier::rlimit(40)]
    pub proof fn lemma_box(self, m: DotsMove, b: int)
        requires
            self.wf(),
            self.spec_move_valid(m),
            0 <= b < 4,
        ensures
            Self::listed(self.spec_completes_after(m), b) <==> (self.with_line(m).box_complete(
                b / 2,
                b % 2,
            ) && self.board.owners@[b] is None),
            self.spec_apply(m).board.owners@[b] == owner_after(
                self.board,
                self.with_line(m),
                self.to_act,
                b,
            ),
            self.spec_apply(m).board.box_complete(b / 2, b % 2) == self.with_line(m).box_complete(
                b / 2,
                b % 2,
            ),
            self.spec_apply(m).board.owners@[b] is Some <==> self.spec_apply(m).board.box_complete(
                b / 2,
                b % 2,
            ),
    {
        reveal_with_fuel(keep_complete, 3);
        let cands = candidates(m);
        if cands.len() == 2 {
            assert(cands.drop_last().len() == 1);
            assert(cands.drop_last().last() == cands[0]);
            assert(cands.drop_last().drop_last().len() == 0);
        } else {
            assert(cands.drop_last().len() == 0);
        }
        assert(self.board.owners@.len() == 4);
        assert(self.board.owners@[b] is Some <==> self.board.box_complete(b / 2, b % 2));
        let next = self.spec_apply(m);
        assert(next.board.horizontals == self.with_line(m).horizontals);
        assert(next.board.verticals == self.with_line(m).verticals);
    }

    /// What drawing a free line does to a well-formed state: at most two
    /// boxes are completed, all on the board and without an owner so far;
    /// the result is well-formed and has one free line less.
    pub proof fn lemma_apply_details(self, m: DotsMove)
        requires
            self.wf(),
            self.spec_move_valid(m),
        ensures
            self.spec_completes_after(m).len() <= 2,
            forall|s: int|
                0 <= s < self.spec_completes_after(m).len() ==> (
                #[trigger] self.spec_completes_after(m)[s]).0 < 2 && self.spec_completes_after(
                    m,
                )[s].1 < 2,
            self.scores.0 <= 4 && self.scores.1 <= 4,
            forall|b: int|
                0 <= b < 4 ==> (#[trigger] self.spec_apply(m).board.owners@[b]) == (if Self::listed(
                    self.spec_completes_after(m),
                    b,
                ) {
                    Some(self.to_act)
                } else {
                    self.board.owners@[b]
                }),
            self.spec_apply(m).wf(),
            self.spec_apply(m).plies_left() < self.plies_left(),
            self.spec_apply(m).spec_ref_player() == self.spec_ref_player(),
    {
        self.lemma_completed(m);
        self.lemma_box(m, 0);
        self.lemma_box(m, 1);
        self.lemma_box(m, 2);
        self.lemma_box(m, 3);
        let next = self.spec_apply(m);
        let done = self.spec_completes_after(m);
        let k: int = match m {
            DotsMove::H(j, i) => j * 2 + i,
            DotsMove::V(j, i) => 6 + j * 3 + i,
        };
        assert(next.board.horizontals == self.with_line(m).horizontals);
        assert(next.board.verticals == self.with_line(m).verticals);
        assert(next.board.free_flags() =~= self.board.free_flags().update(k, false));
        lemma_count_clear(self.board.free_flags(), k);
        self.lemma_scores(m);
        assert(next.wf());
        assert(self.spec_apply(m).plies_left() < self.plies_left());
        assert(self.spec_apply(m).spec_ref_player() == self.spec_ref_player());
    }

    /// After a line is drawn the scores count the boxes again.
    #[verifier::spinoff_prover]
    #[verifier::rlimit(40)]
    proof fn lemma_scores(self, m: DotsMove)
        requires
            self.wf(),
            self.spec_move_valid(m),
        ensures
            self.scores.0 <= 4 && self.scores.1 <= 4,
            self.spec_apply(m).scores.0 == self.spec_apply(m).board.owned(DotsPlayer::A),
            self.spec_apply(m).scores.1 == self.spec_apply(m).board.owned(DotsPlayer::B),
    {
        self.lemma_completed(m);
        self.lemma_box(m, 0);
        self.lemma_box(m, 1);
        self.lemma_box(m, 2);
        self.lemma_box(m, 3);
        let done = self.spec_completes_after(m);
        let next = self.spec_apply(m);
        let l0 = Self::listed(done, 0);
        let l1 = Self::listed(done, 1);
        let l2 = Self::listed(done, 2);
        let l3 = Self::listed(done, 3);
        let count = (if l0 {
            1int
        } else {
            0int
        }) + (if l1 {
            1int
        } else {
            0int
        }) + (if l2 {
            1int
        } else {
            0int
        }) + (if l3 {
            1int
        } else {
            0int
        });
        assert(count == done.len()) by {
            if done.len() == 1 {
                let x = done[0].0 * 2 + done[0].1;
                assert(0 <= x < 4);
            } else if done.len() == 2 {
                let x = done[0].0 * 2 + done[0].1;
                let y = done[1].0 * 2 + done[1].1;
                assert(0 <= x < 4 && 0 <= y < 4 && x != y);
            }
        }
        assert(next.board.owners@[0] == owner_after(self.board, self.with_line(m), self.to_act, 0));
        assert(next.board.owners@[1] == owner_after(self.board, self.with_line(m), self.to_act, 1));
        assert(next.board.owners@[2] == owner_after(self.board, self.with_line(m), self.to_act, 2));
        assert(next.board.owners@[3] == owner_after(self.board, self.with_line(m), self.to_act, 3));
    }

    pub fn get_score(&self, a: DotsPlayer) -> (s: usize)
        ensures
            s == self.spec_score(a),
    {
        match a {
            DotsPlayer::A => self.scores.0,
            DotsPlayer::B => self.scores.1,
        }
    }

    pub fn inc_score(&mut self, a: DotsPlayer)
        requires
            old(self).spec_score(a) < usize::MAX,
        ensures
            final(self).spec_score(a) == old(self).spec_score(a) + 1,
            final(self).spec_score(a.spec_flip()) == old(self).spec_score(a.spec_flip()),
            final(self).board == old(self).board,
            final(self).to_act == old(self).to_act,
            final(self).ref_player == old(self).ref_player,
            final(self).winner == old(self).winner,
    {
        match a {
            DotsPlayer::A => {
                self.scores.0 = self.scores.0 + 1;
            },
            DotsPlayer::B => {
                self.scores.1 = self.scores.1 + 1;
            },
        }
    }

    /// Equal keys mean equal lines, equal owners of the boxes and the same
    /// side to act; for well-formed states the scores and the winner are
    /// then equal too.
    pub proof fn lemma_key_injective(a: Dots, b: Dots)
        requires
            a.spec_key() == b.spec_key(),
        ensures
            a.board.horizontals@ == b.board.horizontals@,
            a.board.verticals@ == b.board.verticals@,
            a.board.owners@ == b.board.owners@,
            a.to_act == b.to_act,
            a.wf() && b.wf() ==> a.scores == b.scores && a.winner == b.winner,
    {
        Self::lemma_digits(a);
        Self::lemma_digits(b);
        lemma_pack4_injective(a.digits(), b.digits());
        assert forall|k: int| 0 <= k < 6 implies a.board.horizontals@[k] == b.board.horizontals@[k]
            && a.board.verticals@[k] == b.board.verticals@[k] by {
            assert(a.digits()[k] == flag_code(a.board.horizontals@[k]));
            assert(b.digits()[k] == flag_code(b.board.horizontals@[k]));
            assert(a.digits()[k + 6] == flag_code(a.board.verticals@[k]));
            assert(b.digits()[k + 6] == flag_code(b.board.verticals@[k]));
        }
        assert forall|k: int| 0 <= k < 4 implies a.board.owners@[k] == b.board.owners@[k] by {
            assert(a.digits()[k + 12] == owner_code(a.board.owners@[k]));
            assert(b.digits()[k + 12] == owner_code(b.board.owners@[k]));
        }
        assert(a.digits()[16] == b.digits()[16]);
        assert(a.board.horizontals@ =~= b.board.horizontals@);
        assert(a.board.verticals@ =~= b.board.verticals@);
        assert(a.board.owners@ =~= b.board.owners@);
    }

    proof fn lemma_digits(g: Dots)
        ensures
            g.digits().len() == 17,
            all_below4(g.digits()),
            pack4(g.digits()) <= u128::MAX,
    {
        crate::counting::lemma_pack4_bound(g.digits());
        crate::counting::lemma_pow4_monotone(17, 63);
        crate::counting::lemma_pow4_63();
    }
}

pub open spec fn player_text(p: DotsPlayer) -> Seq<char> {
    match p {
        DotsPlayer::A => "A"@,
        DotsPlayer::B => "B"@,
    }
}

pub open spec fn winner_text(w: Option<DotsPlayer>) -> Seq<char> {
    match w {
        None => "None"@,
        Some(DotsPlayer::A) => "Some(A)"@,
        Some(DotsPlayer::B) => "Some(B)"@,
    }
}

impl DotsPlayer {
    pub fn show(&self) -> (s: &'static str)
        ensures
            s@ == player_text(*self),
    {
        match *self {
            DotsPlayer::A => "A",
            DotsPlayer::B => "B",
        }
    }
}

impl Dots {
    /// The state as text: who acts and the scores, the board and an empty
    /// line, and the winner.
    pub open spec fn text(self) -> Seq<char> {
        "Acting: "@ + player_text(self.to_act) + ", Scores: ("@ + decimal_text(self.scores.0 as nat)
            + ", "@ + decimal_text(self.scores.1 as nat) + ")\n"@ + self.board.text() + "\n"@
            + "Winner: "@ + winner_text(self.winner) + "\n"@
    }

    pub fn to_string(&self) -> (s: String)
        ensures
            s@ == self.text(),
    {
        let mut s = String::from_str("Acting: ");
        s.append(self.to_act.show());
        s.append(", Scores: (");
        let a = format_usize(self.scores.0);
        s.append(a.as_str());
        s.append(", ");
        let b = format_usize(self.scores.1);
        s.append(b.as_str());
        s.append(")\n");
        let board = self.board.to_string();
        s.append(board.as_str());
        s.append("\n");
        s.append("Winner: ");
        s.append(
            match self.winner {
                None => "None",
                Some(DotsPlayer::A) => "Some(A)",
                Some(DotsPlayer::B) => "Some(B)",
            },
        );
        s.append("\n");
        s
    }
}

impl Game for Dots {
    type Move = DotsMove;

    type Agent = DotsPlayer;

    /// A box has an owner exactly when its four sides are drawn, the scores
    /// count the boxes of each player, and the winner is the one that the
    /// lines and scores make.
    open spec fn wf(&self) -> bool {
        &&& forall|b: int|
            0 <= b < 4 ==> ((#[trigger] self.board.owners@[b]) is Some <==> self.board.box_complete(
                b / 2,
                b % 2,
            ))
        &&& self.scores.0 == self.board.owned(DotsPlayer::A)
        &&& self.scores.1 == self.board.owned(DotsPlayer::B)
        &&& self.winner == outcome(self.board, self.scores)
    }

    open spec fn spec_to_act(&self) -> DotsPlayer {
        self.to_act
    }

    open spec fn spec_ref_player(&self) -> DotsPlayer {
        self.ref_player
    }

    open spec fn spec_winner(&self) -> Option<DotsPlayer> {
        self.winner
    }

    open spec fn spec_agent_id(a: DotsPlayer) -> u32 {
        match a {
            DotsPlayer::A => 0,
            DotsPlayer::B => 1,
        }
    }

    open spec fn spec_has_won(&self, a: DotsPlayer) -> bool {
        self.winner == Some(a)
    }

    open spec fn spec_move_valid(&self, m: DotsMove) -> bool {
        self.board.spec_is_free(m)
    }

    open spec fn spec_moves(&self) -> Seq<DotsMove> {
        true_indices(self.board.free_flags()).map_values(|k: int| line_at(k))
    }

    open spec fn spec_apply(&self, m: DotsMove) -> Dots {
        let lines = match m {
            DotsMove::H(j, i) => DotsBoard {
                horizontals: spec_array_update(self.board.horizontals, j * 2 + i, true),
                verticals: self.board.verticals,
                owners: self.board.owners,
            },
            DotsMove::V(j, i) => DotsBoard {
                horizontals: self.board.horizontals,
                verticals: spec_array_update(self.board.verticals, j * 3 + i, true),
                owners: self.board.owners,
            },
        };
        let acting = self.to_act;
        let o0 = spec_array_update(self.board.owners, 0, owner_after(self.board, lines, acting, 0));
        let o1 = spec_array_update(o0, 1, owner_after(self.board, lines, acting, 1));
        let o2 = spec_array_update(o1, 2, owner_after(self.board, lines, acting, 2));
        let o3 = spec_array_update(o2, 3, owner_after(self.board, lines, acting, 3));
        let board = DotsBoard {
            horizontals: lines.horizontals,
            verticals: lines.verticals,
            owners: o3,
        };
        let gained = self.spec_completes_after(m).len();
        let scores = match acting {
            DotsPlayer::A => ((self.scores.0 + gained) as usize, self.scores.1),
            DotsPlayer::B => (self.scores.0, (self.scores.1 + gained) as usize),
        };
        Dots {
            board,
            to_act: if gained == 0 {
                acting.spec_flip()
            } else {
                acting
            },
            ref_player: self.ref_player,
            winner: outcome(board, scores),
            scores,
        }
    }

    open spec fn spec_new(start: DotsPlayer) -> Dots {
        Dots {
            board: DotsBoard {
                horizontals: spec_array_fill_for_copy_type::<bool, 6>(false),
                verticals: spec_array_fill_for_copy_type::<bool, 6>(false),
                owners: spec_array_fill_for_copy_type::<Option<DotsPlayer>, 4>(None),
            },
            to_act: start,
            ref_player: start,
            winner: None,
            scores: (0, 0),
        }
    }

    open spec fn spec_key(&self) -> u128 {
        pack4(self.digits()) as u128
    }

    /// Horizontal lines before vertical ones, then by row, then by column.
    open spec fn spec_move_lt(a: DotsMove, b: DotsMove) -> bool {
        match (a, b) {
            (DotsMove::H(j1, i1), DotsMove::H(j2, i2)) => j1 < j2 || (j1 == j2 && i1 < i2),
            (DotsMove::H(_, _), DotsMove::V(_, _)) => true,
            (DotsMove::V(_, _), DotsMove::H(_, _)) => false,
            (DotsMove::V(j1, i1), DotsMove::V(j2, i2)) => j1 < j2 || (j1 == j2 && i1 < i2),
        }
    }

    /// The number of lines that are still free.
    open spec fn plies_left(&self) -> nat {
        count_true(self.board.free_flags())
    }

    proof fn lemma_state_laws(&self) {
        let flags = self.board.free_flags();
        lemma_true_indices(flags);
        let ti = true_indices(flags);
        let moves = self.spec_moves();
        if self.winner is Some {
            assert(self.board.all_drawn());
            if ti.len() > 0 {
                let k = ti[0];
                assert(flags[k]);
            }
        }
        if self.winner is None && moves.len() == 0 {
            assert forall|m: DotsMove| !self.spec_move_valid(m) by {
                if self.spec_move_valid(m) {
                    let k: int = match m {
                        DotsMove::H(j, i) => j * 2 + i,
                        DotsMove::V(j, i) => 6 + j * 3 + i,
                    };
                    assert(flags[k]);
                    assert(ti.contains(k));
                }
            }
        }
        assert forall|i: int| 0 <= i < moves.len() implies self.spec_move_valid(
            #[trigger] moves[i],
        ) by {
            assert(flags[ti[i]]);
            assert(moves[i] == line_at(ti[i]));
        }
        assert forall|i: int, j: int| 0 <= i < j < moves.len() implies Self::spec_move_lt(
            #[trigger] moves[i],
            #[trigger] moves[j],
        ) by {
            assert(ti[i] < ti[j]);
            assert(moves[i] == line_at(ti[i]));
            assert(moves[j] == line_at(ti[j]));
        }
    }

    proof fn lemma_move_order(a: DotsMove, b: DotsMove, c: DotsMove) {
    }

    proof fn lemma_apply(&self, m: DotsMove) {
        self.lemma_apply_details(m);
    }

    proof fn lemma_key_congruence(&self, other: &Dots, m: DotsMove) {
        Self::lemma_key_injective(*self, *other);
        assert(self.board.horizontals =~= other.board.horizontals);
        assert(self.board.verticals =~= other.board.verticals);
        assert(self.board.owners =~= other.board.owners);
        assert(self.board == other.board);
        let twin = Dots { ref_player: self.ref_player, ..*other };
        assert(twin == *self);
        let a = self.spec_apply(m);
        let b = other.spec_apply(m);
        assert(a.board == b.board && a.to_act == b.to_act);
        assert(a.digits() =~= b.digits());
    }

    fn to_act(&self) -> DotsPlayer {
        self.to_act
    }

    fn player_weight(&self, a: &DotsPlayer) -> Score {
        if self.ref_player() == *a {
            1
        } else {
            -1
        }
    }

    fn winner(&self) -> Option<DotsPlayer> {
        self.winner
    }

    fn agent_id(&self, agent: &DotsPlayer) -> u32 {
        match *agent {
            DotsPlayer::A => 0,
            DotsPlayer::B => 1,
        }
    }

    fn ref_player(&self) -> DotsPlayer {
        self.ref_player
    }

    fn new(start: &DotsPlayer) -> Dots {
        let game = Dots {
            board: DotsBoard { horizontals: [false;6], verticals: [false;6], owners: [None;4] },
            to_act: *start,
            ref_player: *start,
            winner: None,
            scores: (0, 0),
        };
        proof {
            assert(game.board.horizontals =~= spec_array_fill_for_copy_type::<bool, 6>(false));
            assert(game.board.verticals =~= spec_array_fill_for_copy_type::<bool, 6>(false));
            assert(game.board.owners =~= spec_array_fill_for_copy_type::<Option<DotsPlayer>, 4>(
                None,
            ));
            assert(!game.board.horizontals@[0]);
            assert(!game.board.all_drawn());
        }
        game
    }

    fn possible_moves(&self) -> (moves: Vec<ValidMove<Dots>>) {
        let mut moves: Vec<ValidMove<Dots>> = Vec::new();
        let ghost flags = self.board.free_flags();
        let mut k: usize = 0;
        while k < 12
            invariant
                k <= 12,
                flags == self.board.free_flags(),
                moves@.len() == true_indices(flags.take(k as int)).len(),
                forall|i: int|
                    0 <= i < moves@.len() ==> (#[trigger] moves@[i]).valid_move == line_at(
                        true_indices(flags.take(k as int))[i],
                    ) && moves@[i].valid_for == *self,
            decreases 12 - k,
        {
            proof {
                lemma_true_indices_step(flags, k as int);
            }
            let m = if k < 6 {
                DotsMove::H(k / 2, k % 2)
            } else {
                DotsMove::V((k - 6) / 3, (k - 6) % 3)
            };
            if self.board.is_free(&m) {
                moves.push(ValidMove { valid_move: m, valid_for: *self });
            }
            k += 1;
        }
        proof {
            assert(flags.take(12) =~= flags);
        }
        moves
    }

    fn move_valid(&self, m: &DotsMove) -> bool {
        self.board.is_free(m)
    }

    fn has_won(&self, agent: &DotsPlayer) -> bool {
        if let Some(winner) = self.winner {
            if winner == *agent {
                return true;
            }
        }
        false
    }

    fn apply(&mut self, m: DotsMove) {
        let acting = self.to_act;
        match m {
            DotsMove::H(j, i) => {
                self.board.horizontals[j * 2 + i] = true;
            },
            DotsMove::V(j, i) => {
                self.board.verticals[j * 3 + i] = true;
            },
        }
        let ghost drawn = *self;
        let complete = self.completes(m);
        let no_completions = complete.len() == 0;
        proof {
            old(self).lemma_apply_details(m);
            assert(complete@ == old(self).spec_completes_after(m));
        }
        let mut t: usize = 0;
        while t < complete.len()
            invariant
                t <= complete@.len() <= 2,
                complete@ == old(self).spec_completes_after(m),
                forall|s: int|
                    0 <= s < complete@.len() ==> (#[trigger] complete@[s]).0 < 2 && complete@[s].1 < 2,
                self.board.horizontals == drawn.board.horizontals,
                self.board.verticals == drawn.board.verticals,
                self.to_act == drawn.to_act,
                self.ref_player == drawn.ref_player,
                self.winner == drawn.winner,
                acting == drawn.to_act,
                drawn.scores == old(self).scores,
                drawn.board.owners == old(self).board.owners,
                old(self).scores.0 <= 4 && old(self).scores.1 <= 4,
                self.spec_score(acting) == old(self).spec_score(acting) + t,
                self.spec_score(acting.spec_flip()) == old(self).spec_score(acting.spec_flip()),
                forall|b: int|
                    0 <= b < 4 ==> #[trigger] self.board.owners@[b] == (if Self::listed(
                        complete@.take(t as int),
                        b,
                    ) {
                        Some(acting)
                    } else {
                        old(self).board.owners@[b]
                    }),
            decreases complete@.len() - t,
        {
            let (j, i) = complete[t];
            self.board.owners[j * 2 + i] = Some(acting);
            self.inc_score(acting);
            t += 1;
        }
        let mut all_drawn: bool = true;
        let mut k: usize = 0;
        while k < 6
            invariant
                k <= 6,
                all_drawn == (forall|q: int|
                    0 <= q < k ==> self.board.horizontals@[q] && self.board.verticals@[q]),
            decreases 6 - k,
        {
            if !self.board.horizontals[k] || !self.board.verticals[k] {
                all_drawn = false;
            }
            k += 1;
        }
        if all_drawn {
            let other = acting.flip();
            let mine: usize = self.get_score(acting);
            let theirs: usize = self.get_score(other);
            if mine > theirs {
                self.winner = Some(acting);
            } else if mine < theirs {
                self.winner = Some(other);
            }
        }
        if no_completions {
            self.to_act = acting.flip();
        }
        proof {
            let next = old(self).spec_apply(m);
            assert(complete@.take(t as int) =~= complete@);
            assert(self.board.owners =~= next.board.owners);
            assert(self.board.horizontals =~= next.board.horizontals);
            assert(self.board.verticals =~= next.board.verticals);
            assert(self.scores == next.scores);
            assert(self.winner == next.winner);
            assert(*self == next);
        }
    }

    fn key(&self) -> u128 {
        let mut digits: Vec<u8> = Vec::new();
        let mut k: usize = 0;
        while k < 6
            invariant
                k <= 6,
                digits@.len() == k,
                forall|i: int|
                    0 <= i < k ==> #[trigger] digits@[i] as nat == flag_code(
                        self.board.horizontals@[i],
                    ),
            decreases 6 - k,
        {
            digits.push(
                if self.board.horizontals[k] {
                    1
                } else {
                    0
                },
            );
            k += 1;
        }
        k = 0;
        while k < 6
            invariant
                k <= 6,
                digits@.len() == 6 + k,
                forall|i: int|
                    0 <= i < 6 ==> #[trigger] digits@[i] as nat == flag_code(
                        self.board.horizontals@[i],
                    ),
                forall|i: int|
                    0 <= i < k ==> #[trigger] digits@[6 + i] as nat == flag_code(
                        self.board.verticals@[i],
                    ),
            decreases 6 - k,
        {
            digits.push(
                if self.board.verticals[k] {
                    1
                } else {
                    0
                },
            );
            k += 1;
        }
        k = 0;
        while k < 4
            invariant
                k <= 4,
                digits@.len() == 12 + k,
                forall|i: int|
                    0 <= i < 6 ==> #[trigger] digits@[i] as nat == flag_code(
                        self.board.horizontals@[i],
                    ),
                forall|i: int|
                    0 <= i < 6 ==> #[trigger] digits@[6 + i] as nat == flag_code(
                        self.board.verticals@[i],
                    ),
                forall|i: int|
                    0 <= i < k ==> #[trigger] digits@[12 + i] as nat == owner_code(
                        self.board.owners@[i],
                    ),
            decreases 4 - k,
        {
            let code: u8 = match self.board.owners[k] {
                None => 0,
                Some(DotsPlayer::A) => 1,
                Some(DotsPlayer::B) => 2,
            };
            digits.push(code);
            k += 1;
        }
        digits.push(
            match self.to_act {
                DotsPlayer::A => 0,
                DotsPlayer::B => 1,
            },
        );
        proof {
            Self::lemma_digits(*self);
            let mine = digits@.map_values(|d: u8| d as nat);
            assert(mine.len() == 17);
            assert forall|i: int| 0 <= i < 17 implies mine[i] == self.digits()[i] by {
                if i < 6 {
                    assert(digits@[i] as nat == flag_code(self.board.horizontals@[i]));
                } else if i < 12 {
                    assert(digits@[6 + (i - 6)] as nat == flag_code(self.board.verticals@[i - 6]));
                } else if i < 16 {
                    assert(digits@[12 + (i - 12)] as nat == owner_code(self.board.owners@[i - 12]));
                }
            }
            assert(mine =~= self.digits());
            assert forall|i: int| 0 <= i < digits@.len() implies #[trigger] digits@[i] < 4 by {
                assert(mine[i] == digits@[i] as nat);
                assert(self.digits()[i] < 4);
            }
        }
        pack_digits(&digits)
    }

    fn move_lt(a: &DotsMove, b: &DotsMove) -> bool {
        match (*a, *b) {
            (DotsMove::H(j1, i1), DotsMove::H(j2, i2)) => j1 < j2 || (j1 == j2 && i1 < i2),
            (DotsMove::H(_, _), DotsMove::V(_, _)) => true,
            (DotsMove::V(_, _), DotsMove::H(_, _)) => false,
            (DotsMove::V(j1, i1), DotsMove::V(j2, i2)) => j1 < j2 || (j1 == j2 && i1 < i2),
        }
    }
}

impl RandGame for Dots {

}

/// The line that the word `kind` and the numbers `j` and `i` denote.
pub open spec fn line_of(kind: Seq<char>, j: usize, i: usize) -> Option<DotsMove> {
    if kind.len() == 1 && (kind[0] == 'H' || kind[0] == 'h') {
        Some(DotsMove::H(j, i))
    } else if kind.len() == 1 && (kind[0] == 'V' || kind[0] == 'v') {
        Some(DotsMove::V(j, i))
    } else {
        None
    }
}

impl ParseGame for Dots {
    /// A line is written as three words with one space between them: `H`
    /// or `V`, in either case, then the row and the column. Words after
    /// the third are not read.
    open spec fn spec_parse_move(&self, input: Seq<char>) -> Option<DotsMove> {
        let a = next_space(input, 0);
        let b = next_space(input, a + 1);
        let c = next_space(input, b + 1);
        if a >= input.len() || b >= input.len() {
            None
        } else {
            match (spec_parse_usize(slice(input, a + 1, b)), spec_parse_usize(
                slice(input, b + 1, c),
            )) {
                (Some(j), Some(i)) => line_of(slice(input, 0, a), j, i),
                _ => None,
            }
        }
    }

    open spec fn spec_move_text(m: DotsMove) -> Seq<char> {
        match m {
            DotsMove::H(j, i) => "H "@ + decimal_text(j as nat) + " "@ + decimal_text(i as nat),
            DotsMove::V(j, i) => "V "@ + decimal_text(j as nat) + " "@ + decimal_text(i as nat),
        }
    }

    proof fn lemma_parse_round_trip(&self, m: DotsMove) {
        reveal_strlit(" ");
        reveal_strlit("H ");
        reveal_strlit("V ");
        reveal_with_fuel(next_space, 3);
        let (j, i) = m.spec_coords();
        let dj = decimal_text(j as nat);
        let di = decimal_text(i as nat);
        let t = Self::spec_move_text(m);
        lemma_decimal_text(j as nat);
        lemma_decimal_text(i as nat);
        let b = 2 + dj.len() as int;
        assert(t.len() == b + 1 + di.len());
        assert(t[0] == 'H' || t[0] == 'V');
        assert(t[1] == ' ');
        assert(t[b] == ' ');
        assert(next_space(t, 0) == 1);
        assert(t.subrange(2, b) =~= dj);
        assert(t.subrange(b + 1, t.len() as int) =~= di);
        lemma_digits_end(t, 2, b);
        lemma_digits_end(t, b + 1, t.len() as int);
        lemma_parse_decimal(j);
        lemma_parse_decimal(i);
        assert(slice(t, 0, 1).len() == 1 && slice(t, 0, 1)[0] == t[0]);
    }

    fn parse_move(&self, input: &str) -> (m: Option<DotsMove>) {
        let chars = chars_of(input);
        let n: usize = chars.len();
        let a: usize = find_space(&chars, 0);
        if a >= n {
            return None;
        }
        let b: usize = find_space(&chars, a + 1);
        if b >= n {
            return None;
        }
        let c: usize = find_space(&chars, b + 1);
        let mj = parse_usize(&chars, a + 1, b);
        let mi = parse_usize(&chars, b + 1, c);
        match (mj, mi) {
            (Some(j), Some(i)) => {
                proof {
                    assert(slice(chars@, 0, a as int).len() == a);
                    if a == 1 {
                        assert(slice(chars@, 0, a as int)[0] == chars@[0]);
                    }
                }
                if a == 1 && (chars[0] == 'H' || chars[0] == 'h') {
                    Some(DotsMove::H(j, i))
                } else if a == 1 && (chars[0] == 'V' || chars[0] == 'v') {
                    Some(DotsMove::V(j, i))
                } else {
                    None
                }
            },
            _ => None,
        }
    }

    fn move_text(&self, m: &DotsMove) -> (s: String) {
        let (kind, j, i) = match *m {
            DotsMove::H(j, i) => ("H ", j, i),
            DotsMove::V(j, i) => ("V ", j, i),
        };
        let mut s = String::from_str(kind);
        let row = format_usize(j);
        s.append(row.as_str());
        s.append(" ");
        let column = format_usize(i);
        s.append(column.as_str());
        s
    }
}

} // verus!
