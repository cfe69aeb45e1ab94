//! Negamax search with alpha-beta pruning. Positions at the search depth
//! and finished positions are valued by random playouts; the values are
//! remembered per position.

use super::Strategy;
use crate::game::{are_outcomes, wins_of, Game, RandGame, Score};
use crate::rng::fresh_rng;
use rand::XorShiftRng;
use std::collections::HashMap;
use std::marker::PhantomData;
use vstd::prelude::*;

verus! {

broadcast use vstd::std_specs::hash::group_hash_axioms;

#[derive(Clone, Copy, Debug, PartialEq, Eq, Structural)]
pub struct NegamaxParams {
    /// The depth below which positions are valued and not searched.
    pub max_depth: usize,
    /// The number of random playouts that value one position.
    pub trials: usize,
}

/// What is wrong with a set of parameters.
#[derive(Clone, Copy, Debug, PartialEq, Eq, Structural)]
pub enum NegamaxParamsError {
    /// No playout would be run.
    NoTrials,
    /// The playouts won could not be told as a score.
    TooManyTrials,
    /// The depth of a child position could not be counted.
    TooDeep,
}

impl NegamaxParams {
    /// There is at least one trial, the trials fit a score and the depth
    /// leaves room to count one level further.
    pub open spec fn valid(self) -> bool {
        &&& 1 <= self.trials < i32::MAX
        &&& self.max_depth < usize::MAX
    }

    /// What `validate` answers: the first fault, in the order trials,
    /// depth.
    pub open spec fn spec_validate(self) -> Result<(), NegamaxParamsError> {
        if self.trials == 0 {
            Err(NegamaxParamsError::NoTrials)
        } else if self.trials >= i32::MAX {
            Err(NegamaxParamsError::TooManyTrials)
        } else if self.max_depth == usize::MAX {
            Err(NegamaxParamsError::TooDeep)
        } else {
            Ok(())
        }
    }

    /// Accepts valid parameters and names the first fault of others.
    pub fn validate(&self) -> (r: Result<(), NegamaxParamsError>)
        ensures
            r is Ok <==> self.valid(),
            r == self.spec_validate(),
    {
        if self.trials == 0 {
            Err(NegamaxParamsError::NoTrials)
        } else if self.trials >= i32::MAX as usize {
            Err(NegamaxParamsError::TooManyTrials)
        } else if self.max_depth == usize::MAX {
            Err(NegamaxParamsError::TooDeep)
        } else {
            Ok(())
        }
    }
}

pub struct NegamaxState {
    pub rng: XorShiftRng,
    /// The value of every position valued so far, by position key.
    pub cache: HashMap<u128, usize>,
}

pub struct Negamax<G> {
    pub params: NegamaxParams,
    pub state: NegamaxState,
    pub game: PhantomData<G>,
}

/// A value for every position key: what the heuristic may say of it.
pub type Valuation = spec_fn(u128) -> nat;

/// The valuation says of every remembered position what is remembered.
pub open spec fn agrees(h: Valuation, cache: Map<u128, usize>) -> bool {
    forall|k: u128| #[trigger] cache.dom().contains(k) ==> h(k) == cache[k]
}

/// The sign of a position: +1 where the reference player is to act, -1
/// where the other side is.
pub open spec fn weight<G: Game>(game: G) -> int {
    if game.spec_to_act() == game.spec_ref_player() {
        1
    } else {
        -1
    }
}

/// The position that the `k`-th listed move of `game` leads to.
pub open spec fn child<G: Game>(game: G, k: int) -> G {
    game.spec_apply(game.spec_moves()[k])
}

/// The value of `game`, which stands `depth` moves below the root, for
/// the side to act there: below the search depth and where no move is
/// listed, what the valuation says of the position, signed; elsewhere the
/// best of the negated values of its children.
pub open spec fn value<G: Game>(h: Valuation, game: G, depth: nat, max_depth: nat) -> int
    decreases max_depth + 1 - depth, game.spec_moves().len() + 1,
{
    if depth > max_depth || game.spec_moves().len() == 0 {
        h(game.spec_key()) * weight(game)
    } else {
        best_of(h, game, depth, max_depth, game.spec_moves().len())
    }
}

/// The best of the negated values of the first `k` children of `game`,
/// for `k` at least one.
pub open spec fn best_of<G: Game>(
    h: Valuation,
    game: G,
    depth: nat,
    max_depth: nat,
    k: nat,
) -> int
    decreases max_depth + 1 - depth, k,
{
    if depth > max_depth {
        0
    } else if k <= 1 {
        -value(h, child(game, 0), depth + 1, max_depth)
    } else {
        let rest = best_of(h, game, depth, max_depth, (k - 1) as nat);
        let last = -value(h, child(game, k - 1), depth + 1, max_depth);
        if last > rest {
            last
        } else {
            rest
        }
    }
}

/// Which of the first `k` children of `game` is the best: of several with
/// the best negated value the last, which is the one that the greatest
/// move leads to.
pub open spec fn best_child<G: Game>(
    h: Valuation,
    game: G,
    depth: nat,
    max_depth: nat,
    k: nat,
) -> int
    decreases k,
{
    if k <= 1 {
        0
    } else if -value(h, child(game, k - 1), depth + 1, max_depth) >= best_of(
        h,
        game,
        depth,
        max_depth,
        (k - 1) as nat,
    ) {
        k - 1
    } else {
        best_child(h, game, depth, max_depth, (k - 1) as nat)
    }
}

/// What a search between `alpha` and `beta` says of the value of a
/// position: a score at or below `alpha` is an upper bound of the value, a
/// score at or above `beta` a lower bound, and a score between them is
/// the value itself, in which case the move is the one to the best child.
pub open spec fn is_search_result<G: Game>(
    h: Valuation,
    game: G,
    depth: nat,
    max_depth: nat,
    alpha: int,
    beta: int,
    r: (Score, Option<G::Move>),
) -> bool {
    let v = value(h, game, depth, max_depth);
    &&& r.0 <= alpha ==> v <= r.0
    &&& r.0 >= beta ==> v >= r.0
    &&& alpha < r.0 < beta ==> v == r.0 && (r.1 matches Some(m) ==> m == game.spec_moves()[best_child(
        h,
        game,
        depth,
        max_depth,
        game.spec_moves().len(),
    )])
}

/// The best score so far, nought where there is none.
pub open spec fn top_score<M>(best: Option<(Score, M)>) -> int {
    match best {
        Some(b) => b.0 as int,
        None => 0,
    }
}

/// What holds in the middle of a search, after `k` children: the best
/// score so far bounds the best of their negated values as the result of a
/// search bounds the value.
pub open spec fn is_progress<G: Game>(
    h: Valuation,
    game: G,
    depth: nat,
    max_depth: nat,
    alpha: int,
    beta: int,
    k: nat,
    best: Option<(Score, G::Move)>,
) -> bool {
    k >= 1 ==> (best matches Some(b) && {
        let top = best_of(h, game, depth, max_depth, k);
        &&& b.0 < beta ==> top <= b.0
        &&& b.0 > alpha ==> top >= b.0
        &&& alpha < b.0 < beta ==> b.1 == game.spec_moves()[best_child(
            h,
            game,
            depth,
            max_depth,
            k,
        )]
    })
}

/// What a search with the widest bounds says: the score is the value of
/// the position, and the move, if there is one, leads to the best child,
/// whose negated value is the score.
pub open spec fn is_negamax_result<G: Game>(
    h: Valuation,
    game: G,
    depth: nat,
    max_depth: nat,
    r: (Score, Option<G::Move>),
) -> bool {
    &&& r.0 == value(h, game, depth, max_depth)
    &&& r.1 matches Some(m) ==> m == game.spec_moves()[best_child(
        h,
        game,
        depth,
        max_depth,
        game.spec_moves().len(),
    )] && -value(h, game.spec_apply(m), depth + 1, max_depth) == r.0
}

/// The best child is one of the children, its negated value is the best,
/// and no later child comes up to it.
pub proof fn lemma_best_child<G: Game>(h: Valuation, game: G, depth: nat, max_depth: nat, k: nat)
    requires
        depth <= max_depth,
        k >= 1,
    ensures
        0 <= best_child(h, game, depth, max_depth, k) < k,
        -value(h, child(game, best_child(h, game, depth, max_depth, k)), depth + 1, max_depth)
            == best_of(h, game, depth, max_depth, k),
        forall|j: int|
            0 <= j < k ==> -value(h, #[trigger] child(game, j), depth + 1, max_depth) <= best_of(
                h,
                game,
                depth,
                max_depth,
                k,
            ),
        forall|j: int|
            best_child(h, game, depth, max_depth, k) < j < k ==> -value(
                h,
                #[trigger] child(game, j),
                depth + 1,
                max_depth,
            ) < best_of(h, game, depth, max_depth, k),
    decreases k,
{
    if k > 1 {
        lemma_best_child(h, game, depth, max_depth, (k - 1) as nat);
    }
}

/// The best of more children is no worse.
pub proof fn lemma_best_of_grows<G: Game>(
    h: Valuation,
    game: G,
    depth: nat,
    max_depth: nat,
    k: nat,
    n: nat,
)
    requires
        depth <= max_depth,
        1 <= k <= n,
    ensures
        best_of(h, game, depth, max_depth, k) <= best_of(h, game, depth, max_depth, n),
    decreases n,
{
    if k < n {
        lemma_best_of_grows(h, game, depth, max_depth, k, (n - 1) as nat);
    }
}

/// One step of the search: what the child's search says of the child's
/// value carries the bounds over from `k` children to `k + 1`.
pub proof fn lemma_search_step<G: Game>(
    h: Valuation,
    game: G,
    depth: nat,
    max_depth: nat,
    alpha: int,
    beta: int,
    k: nat,
    best: Option<(Score, G::Move)>,
    floor: int,
    found: (Score, Option<G::Move>),
    next: Option<(Score, G::Move)>,
)
    requires
        depth <= max_depth,
        alpha < beta,
        k < game.spec_moves().len(),
        is_progress(h, game, depth, max_depth, alpha, beta, k, best),
        k >= 1 ==> best is Some && top_score(best) < beta,
        k == 0 ==> best is None,
        floor == (if best is Some && top_score(best) > alpha {
            top_score(best) - 1
        } else {
            alpha
        }),
        is_search_result(h, child(game, k as int), depth + 1, max_depth, -beta, -floor, found),
        next == (if best is None || -found.0 > top_score(best) || (-found.0 == top_score(best) && -found.0
            > alpha) {
            Some(((-found.0) as Score, game.spec_moves()[k as int]))
        } else {
            best
        }),
        i32::MIN < found.0,
    ensures
        is_progress(h, game, depth, max_depth, alpha, beta, k + 1, next),
{
    let cv = -value(h, child(game, k as int), depth + 1, max_depth);
    let after = best_of(h, game, depth, max_depth, k + 1);
    if k == 0 {
        assert(after == cv);
        assert(best_child(h, game, depth, max_depth, 1) == 0);
    } else {
        let top = best_of(h, game, depth, max_depth, k);
        assert(after == if cv > top {
            cv
        } else {
            top
        });
        assert(best_child(h, game, depth, max_depth, k + 1) == if cv >= top {
            k as int
        } else {
            best_child(h, game, depth, max_depth, k)
        });
    }
}

impl<G: RandGame> Negamax<G> {
    /// The parameters are valid, and no remembered value exceeds the
    /// number of trials.
    pub open spec fn wf(&self) -> bool {
        &&& self.params.valid()
        &&& forall|k: u128| #[trigger]
            self.state.cache@.dom().contains(k) ==> self.state.cache@[k] <= self.params.trials
    }

    /// `later` remembers everything that `self` remembers.
    pub open spec fn remembered_by(&self, later: &Self) -> bool {
        &&& later.params == self.params
        &&& forall|k: u128| #[trigger]
            self.state.cache@.dom().contains(k) ==> later.state.cache@.dom().contains(k)
                && later.state.cache@[k] == self.state.cache@[k]
    }

    /// The value of a position: the remembered value where there is one;
    /// for a decided position all trials if the reference player has won
    /// and none if the other has; otherwise the number of random playouts,
    /// out of the trials, that the reference player wins. The value is
    /// remembered. The generator is drawn from only where playouts are
    /// run.
    pub fn heuristic(&mut self, game: G) -> (ans: usize)
        requires
            old(self).wf(),
            game.wf(),
        ensures
            final(self).wf(),
            old(self).remembered_by(final(self)),
            ans <= old(self).params.trials,
            final(self).state.cache@ == old(self).state.cache@.insert(game.spec_key(), ans),
            old(self).state.cache@.dom().contains(game.spec_key()) ==> ans
                == old(self).state.cache@[game.spec_key()],
            !old(self).state.cache@.dom().contains(game.spec_key()) ==> (match game.spec_winner() {
                Some(c) => ans == (if c == game.spec_ref_player() {
                    old(self).params.trials
                } else {
                    0
                }),
                None => exists|outcomes: Seq<Option<G::Agent>>| #[trigger]
                    are_outcomes(game, outcomes) && outcomes.len() == old(self).params.trials
                        && ans == wins_of::<G>(outcomes, game.spec_ref_player()),
            }),
            old(self).state.cache@.dom().contains(game.spec_key()) || game.spec_winner() is Some
                ==> final(self).state.rng == old(self).state.rng,
    {
        let key: u128 = game.key();
        match self.state.cache.get(&key) {
            Some(v) => {
                let ans: usize = *v;
                proof {
                    assert(self.state.cache@.dom().contains(key));
                    assert(self.state.cache@ =~= self.state.cache@.insert(key, ans));
                }
                return ans;
            },
            None => {},
        }
        let trials: usize = self.params.trials;
        let ans: usize = match game.winner() {
            Some(c) => {
                let ref_player = game.ref_player();
                proof {
                    game.lemma_state_laws();
                }
                if game.agent_id(&c) == game.agent_id(&ref_player) {
                    trials
                } else {
                    0
                }
            },
            None => game.monte_carlo(&mut self.state.rng, trials as u32) as usize,
        };
        self.state.cache.insert(key, ans);
        ans
    }

    /// Searches the position `game`, which stands `depth` moves below the
    /// root, for a score between `alpha` and `beta`. Below the search depth
    /// and where no move is listed, the position is valued: by its
    /// heuristic value for the reference player, negated where the other
    /// side is to act. Elsewhere the children are searched in the order of
    /// the listed moves, each with the bounds swapped and negated; the best
    /// negated score is returned with its move, of several moves with that
    /// score the greatest, and the search stops once a score reaches
    /// `beta`. The values of the positions depend on random playouts and
    /// are remembered; whatever they are, the score bounds the value of the
    /// position as the value is defined over them, and is that value where
    /// it lies between `alpha` and `beta`.
    pub fn search(&mut self, game: G, depth: usize, alpha: Score, beta: Score) -> (r: (
        Score,
        Option<G::Move>,
    )) where G::Move: Copy
        requires
            old(self).wf(),
            game.wf(),
            -(old(self).params.trials as int) - 1 <= alpha < beta,
            beta <= old(self).params.trials as int + 1,
        ensures
            final(self).wf(),
            old(self).remembered_by(final(self)),
            -(old(self).params.trials as int) <= r.0 <= old(self).params.trials as int,
            r.1 is Some <==> depth <= old(self).params.max_depth && game.spec_moves().len() > 0,
            r.1 matches Some(m) ==> game.spec_moves().contains(m) && game.spec_move_valid(m),
            r.1 is None ==> final(self).state.cache@.dom().contains(game.spec_key()) && r.0
                == final(self).state.cache@[game.spec_key()] * weight(game),
            forall|h: Valuation| #[trigger]
                agrees(h, final(self).state.cache@) ==> is_search_result(
                    h,
                    game,
                    depth as nat,
                    old(self).params.max_depth as nat,
                    alpha as int,
                    beta as int,
                    r,
                ),
        decreases game.plies_left(),
    {
        let max_depth: usize = self.params.max_depth;
        let nexts = game.possible_moves();
        if depth > max_depth || nexts.len() == 0 {
            let acting = game.to_act();
            let ref_player = game.ref_player();
            let weight: Score = game.player_weight(&acting);
            let value: usize = self.heuristic(game);
            proof {
                assert(self.state.cache@.dom().contains(game.spec_key()));
                assert(self.state.cache@[game.spec_key()] == value);
                assert(weight == crate::strategies::negamax::weight(game));
                assert(value as int * weight <= self.params.trials) by (nonlinear_arith)
                    requires
                        0 <= value <= self.params.trials,
                        weight == 1 || weight == -1,
                ;
                assert(value as int * weight >= -(self.params.trials as int)) by (nonlinear_arith)
                    requires
                        0 <= value <= self.params.trials,
                        weight == 1 || weight == -1,
                ;
            }
            return (value as Score * weight, None);
        }
        proof {
            game.lemma_state_laws();
        }
        let ghost listed = nexts@;
        let ghost start = *self;
        let n: usize = nexts.len();
        let mut best: Option<(Score, G::Move)> = None;
        let mut lower: Score = alpha;
        let mut k: usize = 0;
        while k < n && lower < beta
            invariant
                k <= n,
                n == nexts@.len(),
                n > 0,
                alpha < beta,
                nexts@ == listed,
                listed.len() == game.spec_moves().len(),
                game.wf(),
                game.spec_winner() is None,
                depth <= max_depth < usize::MAX,
                max_depth == self.params.max_depth,
                forall|i: int|
                    0 <= i < listed.len() ==> (#[trigger] listed[i]).valid_move
                        == game.spec_moves()[i] && listed[i].valid_for == game,
                forall|i: int|
                    0 <= i < game.spec_moves().len() ==> game.spec_move_valid(
                        #[trigger] game.spec_moves()[i],
                    ),
                self.wf(),
                start.remembered_by(self),
                old(self).remembered_by(&start),
                -(self.params.trials as int) - 1 <= alpha,
                beta <= self.params.trials as int + 1,
                k == 0 <==> best is None,
                best matches Some(b) ==> -(self.params.trials as int) <= b.0
                    <= self.params.trials as int && game.spec_moves().contains(b.1),
                lower == (if best is Some && top_score(best) > alpha {
                    top_score(best)
                } else {
                    alpha as int
                }),
                forall|h: Valuation| #[trigger]
                    agrees(h, self.state.cache@) ==> is_progress(
                        h,
                        game,
                        depth as nat,
                        max_depth as nat,
                        alpha as int,
                        beta as int,
                        k as nat,
                        best,
                    ),
            decreases n - k,
        {
            let m: G::Move = nexts[k].valid_move;
            proof {
                assert(m == game.spec_moves()[k as int]);
                game.lemma_apply(m);
            }
            let mut new_game: G = game;
            new_game.apply(m);
            let floor: Score = match best {
                Some(b) => if b.0 > alpha {
                    lower - 1
                } else {
                    lower
                },
                None => lower,
            };
            let ghost before = *self;
            let ghost earlier = best;
            let found = self.search(new_game, depth + 1, -beta, -floor);
            let score: Score = -found.0;
            let better: bool = match best {
                None => true,
                Some(b) => score > b.0 || (score == b.0 && score > alpha),
            };
            if better {
                best = Some((score, m));
            }
            if score > lower {
                lower = score;
            }
            proof {
                assert(start.remembered_by(self)) by {
                    assert(start.remembered_by(&before));
                    assert(before.remembered_by(self));
                }
                assert(new_game == child(game, k as int));
                assert forall|h: Valuation| #[trigger] agrees(h, self.state.cache@) implies is_progress(
                    h,
                    game,
                    depth as nat,
                    max_depth as nat,
                    alpha as int,
                    beta as int,
                    (k + 1) as nat,
                    best,
                ) by {
                    assert(agrees(h, before.state.cache@)) by {
                        assert(before.remembered_by(self));
                    }
                    assert(is_progress(
                        h,
                        game,
                        depth as nat,
                        max_depth as nat,
                        alpha as int,
                        beta as int,
                        k as nat,
                        earlier,
                    ));
                    assert(is_search_result(
                        h,
                        new_game,
                        (depth + 1) as nat,
                        max_depth as nat,
                        -(beta as int),
                        -(floor as int),
                        found,
                    ));
                    lemma_search_step(
                        h,
                        game,
                        depth as nat,
                        max_depth as nat,
                        alpha as int,
                        beta as int,
                        k as nat,
                        earlier,
                        floor as int,
                        found,
                        best,
                    );
                }
            }
            k += 1;
        }
        let r = match best {
            Some(b) => (b.0, Some(b.1)),
            None => (0, None),
        };
        proof {
            assert forall|h: Valuation| #[trigger] agrees(h, self.state.cache@) implies is_search_result(
                h,
                game,
                depth as nat,
                max_depth as nat,
                alpha as int,
                beta as int,
                r,
            ) by {
                assert(is_progress(
                    h,
                    game,
                    depth as nat,
                    max_depth as nat,
                    alpha as int,
                    beta as int,
                    k as nat,
                    best,
                ));
                lemma_best_of_grows(h, game, depth as nat, max_depth as nat, k as nat, n as nat);
                assert(value(h, game, depth as nat, max_depth as nat) == best_of(
                    h,
                    game,
                    depth as nat,
                    max_depth as nat,
                    n as nat,
                ));
            }
        }
        r
    }

    /// A search for checked parameters: faulty ones are refused with their
    /// first fault.
    pub fn try_create(params: NegamaxParams) -> (r: Result<Self, NegamaxParamsError>)
        ensures
            r is Ok <==> params.valid(),
            r matches Ok(s) ==> s.wf() && s.params == params && s.state.cache@ == Map::<
                u128,
                usize,
            >::empty(),
            r matches Err(e) ==> Err::<(), NegamaxParamsError>(e) == params.spec_validate(),
    {
        match params.validate() {
            Ok(()) => Ok(
                Negamax {
                    params,
                    state: NegamaxState { rng: fresh_rng(), cache: HashMap::new() },
                    game: PhantomData,
                },
            ),
            Err(e) => Err(e),
        }
    }

    /// Searches `game` from depth `depth` with the widest bounds: the score
    /// is the value of the position, as the value is defined over what is
    /// remembered of the positions when the search ends; the move, where
    /// the position is searched, is the one to the best child, of several
    /// the greatest.
    pub fn negamax(&mut self, game: G, depth: usize) -> (r: (Score, Option<G::Move>)) where
        G::Move: Copy,

        requires
            old(self).wf(),
            game.wf(),
        ensures
            final(self).wf(),
            old(self).remembered_by(final(self)),
            -(old(self).params.trials as int) <= r.0 <= old(self).params.trials as int,
            r.1 is Some <==> depth <= old(self).params.max_depth && game.spec_moves().len() > 0,
            r.1 matches Some(m) ==> game.spec_moves().contains(m) && game.spec_move_valid(m),
            r.1 is None ==> final(self).state.cache@.dom().contains(game.spec_key()) && r.0
                == final(self).state.cache@[game.spec_key()] * weight(game),
            forall|h: Valuation| #[trigger]
                agrees(h, final(self).state.cache@) ==> is_negamax_result(
                    h,
                    game,
                    depth as nat,
                    old(self).params.max_depth as nat,
                    r,
                ),
    {
        let bound: Score = self.params.trials as Score + 1;
        let r = self.search(game, depth, -bound, bound);
        proof {
            assert forall|h: Valuation| #[trigger] agrees(h, self.state.cache@) implies is_negamax_result(
                h,
                game,
                depth as nat,
                self.params.max_depth as nat,
                r,
            ) by {
                assert(is_search_result(
                    h,
                    game,
                    depth as nat,
                    self.params.max_depth as nat,
                    -(bound as int),
                    bound as int,
                    r,
                ));
                if r.1 is Some {
                    lemma_best_child(
                        h,
                        game,
                        depth as nat,
                        self.params.max_depth as nat,
                        game.spec_moves().len(),
                    );
                }
            }
        }
        r
    }
}

impl<G: RandGame> Strategy<G> for Negamax<G> where G::Move: Copy {
    type Params = NegamaxParams;

    open spec fn params_valid(params: NegamaxParams) -> bool {
        params.valid()
    }

    open spec fn ready(&self) -> bool {
        self.wf()
    }

    /// The move to the best child of `game`, of several the greatest: the
    /// child whose negated value is the value of `game`, as the value is
    /// defined over what is remembered of the positions afterwards.
    fn decide(&mut self, game: &G) -> (m: G::Move)
        ensures
            forall|h: Valuation| #[trigger]
                agrees(h, final(self).state.cache@) ==> m == game.spec_moves()[best_child(
                    h,
                    *game,
                    0,
                    old(self).params.max_depth as nat,
                    game.spec_moves().len(),
                )] && -value(h, game.spec_apply(m), 1, old(self).params.max_depth as nat) == value(
                    h,
                    *game,
                    0,
                    old(self).params.max_depth as nat,
                ),
    {
        let r = self.negamax(*game, 0);
        proof {
            let chosen = r.1.unwrap();
            assert forall|h: Valuation| #[trigger] agrees(h, self.state.cache@) implies chosen
                == game.spec_moves()[best_child(
                h,
                *game,
                0,
                old(self).params.max_depth as nat,
                game.spec_moves().len(),
            )] && -value(h, game.spec_apply(chosen), 1, old(self).params.max_depth as nat) == value(
                h,
                *game,
                0,
                old(self).params.max_depth as nat,
            ) by {
                assert(is_negamax_result(h, *game, 0, old(self).params.max_depth as nat, r));
            }
        }
        r.1.unwrap()
    }

    fn create(params: NegamaxParams) -> (s: Self)
        ensures
            s.params == params,
            s.state.cache@ == Map::<u128, usize>::empty(),
    {
        Negamax {
            params,
            state: NegamaxState { rng: fresh_rng(), cache: HashMap::new() },
            game: PhantomData,
        }
    }
}

} // verus!
