//! Monte Carlo tree search on one table: every playout reads the table on
//! its way down and is merged into it once it has ended.

use super::playout::{
    child_visits, is_choice, is_search, lemma_search_step, playout_deltas, backpropagation,
    decide_from, is_descent, lemma_backpropagation, simulate, DecideError,
    UctScore,
};
use crate::game::Game;
use crate::rng::{fresh_rng, next_index};
use crate::stats::Stats;
use crate::table::{all_grew, lemma_merge_grows, merged_or_refused, StatsTable};
use rand::XorShiftRng;
use vstd::prelude::*;

verus! {

#[derive(Clone, Copy, Debug, PartialEq, Eq, Structural)]
pub struct MCTSParams {
    /// Time limit of one decision, in milliseconds.
    pub timeout: u64,
}

/// What the search knows: the statistics, the position it is asked about,
/// and its generator.
pub struct State<G: Game> {
    pub stats: StatsTable,
    pub cur: Option<G>,
    pub rng: XorShiftRng,
}

pub struct MCTS<G: Game, S: UctScore> {
    pub params: MCTSParams,
    pub state: State<G>,
    pub scorer: S,
}

impl<G: Game, S: UctScore> MCTS<G, S> {
    /// The table is well-formed, and so is the position under study.
    pub open spec fn wf(&self) -> bool {
        &&& self.state.stats.wf()
        &&& self.state.cur matches Some(g) ==> g.wf()
    }

    /// A search that knows nothing yet and studies no position.
    pub fn create(params: MCTSParams, scorer: S) -> (s: Self)
        ensures
            s.wf(),
            s.params == params,
            s.state.cur is None,
            s.state.stats@ == Map::<u128, Stats>::empty(),
    {
        MCTS {
            params,
            state: State { stats: StatsTable::new(), cur: None, rng: fresh_rng() },
            scorer,
        }
    }

    /// One playout from `game`, merged into the table. The playout reads
    /// the table as it was before; its deltas are then added, unless the
    /// table can take no more visits.
    pub fn simulate(&mut self, game: &G) -> (winner: Option<G::Agent>)
        requires
            old(self).wf(),
            game.wf(),
        ensures
            final(self).wf(),
            final(self).state.cur == old(self).state.cur,
            final(self).params == old(self).params,
            exists|path: Seq<G>| #[trigger]
                is_descent(*game, path) && winner == path.last().spec_winner()
                    && merged_or_refused(
                    old(self).state.stats,
                    backpropagation(path, winner),
                    final(self).state.stats,
                ),
    {
        let mut deltas: Vec<(u128, Stats)> = Vec::new();
        let winner = simulate(
            &self.state.stats,
            &self.scorer,
            &mut self.state.rng,
            game,
            &mut deltas,
        );
        proof {
            let path = choose|path: Seq<G>| #[trigger]
                is_descent(*game, path) && winner == path.last().spec_winner() && deltas@
                    == Seq::<(u128, Stats)>::empty() + backpropagation(path, winner);
            lemma_backpropagation(path, winner);
            assert(deltas@ =~= backpropagation(path, winner));
        }
        let _ = self.state.stats.merge(&deltas);
        winner
    }

    /// Studies the current position for `playouts` playouts; does nothing
    /// while there is no current position. Returns how many playouts ran.
    /// Each playout reads the table as the playouts before it have left
    /// it, and is then merged into it unless the table can take no more.
    pub fn think(&mut self, playouts: usize) -> (ran: usize)
        requires
            old(self).wf(),
        ensures
            final(self).wf(),
            final(self).state.cur == old(self).state.cur,
            final(self).params == old(self).params,
            exists|paths: Seq<Seq<G>>, tables: Seq<StatsTable>| #[trigger]
                is_search(
                    old(self).state.cur,
                    paths,
                    playouts as nat,
                    tables,
                    old(self).state.stats,
                    final(self).state.stats,
                ),
            ran == (if old(self).state.cur is Some {
                playouts
            } else {
                0
            }),
            old(self).state.cur is None ==> final(self).state.stats@ == old(self).state.stats@,
            all_grew(old(self).state.stats@, final(self).state.stats@),
    {
        let ghost mut paths: Seq<Seq<G>> = Seq::empty();
        let ghost mut tables: Seq<StatsTable> = seq![self.state.stats];
        let game: G = match self.state.cur {
            None => {
                proof {
                    assert(is_search(
                        old(self).state.cur,
                        paths,
                        playouts as nat,
                        tables,
                        old(self).state.stats,
                        self.state.stats,
                    ));
                }
                return 0;
            },
            Some(g) => g,
        };
        let mut ran: usize = 0;
        while ran < playouts
            invariant
                ran <= playouts,
                self.wf(),
                game.wf(),
                self.state.cur == old(self).state.cur,
                self.params == old(self).params,
                all_grew(old(self).state.stats@, self.state.stats@),
                paths.len() == ran,
                forall|k: int| 0 <= k < paths.len() ==> is_descent(game, #[trigger] paths[k]),
                crate::table::is_chain(tables, crate::strategies::playout::batches_of(paths)),
                tables[0] == old(self).state.stats,
                tables.last() == self.state.stats,
            decreases playouts - ran,
        {
            let ghost before = self.state.stats;
            let winner = self.simulate(&game);
            proof {
                let path = choose|path: Seq<G>| #[trigger]
                    is_descent(game, path) && winner == path.last().spec_winner()
                        && merged_or_refused(
                        before,
                        backpropagation(path, winner),
                        self.state.stats,
                    );
                lemma_search_step(game, paths, tables, path, self.state.stats);
                paths = paths.push(path);
                tables = tables.push(self.state.stats);
                lemma_merge_grows(before, backpropagation(path, winner), self.state.stats);
                assert forall|k: u128| #[trigger]
                    old(self).state.stats@.dom().contains(k) implies crate::table::grew(
                    old(self).state.stats@,
                    self.state.stats@,
                    k,
                ) by {
                    assert(crate::table::grew(old(self).state.stats@, before@, k));
                    assert(before@.dom().contains(k));
                    assert(crate::table::grew(before@, self.state.stats@, k));
                }
            }
            ran += 1;
        }
        proof {
            assert(is_search(
                old(self).state.cur,
                paths,
                playouts as nat,
                tables,
                old(self).state.stats,
                self.state.stats,
            ));
        }
        ran
    }

    /// Makes `game` the position under study and chooses a move for it
    /// from what the table holds now: the move whose child position has
    /// the most visits, the smallest such move where several have as many,
    /// and a move picked by the generator where the table knows none of the
    /// children.
    pub fn decide_now(&mut self, game: &G) -> (r: Result<G::Move, DecideError>) where G::Move: Copy
        requires
            old(self).wf(),
            game.wf(),
        ensures
            final(self).wf(),
            final(self).state.cur == Some(*game),
            final(self).state.stats == old(self).state.stats,
            r is Err <==> game.spec_moves().len() == 0,
            r matches Ok(m) ==> game.spec_moves().contains(m) && game.spec_move_valid(m),
            game.spec_moves().len() == 1 ==> r == Ok::<G::Move, DecideError>(game.spec_moves()[0]),
            r matches Ok(m) ==> exists|random: usize| #[trigger]
                is_choice::<G>(
                    game.spec_moves(),
                    child_visits(old(self).state.stats, *game),
                    random,
                    m,
                ),
    {
        self.state.cur = Some(*game);
        let random: usize = next_index(&mut self.state.rng);
        decide_from(&self.state.stats, game, random)
    }
}

} // verus!
