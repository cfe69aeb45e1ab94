//! The parts of a parallel search: workers that run playouts against a
//! cached copy of the statistics and collect their deltas, and the merger
//! that adds the collected deltas to the table. Both are written as state
//! and steps; moving the messages between them is left to the caller.

use super::playout::{
    child_visits, deltas_of, is_choice, is_search, lemma_search_step, backpropagation,
    decide_from, is_descent, lemma_backpropagation, simulate, DecideError,
    UctScore,
};
use crate::game::Game;
use crate::stats::Stats;
use crate::table::{all_grew, batch_wf, lemma_merge_grows, merged_or_refused, StatsTable};
use rand::XorShiftRng;
use vstd::prelude::*;

verus! {

#[derive(Clone, Copy, Debug, PartialEq, Eq, Structural)]
pub struct MCTSParams {
    /// Time limit of one decision, in milliseconds.
    pub timeout: u64,
    pub workers: u64,
    pub worker_batch_size: u64,
    pub merger_queue_bound: usize,
    pub merger_batch_size: u64,
    pub min_flush_interval: u64,
}

/// What is wrong with a set of parameters.
#[derive(Clone, Copy, Debug, PartialEq, Eq, Structural)]
pub enum ParamsError {
    NoWorkers,
    EmptyWorkerBatch,
    EmptyMergerBatch,
    NoMergerQueue,
}

impl MCTSParams {
    /// There is a worker, batches are not empty and the queue of the merger
    /// holds a message.
    pub open spec fn valid(self) -> bool {
        &&& self.workers >= 1
        &&& self.worker_batch_size >= 1
        &&& self.merger_batch_size >= 1
        &&& self.merger_queue_bound >= 1
    }

    /// What `validate` answers: the first fault, in the order workers,
    /// worker batch, merger batch, merger queue.
    pub open spec fn spec_validate(self) -> Result<(), ParamsError> {
        if self.workers == 0 {
            Err(ParamsError::NoWorkers)
        } else if self.worker_batch_size == 0 {
            Err(ParamsError::EmptyWorkerBatch)
        } else if self.merger_batch_size == 0 {
            Err(ParamsError::EmptyMergerBatch)
        } else if self.merger_queue_bound == 0 {
            Err(ParamsError::NoMergerQueue)
        } else {
            Ok(())
        }
    }

    /// Accepts valid parameters and names the first fault of others.
    pub fn validate(&self) -> (r: Result<(), ParamsError>)
        ensures
            r is Ok <==> self.valid(),
            r == self.spec_validate(),
    {
        if self.workers == 0 {
            Err(ParamsError::NoWorkers)
        } else if self.worker_batch_size == 0 {
            Err(ParamsError::EmptyWorkerBatch)
        } else if self.merger_batch_size == 0 {
            Err(ParamsError::EmptyMergerBatch)
        } else if self.merger_queue_bound == 0 {
            Err(ParamsError::NoMergerQueue)
        } else {
            Ok(())
        }
    }
}

/// What a worker is told.
pub enum WorkerMessage<G: Game> {
    /// A fresh copy of the statistics.
    UpdateStats(StatsTable),
    /// The position to study from now on.
    UpdateCur(Option<G>),
}

/// What the merger is told.
pub enum MergerMessage {
    /// A request for a copy of the statistics.
    GetStats,
    /// The deltas that a worker has collected.
    Merge(Vec<(u128, Stats)>),
}

/// What the merger answers.
#[derive(Clone, Copy, Debug, PartialEq, Eq, Structural)]
pub enum MergerReply {
    /// The deltas were added.
    Merged,
    /// The deltas were left out: the table can take no more visits.
    Refused,
    /// The request is on record and is answered at the next refresh.
    Deferred,
}

pub struct MCTSWorker<G: Game> {
    /// When the deltas were last handed on, in milliseconds.
    pub last_flush: u64,
    pub params: MCTSParams,
    /// The deltas collected since then.
    pub updates: Vec<(u128, Stats)>,
    pub stats_cache: StatsTable,
    pub cur: Option<G>,
}

impl<G: Game> MCTSWorker<G> {
    pub open spec fn wf(&self) -> bool {
        &&& self.stats_cache.wf()
        &&& batch_wf(self.updates@)
        &&& self.cur matches Some(g) ==> g.wf()
    }

    /// A worker that has collected nothing and studies no position.
    pub fn new(params: MCTSParams, now: u64) -> (w: Self)
        ensures
            w.wf(),
            w.params == params,
            w.last_flush == now,
            w.updates@.len() == 0,
            w.cur is None,
            w.stats_cache@ == Map::<u128, Stats>::empty(),
    {
        MCTSWorker {
            last_flush: now,
            params,
            updates: Vec::new(),
            stats_cache: StatsTable::new(),
            cur: None,
        }
    }

    /// One playout from `game` against the cached statistics. Its deltas
    /// are appended to the collected ones and added to the cache, unless
    /// the cache can take no more visits.
    pub fn simulate<S: UctScore>(&mut self, scorer: &S, rng: &mut XorShiftRng, game: &G) -> (winner:
        Option<G::Agent>)
        requires
            old(self).wf(),
            game.wf(),
        ensures
            final(self).wf(),
            final(self).cur == old(self).cur,
            final(self).params == old(self).params,
            final(self).last_flush == old(self).last_flush,
            exists|path: Seq<G>| #[trigger]
                is_descent(*game, path) && winner == path.last().spec_winner() && final(self).updates@
                    == old(self).updates@ + backpropagation(path, winner) && merged_or_refused(
                    old(self).stats_cache,
                    backpropagation(path, winner),
                    final(self).stats_cache,
                ),
    {
        let mut deltas: Vec<(u128, Stats)> = Vec::new();
        let winner = simulate(&self.stats_cache, scorer, rng, game, &mut deltas);
        proof {
            let path = choose|path: Seq<G>| #[trigger]
                is_descent(*game, path) && winner == path.last().spec_winner() && deltas@
                    == Seq::<(u128, Stats)>::empty() + backpropagation(path, winner);
            lemma_backpropagation(path, winner);
            assert(deltas@ =~= backpropagation(path, winner));
        }
        let _ = self.stats_cache.merge(&deltas);
        self.updates.append(&mut deltas);
        winner
    }

    /// Takes in a message: a fresh copy of the statistics replaces the
    /// cache, a position replaces the one under study.
    pub fn handle(&mut self, msg: WorkerMessage<G>)
        requires
            old(self).wf(),
            msg matches WorkerMessage::UpdateStats(t) ==> t.wf(),
            msg matches WorkerMessage::UpdateCur(Some(g)) ==> g.wf(),
        ensures
            final(self).wf(),
            final(self).updates == old(self).updates,
            final(self).params == old(self).params,
            final(self).last_flush == old(self).last_flush,
            match msg {
                WorkerMessage::UpdateStats(t) => final(self).stats_cache == t && final(self).cur
                    == old(self).cur,
                WorkerMessage::UpdateCur(c) => final(self).cur == c && final(self).stats_cache
                    == old(self).stats_cache,
            },
    {
        match msg {
            WorkerMessage::UpdateStats(stats) => {
                self.stats_cache = stats;
            },
            WorkerMessage::UpdateCur(cur) => {
                self.cur = cur;
            },
        }
    }

    /// Whether the deltas are due at time `now`: the minimum interval has
    /// passed since they were last handed on.
    pub open spec fn flush_due(&self, now: u64) -> bool {
        now >= self.last_flush && now - self.last_flush >= self.params.min_flush_interval
    }

    /// Hands the collected deltas on where they are due, and starts
    /// collecting anew; keeps collecting where they are not.
    pub fn maybe_flush_updates(&mut self, now: u64) -> (batch: Option<Vec<(u128, Stats)>>)
        requires
            old(self).wf(),
        ensures
            final(self).wf(),
            final(self).params == old(self).params,
            final(self).cur == old(self).cur,
            final(self).stats_cache == old(self).stats_cache,
            batch is Some <==> old(self).flush_due(now),
            match batch {
                Some(b) => b@ == old(self).updates@ && final(self).updates@.len() == 0
                    && final(self).last_flush == now,
                None => final(self).updates == old(self).updates && final(self).last_flush
                    == old(self).last_flush,
            },
    {
        if now >= self.last_flush && now - self.last_flush >= self.params.min_flush_interval {
            let mut batch: Vec<(u128, Stats)> = Vec::new();
            batch.append(&mut self.updates);
            self.last_flush = now;
            Some(batch)
        } else {
            None
        }
    }

    /// Hands all collected deltas on, whether they are due or not: what a
    /// worker does before it stops, so that no playout is lost.
    pub fn take_updates(&mut self) -> (batch: Vec<(u128, Stats)>)
        requires
            old(self).wf(),
        ensures
            final(self).wf(),
            batch@ == old(self).updates@,
            batch_wf(batch@),
            final(self).updates@.len() == 0,
            final(self).params == old(self).params,
            final(self).cur == old(self).cur,
            final(self).stats_cache == old(self).stats_cache,
            final(self).last_flush == old(self).last_flush,
    {
        let mut batch: Vec<(u128, Stats)> = Vec::new();
        batch.append(&mut self.updates);
        batch
    }

    /// Runs one batch of playouts from the position under study; does
    /// nothing while there is none. Returns how many playouts ran. Each
    /// playout reads the cache as the playouts before it have left it; its
    /// deltas are appended to the collected ones and merged into the cache
    /// unless the cache can take no more.
    pub fn run_batch<S: UctScore>(&mut self, scorer: &S, rng: &mut XorShiftRng) -> (ran: u64)
        requires
            old(self).wf(),
        ensures
            final(self).wf(),
            final(self).params == old(self).params,
            final(self).cur == old(self).cur,
            final(self).last_flush == old(self).last_flush,
            ran == (if old(self).cur is Some {
                old(self).params.worker_batch_size
            } else {
                0
            }),
            exists|paths: Seq<Seq<G>>, tables: Seq<StatsTable>| #[trigger]
                is_search(
                    old(self).cur,
                    paths,
                    ran as nat,
                    tables,
                    old(self).stats_cache,
                    final(self).stats_cache,
                ) && final(self).updates@ == old(self).updates@ + deltas_of(
                    paths,
                ),
            old(self).cur is None ==> final(self).updates == old(self).updates
                && final(self).stats_cache == old(self).stats_cache,
            all_grew(old(self).stats_cache@, final(self).stats_cache@),
            old(self).updates@.is_prefix_of(final(self).updates@),
    {
        let ghost mut paths: Seq<Seq<G>> = Seq::empty();
        let ghost mut tables: Seq<StatsTable> = seq![self.stats_cache];
        let game: G = match self.cur {
            None => {
                proof {
                    assert(is_search(
                        old(self).cur,
                        paths,
                        0nat,
                        tables,
                        old(self).stats_cache,
                        self.stats_cache,
                    ));
                    assert(self.updates@ =~= old(self).updates@ + deltas_of(paths));
                }
                return 0;
            },
            Some(g) => g,
        };
        let mut ran: u64 = 0;
        while ran < self.params.worker_batch_size
            invariant
                ran <= self.params.worker_batch_size,
                self.wf(),
                game.wf(),
                self.params == old(self).params,
                self.cur == old(self).cur,
                self.last_flush == old(self).last_flush,
                all_grew(old(self).stats_cache@, self.stats_cache@),
                old(self).updates@.is_prefix_of(self.updates@),
                paths.len() == ran,
                forall|k: int| 0 <= k < paths.len() ==> is_descent(game, #[trigger] paths[k]),
                crate::table::is_chain(tables, crate::strategies::playout::batches_of(paths)),
                tables[0] == old(self).stats_cache,
                tables.last() == self.stats_cache,
                self.updates@ == old(self).updates@ + deltas_of(paths),
            decreases self.params.worker_batch_size - ran,
        {
            let ghost before = self.stats_cache;
            let ghost collected = self.updates@;
            let winner = self.simulate(scorer, rng, &game);
            proof {
                let path = choose|path: Seq<G>| #[trigger]
                    is_descent(game, path) && winner == path.last().spec_winner() && self.updates@
                        == collected + backpropagation(path, winner) && merged_or_refused(
                        before,
                        backpropagation(path, winner),
                        self.stats_cache,
                    );
                lemma_search_step(game, paths, tables, path, self.stats_cache);
                assert(self.updates@ =~= old(self).updates@ + deltas_of(paths.push(path)));
                paths = paths.push(path);
                tables = tables.push(self.stats_cache);
                lemma_merge_grows(before, backpropagation(path, winner), self.stats_cache);
                assert forall|k: u128| #[trigger]
                    old(self).stats_cache@.dom().contains(k) implies crate::table::grew(
                    old(self).stats_cache@,
                    self.stats_cache@,
                    k,
                ) by {
                    assert(crate::table::grew(old(self).stats_cache@, before@, k));
                    assert(before@.dom().contains(k));
                    assert(crate::table::grew(before@, self.stats_cache@, k));
                }
                assert(collected.is_prefix_of(self.updates@));
            }
            ran += 1;
        }
        proof {
            assert(is_search(
                old(self).cur,
                paths,
                ran as nat,
                tables,
                old(self).stats_cache,
                self.stats_cache,
            ));
        }
        ran
    }
}

/// The one writer of the table. It takes in batches of deltas round by
/// round; at the end of a round it refreshes what readers see and answers
/// the requests for a copy that came in meanwhile.
pub struct MCTSMerger {
    pub params: MCTSParams,
    /// The table that deltas are added to.
    pub stats: StatsTable,
    /// The table as readers see it: as of the last refresh.
    pub published: StatsTable,
    /// The batches taken in since the last refresh.
    pub taken: u64,
    /// The requests for a copy that wait for the next refresh.
    pub waiting: usize,
}

impl MCTSMerger {
    /// Both tables are well-formed, and no record that readers see exceeds
    /// the writer's.
    pub open spec fn wf(&self) -> bool {
        &&& self.stats.wf()
        &&& self.published.wf()
        &&& all_grew(self.published@, self.stats@)
    }

    pub fn new(params: MCTSParams) -> (m: Self)
        ensures
            m.wf(),
            m.params == params,
            m.stats@ == Map::<u128, Stats>::empty(),
            m.published@ == Map::<u128, Stats>::empty(),
            m.stats.absorbed() == 0,
            m.taken == 0,
            m.waiting == 0,
    {
        MCTSMerger {
            params,
            stats: StatsTable::new(),
            published: StatsTable::new(),
            taken: 0,
            waiting: 0,
        }
    }

    /// Whether the merger looks for a request before it takes its `i`-th
    /// message of a round: before every hundredth.
    pub fn polls_priority(i: u64) -> (poll: bool)
        ensures
            poll == (i % 100 == 0),
    {
        i % 100 == 0
    }

    /// Takes in a message. Deltas are added to the writer's table, unless
    /// it can take no more visits, and count towards the round. A request
    /// for a copy is put on record. Readers see nothing of either before
    /// the next refresh.
    pub fn handle(&mut self, msg: MergerMessage) -> (reply: MergerReply)
        requires
            old(self).wf(),
            msg matches MergerMessage::Merge(b) ==> batch_wf(b@),
        ensures
            final(self).wf(),
            final(self).params == old(self).params,
            final(self).published == old(self).published,
            match msg {
                MergerMessage::GetStats => final(self).stats == old(self).stats && final(self).taken
                    == old(self).taken && final(self).waiting == (if old(self).waiting
                    < usize::MAX {
                    (old(self).waiting + 1) as usize
                } else {
                    old(self).waiting
                }) && reply == MergerReply::Deferred,
                MergerMessage::Merge(b) => merged_or_refused(
                    old(self).stats,
                    b@,
                    final(self).stats,
                ) && final(self).waiting == old(self).waiting && final(self).taken == (
                if old(self).taken < u64::MAX {
                    (old(self).taken + 1) as u64
                } else {
                    old(self).taken
                }) && reply == (if old(self).stats.absorbed() + crate::table::total_visits(b@)
                    <= usize::MAX {
                    MergerReply::Merged
                } else {
                    MergerReply::Refused
                }),
            },
    {
        match msg {
            MergerMessage::GetStats => {
                if self.waiting < usize::MAX {
                    self.waiting = self.waiting + 1;
                }
                MergerReply::Deferred
            },
            MergerMessage::Merge(updates) => {
                let ghost before = self.stats;
                let taken = self.stats.merge(&updates);
                if self.taken < u64::MAX {
                    self.taken = self.taken + 1;
                }
                proof {
                    lemma_merge_grows(before, updates@, self.stats);
                    assert forall|k: u128| #[trigger]
                        self.published@.dom().contains(k) implies crate::table::grew(
                        self.published@,
                        self.stats@,
                        k,
                    ) by {
                        assert(crate::table::grew(self.published@, before@, k));
                        assert(before@.dom().contains(k));
                        assert(crate::table::grew(before@, self.stats@, k));
                    }
                }
                if taken {
                    MergerReply::Merged
                } else {
                    MergerReply::Refused
                }
            },
        }
    }

    /// Whether the round is over: as many batches were taken in as a round
    /// holds.
    pub fn round_done(&self) -> (done: bool)
        ensures
            done == (self.taken >= self.params.merger_batch_size),
    {
        self.taken >= self.params.merger_batch_size
    }

    /// The record that readers see for `key`.
    pub fn get(&self, key: u128) -> (s: Option<Stats>)
        ensures
            s == (if self.published@.dom().contains(key) {
                Some(self.published@[key])
            } else {
                None::<Stats>
            }),
    {
        self.published.get(key)
    }

    /// Ends the round: readers now see the writer's table. Returns a copy
    /// of it for the workers and the number of requests to answer with it.
    /// Where nothing was merged since the last refresh, readers see what
    /// they saw before; in any case no record that they saw has shrunk.
    pub fn refresh(&mut self) -> (r: (StatsTable, usize))
        requires
            old(self).wf(),
        ensures
            final(self).wf(),
            final(self).params == old(self).params,
            final(self).stats == old(self).stats,
            final(self).published@ == old(self).stats@,
            final(self).taken == 0,
            final(self).waiting == 0,
            r.0@ == old(self).stats@,
            r.0.wf(),
            r.1 == old(self).waiting,
            old(self).stats@ == old(self).published@ ==> final(self).published@
                == old(self).published@,
            all_grew(old(self).published@, final(self).published@),
    {
        let requests: usize = self.waiting;
        self.published = self.stats.snapshot();
        self.taken = 0;
        self.waiting = 0;
        (self.stats.snapshot(), requests)
    }

    /// Chooses the move to play in `game` from a copy of the statistics:
    /// the move whose child position has the most visits, the smallest
    /// such move where several have as many, and the move at `random % n`
    /// where the copy knows none of the children. Fails exactly when the
    /// position lists no move.
    pub fn decide<G: Game>(stats: &StatsTable, game: &G, random: usize) -> (r: Result<
        G::Move,
        DecideError,
    >) where G::Move: Copy
        requires
            game.wf(),
        ensures
            r is Err <==> game.spec_moves().len() == 0,
            r matches Ok(m) ==> game.spec_moves().contains(m) && game.spec_move_valid(m),
            game.spec_moves().len() == 1 ==> r == Ok::<G::Move, DecideError>(game.spec_moves()[0]),
            r matches Ok(m) ==> is_choice::<G>(
                game.spec_moves(),
                child_visits(*stats, *game),
                random,
                m,
            ),
    {
        decide_from(stats, game, random)
    }
}

} // verus!
