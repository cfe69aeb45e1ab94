//! Monte Carlo tree search on a table with separate sides for reading and
//! writing: playouts read what was last published, their deltas are
//! collected, added on the writing side and published together.

use super::playout::{
    child_visits, deltas_of, is_choice, is_round, playout_deltas, backpropagation, decide_from, is_descent, lemma_backpropagation, simulate, DecideError,
    Snapshot, UctScore,
};
use super::Strategy;
use crate::game::Game;
use crate::rng::{fresh_rng, next_index};
use crate::stats::Stats;
use crate::table::{
    grew, batch_wf, counts_of, grown_by, is_merge, keys_joined, lemma_visits_prefix, mentions, tally,
    total_visits,
};
use evmap::handles::ReadHandle;
use evmap::handles::WriteHandle;
use std::collections::hash_map::RandomState;
use std::collections::HashMap;
use std::hash::BuildHasher;
use std::hash::Hash;
use vstd::multiset::Multiset;
use vstd::prelude::*;

verus! {

broadcast use vstd::std_specs::hash::group_hash_axioms;

pub use super::mcts_parallel::MCTSParams;
pub use super::mcts_parallel::ParamsError;

/// Wins, losses and visits, as the map stores them.
pub type Triple = (usize, usize, usize);

pub type Writer = WriteHandle<u128, (usize, usize, usize), (), RandomState>;

pub type Reader = ReadHandle<u128, (usize, usize, usize), (), RandomState>;

#[verifier::external_type_specification]
#[verifier::external_body]
#[verifier::reject_recursive_types(K)]
#[verifier::reject_recursive_types(V)]
#[verifier::reject_recursive_types(M)]
#[verifier::reject_recursive_types(S)]
pub struct ExWriteHandle<K, V, M, S>(WriteHandle<K, V, M, S>) where
    K: Eq + Hash + Clone,
    S: BuildHasher + Clone,
    V: Eq + Hash,
    M: 'static + Clone,
;

#[verifier::external_type_specification]
#[verifier::external_body]
#[verifier::reject_recursive_types(K)]
#[verifier::reject_recursive_types(V)]
#[verifier::reject_recursive_types(M)]
#[verifier::reject_recursive_types(S)]
pub struct ExReadHandle<K, V, M, S>(ReadHandle<K, V, M, S>) where K: Eq + Hash, S: BuildHasher;

/// What readers of the map see: for every key its bag of values, as of the
/// last `publish`.
pub uninterp spec fn published(w: WriteHandle<u128, (usize, usize, usize), (), RandomState>) -> Map<u128, Multiset<(usize, usize, usize)>>;

/// What readers will see once the writer has called `publish` again:
/// what is published, with the operations appended since applied to it.
pub uninterp spec fn staged(w: WriteHandle<u128, (usize, usize, usize), (), RandomState>) -> Map<u128, Multiset<(usize, usize, usize)>>;

/// The map has no key.
pub open spec fn no_keys(m: Map<u128, Multiset<Triple>>) -> bool {
    m == Map::<u128, Multiset<Triple>>::empty()
}

/// `found` is what a reader may get for `k` from the bags `m`: nothing
/// where the key is missing or its bag is empty, and one value of the bag
/// otherwise.
pub open spec fn is_pick(m: Map<u128, Multiset<Triple>>, k: u128, found: Option<Triple>) -> bool {
    match found {
        Some(x) => m.dom().contains(k) && m[k].count(x) > 0,
        None => !m.dom().contains(k) || m[k].len() == 0,
    }
}

/// Calls `evmap::new`. The map is empty, and nothing but its first
/// `publish` is outstanding.
#[verifier::external_body]
fn ev_new() -> (h: (Writer, Reader))
    ensures
        no_keys(published(h.0)),
        no_keys(staged(h.0)),
{
    evmap::new()
}

/// Calls `WriteHandle::update`, which appends the operation that replaces
/// the bag of `k` by the one value `v`. Readers see nothing of it before
/// the next `publish`.
#[verifier::external_body]
fn ev_update(w: &mut Writer, k: u128, v: Triple)
    ensures
        staged(*final(w)) == staged(*old(w)).insert(k, Multiset::singleton(v)),
        published(*final(w)) == published(*old(w)),
{
    w.update(k, v);
}

/// Calls `WriteHandle::publish`, which makes the operations appended so far
/// visible to readers.
#[verifier::external_body]
fn ev_publish(w: &mut Writer)
    ensures
        published(*final(w)) == staged(*old(w)),
        staged(*final(w)) == staged(*old(w)),
{
    w.publish();
}

/// Calls `ReadHandle::get_one` through the writer's own read handle: one
/// value of the published bag of `k`, where the key is published and its
/// bag is not empty.
#[verifier::external_body]
fn ev_get_one(w: &Writer, k: u128) -> (found: Option<Triple>)
    ensures
        is_pick(published(*w), k, found),
{
    match w.get_one(&k) {
        Some(g) => Some(*g),
        None => None,
    }
}

/// Calls `ReadHandle::get_one` on a reader's handle. What it returns
/// depends on what the writer has published by then.
#[verifier::external_body]
fn ev_read(r: &Reader, k: u128) -> (v: Option<Triple>) {
    match r.get_one(&k) {
        Some(g) => Some(*g),
        None => None,
    }
}

/// Calls `ReadHandle::clone` on the writer's own read handle.
#[verifier::external_body]
fn ev_reader(w: &Writer) -> (r: Reader) {
    ReadHandle::clone(w)
}

/// The record that a stored triple stands for.
pub open spec fn record(t: (usize, usize, usize)) -> Stats {
    Stats { wins: t.0, losses: t.1, visits: t.2 }
}

/// The record of a bag that holds one triple.
pub open spec fn bag_record(bag: Multiset<(usize, usize, usize)>) -> Stats {
    record(bag.choose())
}

/// The records of a map whose bags hold one triple each.
pub open spec fn records(m: Map<u128, Multiset<(usize, usize, usize)>>) -> Map<u128, Stats> {
    Map::new(|k: u128| m.dom().contains(k), |k: u128| bag_record(m[k]))
}

/// Every bag of the map holds exactly one triple.
pub open spec fn one_each(m: Map<u128, Multiset<(usize, usize, usize)>>) -> bool {
    forall|k: u128| #[trigger] m.dom().contains(k) ==> m[k] == Multiset::singleton(m[k].choose())
}

proof fn lemma_singleton_record(t: (usize, usize, usize))
    ensures
        bag_record(Multiset::singleton(t)) == record(t),
        Multiset::singleton(t).choose() == t,
        Multiset::singleton(t).len() == 1,
{
    broadcast use vstd::multiset::group_multiset_axioms;

    let bag = Multiset::singleton(t);
    assert(bag.len() == 1);
    assert(bag.count(bag.choose()) > 0);
    if bag.choose() != t {
        assert(bag.count(bag.choose()) == 0);
    }
}

/// The reading side of the table.
pub struct StatsReader {
    stats: Reader,
}

impl Snapshot for StatsReader {
    /// What a reader sees changes whenever the writer publishes.
    open spec fn exact(&self) -> bool {
        false
    }

    open spec fn view_stats(&self, key: u128) -> Option<Stats> {
        None
    }

    /// The record published for `key`, as far as the writer has published
    /// one by now.
    fn stats(&self, key: u128) -> (s: Option<Stats>) {
        match ev_read(&self.stats, key) {
            Some(t) => Some(Stats { wins: t.0, losses: t.1, visits: t.2 }),
            None => None,
        }
    }
}

/// The writing side of the table. Updates add to the record of a key and
/// stay invisible to readers until `refresh`.
pub struct StatsWriter {
    stats: Writer,
    /// The records written since the last refresh.
    pending: HashMap<u128, Stats>,
    absorbed: usize,
}

impl StatsWriter {
    /// What readers see.
    pub closed spec fn snapshot(&self) -> Map<u128, Stats> {
        records(published(self.stats))
    }

    /// What readers will see after the next refresh.
    pub closed spec fn working(&self) -> Map<u128, Stats> {
        records(staged(self.stats))
    }

    /// The visits taken in so far.
    pub closed spec fn absorbed(&self) -> nat {
        self.absorbed as nat
    }

    /// The writer's own bookkeeping agrees with the map.
    pub closed spec fn inv(&self) -> bool {
        &&& one_each(published(self.stats))
        &&& one_each(staged(self.stats))
        &&& forall|k: u128| #[trigger]
            self.pending@.dom().contains(k) ==> staged(self.stats).dom().contains(k) && bag_record(
                staged(self.stats)[k],
            ) == self.pending@[k]
        &&& forall|k: u128|
            !self.pending@.dom().contains(k) ==> (#[trigger] staged(self.stats).dom().contains(k)
                <==> published(self.stats).dom().contains(k))
        &&& forall|k: u128|
            !self.pending@.dom().contains(k) && #[trigger] published(self.stats).dom().contains(k)
                ==> staged(self.stats)[k] == published(self.stats)[k]
    }

    /// Every record is well-formed and within the visits taken in, whose
    /// count fits a machine word, and no record that readers see exceeds
    /// what is being prepared for them.
    pub open spec fn wf(&self) -> bool {
        &&& self.inv()
        &&& self.absorbed() <= usize::MAX
        &&& forall|k: u128| #[trigger]
            self.working().dom().contains(k) ==> self.working()[k].wf() && self.working()[k].visits
                <= self.absorbed()
        &&& forall|k: u128| #[trigger]
            self.snapshot().dom().contains(k) ==> self.working().dom().contains(k)
                && self.snapshot()[k].le(self.working()[k])
    }

    /// An empty table: its writing side and a reading side.
    pub fn new() -> (t: (StatsWriter, StatsReader))
        ensures
            t.0.wf(),
            t.0.snapshot() == Map::<u128, Stats>::empty(),
            t.0.working() == Map::<u128, Stats>::empty(),
            t.0.absorbed() == 0,
    {
        let (w, r) = ev_new();
        let writer = StatsWriter { stats: w, pending: HashMap::new(), absorbed: 0 };
        proof {
            assert(writer.snapshot() =~= Map::<u128, Stats>::empty());
            assert(writer.working() =~= Map::<u128, Stats>::empty());
        }
        (writer, StatsReader { stats: r })
    }

    /// Another reading side of the same table.
    pub fn reader(&self) -> (r: StatsReader) {
        StatsReader { stats: ev_reader(&self.stats) }
    }

    /// The record that readers see for `key`.
    pub fn get(&self, key: u128) -> (s: Option<Stats>)
        requires
            self.wf(),
        ensures
            s == self.view_stats(key),
    {
        self.stats(key)
    }

    /// Adds `delta` to the record being prepared for `key`, starting a
    /// record where there is none. Readers see nothing of it before the
    /// next refresh. The delta is refused, and nothing changes, when the
    /// visits taken in would no longer fit a machine word.
    pub fn update(&mut self, key: u128, delta: Stats) -> (taken: bool)
        requires
            old(self).wf(),
            delta.wf(),
        ensures
            final(self).wf(),
            final(self).snapshot() == old(self).snapshot(),
            taken == (old(self).absorbed() + delta.visits <= usize::MAX),
            !taken ==> final(self).working() == old(self).working() && final(self).absorbed()
                == old(self).absorbed(),
            taken ==> final(self).absorbed() == old(self).absorbed() + delta.visits,
            taken ==> final(self).working().dom() == old(self).working().dom().insert(key),
            taken ==> forall|other: u128|
                other != key && old(self).working().dom().contains(other)
                    ==> #[trigger] final(self).working()[other] == old(self).working()[other],
            taken ==> final(self).working()[key].counts() == (
                counts_of(old(self).working(), key).0 + delta.wins,
                counts_of(old(self).working(), key).1 + delta.losses,
                counts_of(old(self).working(), key).2 + delta.visits,
            ),
    {
        if delta.visits > usize::MAX - self.absorbed {
            return false;
        }
        let current: Stats = match self.pending.get(&key) {
            Some(s) => *s,
            None => match self.get(key) {
                Some(s) => s,
                None => Stats::zero(),
            },
        };
        proof {
            if self.working().dom().contains(key) {
                assert(staged(self.stats).dom().contains(key));
                assert(current == self.working()[key]);
            } else {
                assert(!self.pending@.dom().contains(key));
                assert(!staged(self.stats).dom().contains(key));
                assert(!published(self.stats).dom().contains(key));
            }
            assert(current.wf() && current.visits <= self.absorbed());
        }
        let sum: Stats = current.add(delta);
        ev_update(&mut self.stats, key, (sum.wins, sum.losses, sum.visits));
        self.pending.insert(key, sum);
        self.absorbed = self.absorbed + delta.visits;
        proof {
            lemma_singleton_record((sum.wins, sum.losses, sum.visits));
            assert(record((sum.wins, sum.losses, sum.visits)) == sum);
            assert(final(self).working() =~= old(self).working().insert(key, sum));
            assert(one_each(staged(self.stats))) by {
                assert forall|k: u128| #[trigger]
                    staged(self.stats).dom().contains(k) implies staged(self.stats)[k]
                    == Multiset::singleton(staged(self.stats)[k].choose()) by {
                    if k != key {
                        assert(staged(old(self).stats).dom().contains(k));
                    }
                }
            }
            assert forall|k: u128| #[trigger] self.pending@.dom().contains(k) implies staged(
                self.stats,
            ).dom().contains(k) && bag_record(staged(self.stats)[k]) == self.pending@[k] by {
                if k != key {
                    assert(old(self).pending@.dom().contains(k));
                }
            }
            assert(self.inv());
            assert forall|k: u128| #[trigger] self.working().dom().contains(k) implies self.working()[k].wf()
                && self.working()[k].visits <= self.absorbed() by {
                if k != key {
                    assert(old(self).working().dom().contains(k));
                }
            }
            assert forall|k: u128| #[trigger] self.snapshot().dom().contains(k) implies self.working().dom().contains(
                k,
            ) && self.snapshot()[k].le(self.working()[k]) by {
                assert(old(self).snapshot().dom().contains(k));
                assert(old(self).working().dom().contains(k));
            }
        }
        true
    }

    /// Publishes what has been prepared: readers now see every update made
    /// so far. Where nothing was updated since the last refresh, readers
    /// see what they saw before. No record that readers saw has shrunk.
    pub fn refresh(&mut self)
        requires
            old(self).wf(),
        ensures
            final(self).wf(),
            final(self).snapshot() == old(self).working(),
            final(self).working() == old(self).working(),
            final(self).absorbed() == old(self).absorbed(),
            old(self).working() == old(self).snapshot() ==> final(self).snapshot()
                == old(self).snapshot(),
            forall|k: u128| #[trigger]
                old(self).snapshot().dom().contains(k) ==> final(self).snapshot().dom().contains(k)
                    && old(self).snapshot()[k].le(final(self).snapshot()[k]),
    {
        ev_publish(&mut self.stats);
        self.pending.clear();
        proof {
            assert(self.snapshot() =~= old(self).working());
            assert(self.working() =~= old(self).working());
        }
    }

    /// Brings the table into its most compact form and publishes it. The
    /// writer keeps one record per key at all times, the sum of all deltas
    /// of the key, so what is published is what was prepared, sum by sum.
    pub fn compact(&mut self)
        requires
            old(self).wf(),
        ensures
            final(self).wf(),
            final(self).snapshot() == old(self).working(),
            final(self).working() == old(self).working(),
            final(self).absorbed() == old(self).absorbed(),
    {
        self.refresh();
    }

    /// Adds every delta of `batch`, in order, and publishes the result. The
    /// whole batch is refused when its visits would take the count of the
    /// table beyond a machine word; what was prepared before is published
    /// even then.
    pub fn extend(&mut self, batch: Vec<(u128, Stats)>) -> (taken: bool)
        requires
            old(self).wf(),
            batch_wf(batch@),
        ensures
            final(self).wf(),
            final(self).snapshot() == final(self).working(),
            taken == (old(self).absorbed() + total_visits(batch@) <= usize::MAX),
            taken ==> is_merge(old(self).working(), batch@, final(self).working())
                && final(self).absorbed() == old(self).absorbed() + total_visits(batch@),
            !taken ==> final(self).working() == old(self).working() && final(self).absorbed()
                == old(self).absorbed(),
    {
        let mut total: usize = 0;
        let mut k: usize = 0;
        let mut fits: bool = true;
        while k < batch.len() && fits
            invariant
                k <= batch@.len(),
                fits ==> total == total_visits(batch@.take(k as int)) && old(self).absorbed() + total
                    <= usize::MAX,
                !fits ==> old(self).absorbed() + total_visits(batch@) > usize::MAX,
                *self == *old(self),
            decreases batch@.len() - k + (if fits {
                1int
            } else {
                0int
            }),
        {
            proof {
                assert(batch@.take(k + 1).drop_last() =~= batch@.take(k as int));
                lemma_visits_prefix(batch@, k + 1);
            }
            let visits: usize = batch[k].1.visits;
            if visits > usize::MAX - self.absorbed || total > usize::MAX - self.absorbed - visits {
                fits = false;
            } else {
                total = total + visits;
                k += 1;
            }
        }
        if !fits {
            self.refresh();
            return false;
        }
        proof {
            assert(batch@.take(k as int) =~= batch@);
        }
        let ghost start = self.working();
        let mut j: usize = 0;
        while j < batch.len()
            invariant
                j <= batch@.len(),
                self.wf(),
                batch_wf(batch@),
                start == old(self).working(),
                old(self).absorbed() + total_visits(batch@) <= usize::MAX,
                self.absorbed() == old(self).absorbed() + total_visits(batch@.take(j as int)),
                is_merge(start, batch@.take(j as int), self.working()),
            decreases batch@.len() - j,
        {
            let ghost before = self.working();
            let ghost done = batch@.take(j as int);
            let ghost next = batch@.take(j + 1);
            proof {
                assert(next.drop_last() =~= done);
                assert(next.last() == batch@[j as int]);
                lemma_visits_prefix(batch@, j + 1);
            }
            let (key, delta) = batch[j];
            let taken = self.update(key, delta);
            proof {
                assert(taken);
                assert forall|other: u128| #[trigger]
                    keys_joined(start, next, self.working(), other) by {
                    assert(keys_joined(start, done, before, other));
                    if mentions(done, other) {
                        let i = choose|i: int| 0 <= i < done.len() && (#[trigger] done[i]).0 == other;
                        assert(next[i].0 == other);
                    }
                    if other == key {
                        assert(next[j as int].0 == other);
                    }
                    if mentions(next, other) {
                        let i = choose|i: int| 0 <= i < next.len() && (#[trigger] next[i]).0 == other;
                        if i < j {
                            assert(done[i].0 == other);
                        }
                    }
                }
                assert forall|other: u128| #[trigger]
                    grown_by(start, next, self.working(), other) by {
                    let t = tally(done, other);
                    assert(grown_by(start, done, before, other));
                    assert(keys_joined(start, done, before, other));
                    if other == key {
                        assert(tally(next, other) == (
                            t.0 + delta.wins,
                            t.1 + delta.losses,
                            t.2 + delta.visits,
                        ));
                    } else {
                        assert(tally(next, other) == t);
                        if before.dom().contains(other) {
                            assert(self.working()[other] == before[other]);
                        } else {
                            assert(!self.working().dom().contains(other));
                        }
                    }
                }
                assert(is_merge(start, next, self.working()));
            }
            j += 1;
        }
        proof {
            assert(batch@.take(j as int) =~= batch@);
        }
        self.refresh();
        true
    }
}

/// What `extend` does to a writer with `batch`: the batch is taken in
/// exactly when its visits fit the count of the table, the table being
/// prepared then is the old one with the batch merged and else the old
/// one, and readers see it.
pub open spec fn is_extension(
    before: StatsWriter,
    batch: Seq<(u128, Stats)>,
    after: StatsWriter,
    taken: bool,
) -> bool {
    &&& taken == (before.absorbed() + total_visits(batch) <= usize::MAX)
    &&& after.snapshot() == after.working()
    &&& taken ==> is_merge(before.working(), batch, after.working()) && after.absorbed()
        == before.absorbed() + total_visits(batch)
    &&& !taken ==> after.working() == before.working() && after.absorbed() == before.absorbed()
}

impl Snapshot for StatsWriter {
    /// The writer reads what it has published itself, which stays as it
    /// is until the writer publishes again.
    open spec fn exact(&self) -> bool {
        self.wf()
    }

    open spec fn view_stats(&self, key: u128) -> Option<Stats> {
        if self.snapshot().dom().contains(key) {
            Some(self.snapshot()[key])
        } else {
            None
        }
    }

    fn stats(&self, key: u128) -> (s: Option<Stats>) {
        match ev_get_one(&self.stats, key) {
            Some(t) => {
                proof {
                    if self.wf() {
                        let bag = published(self.stats)[key];
                        assert(published(self.stats).dom().contains(key));
                        lemma_singleton_record(bag.choose());
                        if bag.choose() != t {
                            broadcast use vstd::multiset::group_multiset_axioms;

                            assert(Multiset::singleton(bag.choose()).count(t) == 0);
                        }
                    }
                }
                Some(Stats { wins: t.0, losses: t.1, visits: t.2 })
            },
            None => {
                proof {
                    if self.wf() && published(self.stats).dom().contains(key) {
                        lemma_singleton_record(published(self.stats)[key].choose());
                    }
                }
                None
            },
        }
    }
}

/// Writer `r + 1` is writer `r` extended by the deltas of round `r`.
pub open spec fn is_writer_link<G: Game>(
    writers: Seq<StatsWriter>,
    rounds: Seq<Seq<Seq<G>>>,
    r: int,
) -> bool {
    is_extension(
        writers[r],
        deltas_of(rounds[r]),
        writers[r + 1],
        writers[r].absorbed() + total_visits(deltas_of(rounds[r])) <= usize::MAX,
    )
}

/// `after` is the writer `before` after the rounds `rounds` of `sims`
/// playouts each from `game`: `writers` are the states of the writer from
/// `before` to `after`, each got from the one before by extending it with
/// the deltas of one round.
pub open spec fn is_run<G: Game>(
    game: G,
    rounds: Seq<Seq<Seq<G>>>,
    sims: nat,
    writers: Seq<StatsWriter>,
    before: StatsWriter,
    after: StatsWriter,
) -> bool {
    &&& writers.len() == rounds.len() + 1
    &&& writers[0] == before
    &&& writers.last() == after
    &&& forall|r: int| 0 <= r < rounds.len() ==> is_round(Some(game), #[trigger] rounds[r], sims)
    &&& forall|r: int| 0 <= r < rounds.len() ==> #[trigger] is_writer_link(writers, rounds, r)
}

/// How many playouts one round of a decision runs.
pub const SIMS_PER_ROUND: usize = 120000;

/// How many playouts a decision runs in all.
pub const SIMS_NEEDED: usize = 240000;

/// What every playout works from: the reading side of the table and the
/// position under study.
pub struct MCTSState<G: Game> {
    pub stats: StatsReader,
    pub current: Option<G>,
}

impl<G: Game> MCTSState<G> {
    /// What is published for the position `game`, as far as the writer has
    /// published something by now.
    pub fn stats(&self, game: &G) -> (s: Option<Stats>)
        requires
            game.wf(),
    {
        self.stats.stats(game.key())
    }

    /// One playout from `game` against what is published; see
    /// `playout::simulate`.
    pub fn simulate<S: UctScore>(
        &self,
        scorer: &S,
        rng: &mut rand::XorShiftRng,
        game: &G,
        stats_output: &mut Vec<(u128, Stats)>,
    ) -> (winner: Option<G::Agent>)
        requires
            game.wf(),
        ensures
            exists|path: Seq<G>| #[trigger]
                is_descent(*game, path) && winner == path.last().spec_winner()
                    && final(stats_output)@ == old(stats_output)@ + backpropagation(path, winner),
    {
        simulate(&self.stats, scorer, rng, game, stats_output)
    }
}

pub struct MCTS<G: Game, S: UctScore> {
    pub params: MCTSParams,
    pub state: MCTSState<G>,
    pub stats_writer: StatsWriter,
    pub scorer: S,
}

impl<G: Game, S: UctScore> MCTS<G, S> {
    /// The parameters are valid, the table is well-formed with nothing
    /// unpublished, and so is the position under study.
    pub open spec fn wf(&self) -> bool {
        &&& self.params.valid()
        &&& self.stats_writer.wf()
        &&& self.stats_writer.snapshot() == self.stats_writer.working()
        &&& self.state.current matches Some(g) ==> g.wf()
    }

    /// A search with an empty table that studies no position.
    pub fn new(params: MCTSParams, scorer: S) -> (s: Self)
        requires
            params.valid(),
        ensures
            s.wf(),
            s.params == params,
            s.state.current is None,
            s.stats_writer.snapshot() == Map::<u128, Stats>::empty(),
    {
        let (writer, reader) = StatsWriter::new();
        MCTS {
            params,
            state: MCTSState { stats: reader, current: None },
            stats_writer: writer,
            scorer,
        }
    }

    /// As `new`, for parameters that have not been checked: faulty ones
    /// are refused with their first fault.
    pub fn create(params: MCTSParams, scorer: S) -> (r: Result<Self, ParamsError>)
        ensures
            r is Ok <==> params.valid(),
            r matches Ok(s) ==> s.wf() && s.params == params && s.state.current is None
                && s.stats_writer.snapshot() == Map::<u128, Stats>::empty(),
            r matches Err(e) ==> Err::<(), ParamsError>(e) == params.spec_validate(),
    {
        match params.validate() {
            Ok(()) => Ok(Self::new(params, scorer)),
            Err(e) => Err(e),
        }
    }

    /// Runs `i` playouts from the position under study, each with a
    /// generator of its own, adds all their deltas to the table and
    /// publishes them. Says whether the table took the deltas in. Which
    /// playouts are run is up to the generators and to what readers see
    /// meanwhile; whichever they are, the table is extended by exactly
    /// their deltas. No record of the table shrinks by it.
    pub fn schedule(&mut self, i: usize) -> (taken: bool)
        requires
            old(self).wf(),
        ensures
            final(self).wf(),
            final(self).params == old(self).params,
            final(self).state.current == old(self).state.current,
            exists|paths: Seq<Seq<G>>| #[trigger]
                is_round(old(self).state.current, paths, i as nat) && is_extension(
                    old(self).stats_writer,
                    deltas_of(paths),
                    final(self).stats_writer,
                    taken,
                ),
            !taken ==> final(self).stats_writer.snapshot() == old(self).stats_writer.snapshot(),
            forall|k: u128| #[trigger]
                old(self).stats_writer.snapshot().dom().contains(k) ==> grew(
                    old(self).stats_writer.snapshot(),
                    final(self).stats_writer.snapshot(),
                    k,
                ),
    {
        let mut deltas: Vec<(u128, Stats)> = Vec::new();
        let ghost mut paths: Seq<Seq<G>> = Seq::empty();
        match self.state.current {
            None => {},
            Some(game) => {
                let mut ran: usize = 0;
                while ran < i
                    invariant
                        ran <= i,
                        game.wf(),
                        batch_wf(deltas@),
                        *self == *old(self),
                        paths.len() == ran,
                        forall|k: int| 0 <= k < paths.len() ==> is_descent(game, #[trigger] paths[k]),
                        deltas@ == deltas_of(paths),
                    decreases i - ran,
                {
                    let mut rng = fresh_rng();
                    let ghost before = deltas@;
                    let winner = self.state.simulate(&self.scorer, &mut rng, &game, &mut deltas);
                    proof {
                        let path = choose|path: Seq<G>| #[trigger]
                            is_descent(game, path) && winner == path.last().spec_winner() && deltas@
                                == before + backpropagation(path, winner);
                        lemma_backpropagation(path, winner);
                        let longer = paths.push(path);
                        assert(longer.drop_last() =~= paths);
                        assert forall|k: int| 0 <= k < longer.len() implies is_descent(
                            game,
                            #[trigger] longer[k],
                        ) by {
                            if k < paths.len() {
                                assert(longer[k] == paths[k]);
                            }
                        }
                        paths = longer;
                    }
                    ran += 1;
                }
            },
        }
        let ghost batch = deltas@;
        let taken = self.stats_writer.extend(deltas);
        proof {
            assert(is_round(old(self).state.current, paths, i as nat));
            assert(is_extension(old(self).stats_writer, deltas_of(paths), self.stats_writer, taken));
            if taken {
                assert forall|k: u128| #[trigger]
                    old(self).stats_writer.snapshot().dom().contains(k) implies grew(
                    old(self).stats_writer.snapshot(),
                    self.stats_writer.snapshot(),
                    k,
                ) by {
                    crate::table::lemma_merge_monotone(
                        old(self).stats_writer.working(),
                        batch,
                        self.stats_writer.working(),
                        k,
                    );
                }
            }
        }
        taken
    }

    /// As `schedule`; kept as the step that a caller may hand to a pool of
    /// threads.
    pub fn schedule_work(&mut self, i: usize) -> (taken: bool)
        requires
            old(self).wf(),
        ensures
            final(self).wf(),
            final(self).params == old(self).params,
            final(self).state.current == old(self).state.current,
            exists|paths: Seq<Seq<G>>| #[trigger]
                is_round(old(self).state.current, paths, i as nat) && is_extension(
                    old(self).stats_writer,
                    deltas_of(paths),
                    final(self).stats_writer,
                    taken,
                ),
            forall|k: u128| #[trigger]
                old(self).stats_writer.snapshot().dom().contains(k) ==> grew(
                    old(self).stats_writer.snapshot(),
                    final(self).stats_writer.snapshot(),
                    k,
                ),
    {
        self.schedule(i)
    }

    /// Makes `game` the position under study, runs `rounds` rounds of
    /// `sims` playouts each and chooses the move to play from what the
    /// table then holds: the move whose child position has the most
    /// visits, the smallest such move where several have as many, and a
    /// move picked by a generator where the table knows none of the
    /// children.
    pub fn decide_with(&mut self, game: &G, rounds: usize, sims: usize) -> (r: Result<
        G::Move,
        DecideError,
    >) where G::Move: Copy
        requires
            old(self).wf(),
            game.wf(),
        ensures
            final(self).wf(),
            final(self).params == old(self).params,
            final(self).state.current == Some(*game),
            r is Err <==> game.spec_moves().len() == 0,
            r matches Ok(m) ==> game.spec_moves().contains(m) && game.spec_move_valid(m),
            game.spec_moves().len() == 1 ==> r == Ok::<G::Move, DecideError>(game.spec_moves()[0]),
            exists|played: Seq<Seq<Seq<G>>>, writers: Seq<StatsWriter>| #[trigger]
                is_run(
                    *game,
                    played,
                    sims as nat,
                    writers,
                    old(self).stats_writer,
                    final(self).stats_writer,
                ) && played.len() == rounds,
            r matches Ok(m) ==> exists|random: usize| #[trigger]
                is_choice::<G>(
                    game.spec_moves(),
                    child_visits(final(self).stats_writer, *game),
                    random,
                    m,
                ),
    {
        self.state.current = Some(*game);
        let ghost mut played: Seq<Seq<Seq<G>>> = Seq::empty();
        let ghost mut writers: Seq<StatsWriter> = seq![self.stats_writer];
        let mut round: usize = 0;
        while round < rounds
            invariant
                round <= rounds,
                self.wf(),
                game.wf(),
                self.params == old(self).params,
                self.state.current == Some(*game),
                played.len() == round,
                is_run(
                    *game,
                    played,
                    sims as nat,
                    writers,
                    old(self).stats_writer,
                    self.stats_writer,
                ),
            decreases rounds - round,
        {
            let ghost before = self.stats_writer;
            let taken = self.schedule_work(sims);
            proof {
                let paths = choose|paths: Seq<Seq<G>>| #[trigger]
                    is_round(Some(*game), paths, sims as nat) && is_extension(
                        before,
                        deltas_of(paths),
                        self.stats_writer,
                        taken,
                    );
                let longer = played.push(paths);
                let states = writers.push(self.stats_writer);
                assert forall|r: int| 0 <= r < longer.len() implies is_round(
                    Some(*game),
                    #[trigger] longer[r],
                    sims as nat,
                ) by {
                    if r < played.len() {
                        assert(longer[r] == played[r]);
                    }
                }
                assert forall|r: int| 0 <= r < longer.len() implies #[trigger] is_writer_link(
                    states,
                    longer,
                    r,
                ) by {
                    if r < played.len() {
                        assert(is_writer_link(writers, played, r));
                        assert(longer[r] == played[r]);
                        assert(states[r] == writers[r] && states[r + 1] == writers[r + 1]);
                    } else {
                        assert(states[r] == before);
                        assert(states[r + 1] == self.stats_writer);
                        assert(longer[r] == paths);
                    }
                }
                played = longer;
                writers = states;
            }
            round += 1;
        }
        let mut rng = fresh_rng();
        let random: usize = next_index(&mut rng);
        decide_from(&self.stats_writer, game, random)
    }
}

impl<G: Game, S: UctScore> Strategy<G> for MCTS<G, S> where G::Move: Copy {
    type Params = (MCTSParams, S);

    open spec fn params_valid(params: (MCTSParams, S)) -> bool {
        params.0.valid()
    }

    open spec fn ready(&self) -> bool {
        self.wf()
    }

    /// Runs the playouts of a decision, round by round, and chooses the
    /// move from what the table then holds; see `decide_with`.
    fn decide(&mut self, game: &G) -> (m: G::Move)
        ensures
            final(self).params == old(self).params,
            final(self).state.current == Some(*game),
            exists|played: Seq<Seq<Seq<G>>>, writers: Seq<StatsWriter>| #[trigger]
                is_run(
                    *game,
                    played,
                    SIMS_PER_ROUND as nat,
                    writers,
                    old(self).stats_writer,
                    final(self).stats_writer,
                ) && played.len() == SIMS_NEEDED / SIMS_PER_ROUND,
            exists|random: usize| #[trigger]
                is_choice::<G>(
                    game.spec_moves(),
                    child_visits(final(self).stats_writer, *game),
                    random,
                    m,
                ),
    {
        match self.decide_with(game, SIMS_NEEDED / SIMS_PER_ROUND, SIMS_PER_ROUND) {
            Ok(m) => m,
            Err(_) => game.possible_moves().swap_remove(0).valid_move,
        }
    }

    fn create(params: (MCTSParams, S)) -> (s: Self) {
        MCTS::new(params.0, params.1)
    }
}

} // verus!
