use gameai::game::connectfour::{Color, ConnectFour};
use gameai::game::tictactoe::{Marker, TicTacToe};
use gameai::game::Game;
use gameai::rng::{fresh_rng, seeded_rng};
use gameai::stats::Stats;
use gameai::strategies::mcts_parallel::{
    MCTSMerger, MCTSParams, MCTSWorker, MergerMessage, MergerReply, ParamsError, WorkerMessage,
};
use gameai::strategies::mcts_rayon::{MCTSState, StatsWriter, MCTS};
use gameai::strategies::playout::{Snapshot, UctScore};
use gameai::strategies::Strategy;
use gameai::table::StatsTable;
use rand::Rng;
use rand::SeedableRng;
use rand::XorShiftRng;

struct Uct;

impl UctScore for Uct {
    fn score(&self, wins: usize, visits: usize, parent_visits: usize) -> u64 {
        let v = visits as f64;
        (wins as f64 / v + 2.0f64.sqrt() * ((parent_visits as f64).ln() / v).sqrt()).to_bits()
    }
}

fn params() -> MCTSParams {
    MCTSParams {
        timeout: 10,
        workers: 2,
        worker_batch_size: 5,
        merger_queue_bound: 4,
        merger_batch_size: 3,
        min_flush_interval: 100,
    }
}

#[test]
fn parameters_are_checked() {
    assert_eq!(params().validate(), Ok(()));
    assert_eq!(MCTSParams { workers: 0, ..params() }.validate(), Err(ParamsError::NoWorkers));
    assert_eq!(
        MCTSParams { worker_batch_size: 0, ..params() }.validate(),
        Err(ParamsError::EmptyWorkerBatch)
    );
    assert_eq!(
        MCTSParams { merger_batch_size: 0, ..params() }.validate(),
        Err(ParamsError::EmptyMergerBatch)
    );
    assert_eq!(
        MCTSParams { merger_queue_bound: 0, ..params() }.validate(),
        Err(ParamsError::NoMergerQueue)
    );
    assert_eq!(
        MCTSParams { workers: 0, merger_queue_bound: 0, ..params() }.validate(),
        Err(ParamsError::NoWorkers)
    );
    assert_eq!(MCTSParams { timeout: 0, min_flush_interval: 0, ..params() }.validate(), Ok(()));
}

#[test]
fn generators() {
    assert!(seeded_rng([0, 0, 0, 0]).is_none());
    let mut a = seeded_rng([1, 2, 3, 4]).unwrap();
    let mut b = XorShiftRng::from_seed([1, 2, 3, 4]);
    assert_eq!(a.next_u32(), b.next_u32());
    let mut c = fresh_rng();
    let _ = c.next_u32();
}

#[test]
fn worker_without_a_position_does_nothing() {
    let mut w: MCTSWorker<TicTacToe> = MCTSWorker::new(params(), 1000);
    let mut r = XorShiftRng::from_seed([1, 1, 1, 1]);
    assert_eq!(w.run_batch(&Uct, &mut r), 0);
    assert_eq!(w.updates.len(), 0);
    assert_eq!(w.last_flush, 1000);
}

#[test]
fn worker_runs_batches_and_collects_deltas() {
    let mut w: MCTSWorker<TicTacToe> = MCTSWorker::new(params(), 0);
    let g = TicTacToe::new(&Marker::X);
    w.handle(WorkerMessage::UpdateCur(Some(g.clone())));
    let mut r = XorShiftRng::from_seed([5, 1, 1, 1]);
    assert_eq!(w.run_batch(&Uct, &mut r), 5);
    let roots = w.updates.iter().filter(|(k, _)| *k == g.key()).count();
    assert_eq!(roots, 5);
    assert_eq!(w.stats_cache.get(g.key()).unwrap().visits, 5);
    assert_eq!(w.stats_cache.visits_absorbed(), w.updates.len());
    let before = w.updates.len();
    let _ = w.simulate(&Uct, &mut r, &g);
    assert!(w.updates.len() > before);
    assert_eq!(w.stats_cache.get(g.key()).unwrap().visits, 6);
}

#[test]
fn worker_flushes_only_after_the_interval() {
    let mut w: MCTSWorker<TicTacToe> = MCTSWorker::new(params(), 1000);
    w.updates.push((1, Stats::win()));
    w.updates.push((2, Stats::tie()));
    assert!(w.maybe_flush_updates(1099).is_none());
    assert!(w.maybe_flush_updates(900).is_none());
    assert_eq!(w.updates.len(), 2);
    assert_eq!(w.last_flush, 1000);
    let batch = w.maybe_flush_updates(1100).unwrap();
    assert_eq!(batch, vec![(1, Stats::win()), (2, Stats::tie())]);
    assert_eq!(w.updates.len(), 0);
    assert_eq!(w.last_flush, 1100);
    assert!(w.maybe_flush_updates(1150).is_none());
    assert_eq!(w.maybe_flush_updates(1200), Some(vec![]));
}

#[test]
fn worker_takes_messages() {
    let mut w: MCTSWorker<ConnectFour> = MCTSWorker::new(params(), 0);
    let mut t = StatsTable::new();
    assert!(t.absorb(3, Stats::loss()));
    w.handle(WorkerMessage::UpdateStats(t));
    assert_eq!(w.stats_cache.get(3), Some(Stats::loss()));
    assert!(w.cur.is_none());
    w.handle(WorkerMessage::UpdateCur(Some(ConnectFour::new(&Color::B))));
    assert_eq!(w.cur.map(|g| g.to_act()), Some(Color::B));
    w.handle(WorkerMessage::UpdateCur(None));
    assert!(w.cur.is_none());
    assert_eq!(w.stats_cache.get(3), Some(Stats::loss()));
}

#[test]
fn merger_adds_batches_and_publishes_at_refresh() {
    let mut m = MCTSMerger::new(params());
    assert!(!m.round_done());
    for round in 0..4u64 {
        let batch: Vec<(u128, Stats)> = (0..1000).map(|_| (42u128, Stats::win())).collect();
        assert_eq!(m.handle(MergerMessage::Merge(batch)), MergerReply::Merged);
        assert_eq!(m.taken, round + 1);
        assert_eq!(m.round_done(), round + 1 >= 3);
    }
    assert_eq!(m.stats.get(42), Some(Stats { wins: 4000, losses: 0, visits: 4000 }));
    assert_eq!(m.get(42), None);
    assert_eq!(m.handle(MergerMessage::GetStats), MergerReply::Deferred);
    assert_eq!(m.handle(MergerMessage::GetStats), MergerReply::Deferred);
    assert_eq!(m.waiting, 2);
    assert_eq!(m.get(42), None);
    let (copy, requests) = m.refresh();
    assert_eq!(requests, 2);
    assert_eq!(copy.get(42), Some(Stats { wins: 4000, losses: 0, visits: 4000 }));
    assert_eq!(copy.len(), 1);
    assert_eq!(m.get(42), Some(Stats { wins: 4000, losses: 0, visits: 4000 }));
    assert_eq!(m.taken, 0);
    assert_eq!(m.waiting, 0);
    assert!(!m.round_done());
    let huge = vec![(1u128, Stats { wins: 0, losses: 0, visits: usize::MAX })];
    assert_eq!(m.handle(MergerMessage::Merge(huge)), MergerReply::Refused);
    assert_eq!(m.stats.get(1), None);
    assert_eq!(m.stats.get(42).unwrap().visits, 4000);
}

#[test]
fn merger_refresh_without_merges_changes_nothing() {
    let mut m = MCTSMerger::new(params());
    assert_eq!(m.handle(MergerMessage::Merge(vec![(3, Stats::loss())])), MergerReply::Merged);
    let _ = m.refresh();
    let seen = m.get(3);
    let (copy, requests) = m.refresh();
    assert_eq!(requests, 0);
    assert_eq!(m.get(3), seen);
    assert_eq!(copy.get(3), seen);
    assert_eq!(seen, Some(Stats::loss()));
    assert_eq!(m.get(4), None);
}

#[test]
fn worker_hands_everything_on_before_it_stops() {
    let mut w: MCTSWorker<TicTacToe> = MCTSWorker::new(params(), 50);
    w.updates.push((1, Stats::win()));
    assert!(w.maybe_flush_updates(60).is_none());
    assert_eq!(w.take_updates(), vec![(1, Stats::win())]);
    assert_eq!(w.updates.len(), 0);
    assert_eq!(w.last_flush, 50);
    assert_eq!(w.take_updates(), vec![]);
}

#[test]
fn checked_constructors() {
    let bad = MCTSParams { merger_batch_size: 0, ..params() };
    assert!(matches!(
        MCTS::<TicTacToe, Uct>::create(bad, Uct),
        Err(ParamsError::EmptyMergerBatch)
    ));
    let good = MCTS::<TicTacToe, Uct>::create(params(), Uct);
    assert!(good.is_ok());
    assert!(good.ok().unwrap().state.current.is_none());
}

#[test]
fn merger_polls_before_every_hundredth_message() {
    assert!(MCTSMerger::polls_priority(0));
    assert!(!MCTSMerger::polls_priority(1));
    assert!(!MCTSMerger::polls_priority(99));
    assert!(MCTSMerger::polls_priority(100));
    assert!(MCTSMerger::polls_priority(700));
}

#[test]
fn merger_decides_from_a_copy() {
    let g = ConnectFour::new(&Color::R);
    let mut t = StatsTable::new();
    let mut child = g.clone();
    assert!(child.try_move((4, Color::R)));
    assert!(t.absorb(child.key(), Stats::win()));
    assert_eq!(MCTSMerger::decide(&t, &g, 0), Ok((4, Color::R)));
}

#[test]
fn updates_are_invisible_until_refresh() {
    let (mut w, r) = StatsWriter::new();
    assert_eq!(w.get(7), None);
    assert!(w.update(7, Stats::win()));
    assert!(w.update(7, Stats::loss()));
    assert_eq!(w.get(7), None);
    assert_eq!(r.stats(7), None);
    w.refresh();
    assert_eq!(w.get(7), Some(Stats { wins: 1, losses: 1, visits: 2 }));
    assert_eq!(r.stats(7), Some(Stats { wins: 1, losses: 1, visits: 2 }));
    assert_eq!(w.reader().stats(7), r.stats(7));
    assert!(w.update(7, Stats::tie()));
    assert!(w.update(8, Stats::tie()));
    assert_eq!(r.stats(7), Some(Stats { wins: 1, losses: 1, visits: 2 }));
    assert_eq!(r.stats(8), None);
    w.refresh();
    assert_eq!(r.stats(7), Some(Stats { wins: 1, losses: 1, visits: 3 }));
    assert_eq!(r.stats(8), Some(Stats::tie()));
}

#[test]
fn refresh_without_updates_changes_nothing() {
    let (mut w, r) = StatsWriter::new();
    w.refresh();
    assert_eq!(r.stats(1), None);
    assert!(w.update(1, Stats::win()));
    w.refresh();
    let seen = r.stats(1);
    w.refresh();
    w.refresh();
    assert_eq!(r.stats(1), seen);
    assert_eq!(seen, Some(Stats::win()));
    assert_eq!(r.stats(2), None);
}

#[test]
fn compaction_keeps_the_sums() {
    let (mut w, r) = StatsWriter::new();
    assert!(w.update(2, Stats::win()));
    assert!(w.update(2, Stats::win()));
    assert!(w.update(3, Stats::tie()));
    w.compact();
    assert_eq!(r.stats(2), Some(Stats { wins: 2, losses: 0, visits: 2 }));
    assert_eq!(r.stats(3), Some(Stats::tie()));
    w.compact();
    assert_eq!(r.stats(2), Some(Stats { wins: 2, losses: 0, visits: 2 }));
}

#[test]
fn extend_adds_and_publishes() {
    let (mut w, r) = StatsWriter::new();
    for _ in 0..4 {
        let batch: Vec<(u128, Stats)> = (0..1000).map(|_| (5u128, Stats::win())).collect();
        assert!(w.extend(batch));
    }
    assert_eq!(r.stats(5), Some(Stats { wins: 4000, losses: 0, visits: 4000 }));
    assert!(w.extend(vec![(5, Stats::loss()), (6, Stats::tie()), (5, Stats::tie())]));
    assert_eq!(r.stats(5), Some(Stats { wins: 4000, losses: 1, visits: 4002 }));
    assert_eq!(r.stats(6), Some(Stats::tie()));
    assert!(!w.extend(vec![(9, Stats { wins: 0, losses: 0, visits: usize::MAX })]));
    assert_eq!(r.stats(9), None);
    assert!(!w.update(9, Stats { wins: 0, losses: 0, visits: usize::MAX }));
}

#[test]
fn scheduled_playouts_reach_the_readers() {
    let mut search: MCTS<TicTacToe, Uct> = MCTS::new(params(), Uct);
    assert!(search.schedule(10));
    let g = TicTacToe::new(&Marker::X);
    assert_eq!(search.state.stats(&g), None);
    let m = search.decide_with(&g, 3, 50).unwrap();
    assert!(g.move_valid(&m));
    assert_eq!(search.state.stats(&g).unwrap().visits, 150);
    let mut last = 150;
    for _ in 0..5 {
        assert!(search.schedule_work(20));
        let now = search.state.stats(&g).unwrap();
        assert!(now.visits >= last);
        assert!(now.wins + now.losses <= now.visits);
        last = now.visits;
    }
    assert_eq!(last, 250);
}

#[test]
fn playouts_against_the_reading_side() {
    let (mut w, r) = StatsWriter::new();
    let state: MCTSState<ConnectFour> = MCTSState { stats: r, current: None };
    let g = ConnectFour::new(&Color::R);
    let mut rng = XorShiftRng::from_seed([3, 3, 3, 3]);
    let mut out = Vec::new();
    let _ = state.simulate(&Uct, &mut rng, &g, &mut out);
    assert!(out.len() >= 8);
    assert_eq!(out[out.len() - 1].0, g.key());
    assert!(w.extend(out));
    assert_eq!(state.stats(&g).unwrap().visits, 1);
}

#[test]
fn strategy_from_parameters() {
    let mut search: MCTS<TicTacToe, Uct> = Strategy::<TicTacToe>::create((params(), Uct));
    assert!(search.state.current.is_none());
    let g = TicTacToe::new(&Marker::O);
    let m = search.decide_with(&g, 1, 10).unwrap();
    assert_eq!(m.2, Marker::O);
}
