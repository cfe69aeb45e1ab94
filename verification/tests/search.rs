use gameai::game::connectfour::{Color, ConnectFour};
use gameai::game::tictactoe::{Marker, TicTacToe};
use gameai::game::trivial::{Player, TrivialGame};
use gameai::game::Game;
use gameai::stats::Stats;
use gameai::strategies::mcts::{MCTSParams, State, MCTS};
use gameai::strategies::negamax::{Negamax, NegamaxParams, NegamaxParamsError, NegamaxState};
use gameai::strategies::playout::{
    argmax_last, best_index, choose_child, decide_from, denominator, fully_expanded, select,
    simulate, uct_wins, DecideError, Snapshot, UctScore,
};
use gameai::strategies::Strategy;
use gameai::table::StatsTable;
use rand::SeedableRng;
use rand::XorShiftRng;

struct Uct {
    c: f64,
}

impl UctScore for Uct {
    fn score(&self, wins: usize, visits: usize, parent_visits: usize) -> u64 {
        assert!(visits >= 1 && parent_visits >= 1);
        let v = visits as f64;
        let key = wins as f64 / v + self.c * ((parent_visits as f64).ln() / v).sqrt();
        key.to_bits()
    }
}

fn uct() -> Uct {
    Uct { c: 2.0f64.sqrt() }
}

fn rng(seed: u32) -> XorShiftRng {
    XorShiftRng::from_seed([seed, 9, 8, 7])
}

fn seeded_search<G: Game>(seed: u32) -> MCTS<G, Uct> {
    MCTS {
        params: MCTSParams { timeout: 500 },
        state: State { stats: StatsTable::new(), cur: None, rng: rng(seed) },
        scorer: uct(),
    }
}

fn seeded_negamax<G>(seed: u32, max_depth: usize, trials: usize) -> Negamax<G> {
    Negamax {
        params: NegamaxParams { max_depth, trials },
        state: NegamaxState { rng: rng(seed), cache: std::collections::HashMap::new() },
        game: std::marker::PhantomData,
    }
}

fn c4(moves: &[usize]) -> ConnectFour {
    let mut g = ConnectFour::new(&Color::R);
    for &col in moves {
        let who = g.to_act();
        assert!(g.try_move((col, who)));
    }
    g
}

#[test]
fn score_operands() {
    let s = Stats { wins: 3, losses: 5, visits: 9 };
    assert_eq!(uct_wins(s, true), 3);
    assert_eq!(uct_wins(s, false), 5);
    assert_eq!(denominator(0), 1);
    assert_eq!(denominator(1), 1);
    assert_eq!(denominator(17), 17);
}

#[test]
fn expansion_test() {
    assert!(fully_expanded(&vec![]));
    assert!(fully_expanded(&vec![Some(Stats::win()), Some(Stats::tie())]));
    assert!(!fully_expanded(&vec![Some(Stats::win()), None]));
}

#[test]
fn argmax_takes_the_last_of_equal_keys() {
    assert_eq!(argmax_last(&vec![5]), 0);
    assert_eq!(argmax_last(&vec![1, 9, 3]), 1);
    assert_eq!(argmax_last(&vec![9, 1, 9, 3]), 2);
    assert_eq!(argmax_last(&vec![4, 4, 4]), 2);
}

#[test]
fn child_choice() {
    let full = vec![Some(Stats::win()), Some(Stats::loss()), Some(Stats::tie())];
    assert_eq!(choose_child(&full, &vec![2, 8, 8], 100), 2);
    let partial = vec![Some(Stats::win()), None, Some(Stats::tie())];
    assert_eq!(choose_child(&partial, &vec![], 100), 1);
    assert_eq!(choose_child(&partial, &vec![], 5), 2);
}

#[test]
fn select_returns_a_child() {
    let g = TicTacToe::new(&Marker::X);
    let t = StatsTable::new();
    let mut r = rng(1);
    for _ in 0..20 {
        let next = select(&t, &uct(), &mut r, g.possible_moves(), 1, g.to_act());
        assert_eq!(next.to_act(), Marker::O);
        assert_eq!(next.possible_moves().len(), 8);
    }
}

#[test]
fn select_prefers_the_best_score_when_all_children_are_known() {
    let g = c4(&[3, 0, 3, 0, 3, 1]);
    let mut t = StatsTable::new();
    for m in g.possible_moves() {
        let col = m.valid_move().0;
        let child = m.apply();
        // the child is B's position: a loss there is a win for R
        let d = if col == 3 { Stats::loss() } else { Stats::win() };
        for _ in 0..10 {
            assert!(t.absorb(child.key(), d));
        }
    }
    let mut r = rng(2);
    let next = select(&t, &uct(), &mut r, g.possible_moves(), 70, g.to_act());
    assert_eq!(next.winner(), Some(Color::R));
}

#[test]
fn simulate_leaves_one_delta_per_position() {
    let g = TicTacToe::new(&Marker::X);
    let t = StatsTable::new();
    let mut r = rng(3);
    for _ in 0..30 {
        let mut out: Vec<(u128, Stats)> = vec![(1, Stats::zero())];
        let winner = simulate(&t, &uct(), &mut r, &g, &mut out);
        assert_eq!(out[0], (1, Stats::zero()));
        let n = out.len() - 1;
        assert!(n >= 6 && n <= 10);
        // the root comes last; X acts there
        assert_eq!(out[n].0, g.key());
        let root = match winner {
            None => Stats::tie(),
            Some(Marker::X) => Stats::win(),
            Some(Marker::O) => Stats::loss(),
        };
        assert_eq!(out[n].1, root);
        for (_, d) in &out[1..] {
            assert_eq!(d.visits, 1);
            assert!(d.wins + d.losses <= 1);
            if winner.is_none() {
                assert_eq!(*d, Stats::tie());
            }
        }
        // sides alternate, so do wins and losses
        if winner.is_some() {
            for k in 1..n {
                assert_ne!(out[k].1, out[k + 1].1);
            }
        }
    }
}

#[test]
fn simulate_of_a_finished_game_is_one_delta() {
    let g = c4(&[3, 0, 3, 0, 3, 1, 3]);
    let t = StatsTable::new();
    let mut r = rng(4);
    let mut out = Vec::new();
    assert_eq!(simulate(&t, &uct(), &mut r, &g, &mut out), Some(Color::R));
    // B would act, R has won
    assert_eq!(out, vec![(g.key(), Stats::loss())]);
}

#[test]
fn best_index_prefers_visits_then_the_smaller_move() {
    let moves = vec![(0usize, Color::R), (1, Color::R), (2, Color::R), (3, Color::R)];
    assert_eq!(best_index::<ConnectFour>(&moves, &vec![Some(3), Some(9), Some(4), None], 0), 1);
    assert_eq!(best_index::<ConnectFour>(&moves, &vec![None, Some(7), Some(7), None], 0), 1);
    assert_eq!(best_index::<ConnectFour>(&moves, &vec![None, None, None, Some(0)], 2), 3);
    let unordered = vec![(5usize, Color::R), (2, Color::R), (4, Color::R)];
    assert_eq!(best_index::<ConnectFour>(&unordered, &vec![Some(6), Some(6), Some(6)], 0), 1);
}

#[test]
fn best_index_without_statistics_follows_the_random_number() {
    let moves = vec![(0usize, Color::R), (1, Color::R), (2, Color::R)];
    let none = vec![None, None, None];
    assert_eq!(best_index::<ConnectFour>(&moves, &none, 0), 0);
    assert_eq!(best_index::<ConnectFour>(&moves, &none, 5), 2);
    assert_eq!(best_index::<ConnectFour>(&moves, &none, 7), 1);
}

#[test]
fn decide_on_a_finished_game_fails() {
    let g = c4(&[3, 0, 3, 0, 3, 1, 3]);
    let t = StatsTable::new();
    assert_eq!(decide_from(&t, &g, 3), Err(DecideError::NoLegalMove));
}

#[test]
fn decide_without_statistics_returns_a_legal_move() {
    let g = c4(&[0, 0, 0, 0, 0, 0]);
    let t = StatsTable::new();
    for random in 0..30 {
        let m = decide_from(&t, &g, random).unwrap();
        assert!(g.move_valid(&m));
        assert_eq!(m, (1 + random % 6, Color::R));
    }
}

#[test]
fn decide_with_one_legal_move_returns_it() {
    let g = TrivialGame::new(&Player::A);
    let mut t = StatsTable::new();
    assert_eq!(decide_from(&t, &g, 12), Ok(()));
    let mut next = g.clone();
    assert!(next.try_move(()));
    assert!(t.absorb(next.key(), Stats::win()));
    assert_eq!(decide_from(&t, &g, 0), Ok(()));
}

#[test]
fn decide_breaks_ties_by_the_smaller_move() {
    let g = ConnectFour::new(&Color::R);
    let mut t = StatsTable::new();
    for col in [2usize, 5] {
        let mut child = g.clone();
        assert!(child.try_move((col, Color::R)));
        for _ in 0..4 {
            assert!(t.absorb(child.key(), Stats::tie()));
        }
    }
    let mut other = g.clone();
    assert!(other.try_move((0, Color::R)));
    assert!(t.absorb(other.key(), Stats::tie()));
    assert_eq!(decide_from(&t, &g, 99), Ok((2, Color::R)));
}

#[test]
fn search_finds_the_winning_move() {
    let g = c4(&[3, 0, 3, 0, 3, 1]);
    let created: MCTS<ConnectFour, Uct> = MCTS::create(MCTSParams { timeout: 500 }, uct());
    assert!(created.state.cur.is_none());
    assert_eq!(created.state.stats.len(), 0);
    let mut search: MCTS<ConnectFour, Uct> = seeded_search(17);
    assert_eq!(search.think(100), 0);
    assert_eq!(search.decide_now(&g).map(|m| m.1), Ok(Color::R));
    assert_eq!(search.think(1500), 1500);
    assert_eq!(search.state.stats.get(g.key()).unwrap().visits, 1500);
    assert_eq!(search.decide_now(&g), Ok((3, Color::R)));
    // the winning child has the most visits of all children
    let visits = |col: usize| {
        let mut child = g.clone();
        assert!(child.try_move((col, Color::R)));
        search.state.stats.stats(child.key()).map(|s| s.visits).unwrap_or(0)
    };
    for col in [0usize, 1, 2, 4, 5, 6] {
        assert!(visits(3) > visits(col));
    }
}

#[test]
fn search_blocks_an_immediate_threat() {
    // B holds columns 2, 3 and 4 of the bottom row, R holds column 1: only column 5 blocks
    let g = c4(&[1, 2, 6, 3, 6, 4]);
    assert_eq!(g.to_act(), Color::R);
    let mut blocked = 0;
    for trial in 0..10 {
        let mut search: MCTS<ConnectFour, Uct> = seeded_search(100 + trial);
        let _ = search.decide_now(&g);
        search.think(1200);
        if search.decide_now(&g) == Ok((5, Color::R)) {
            blocked += 1;
        }
    }
    assert!(blocked >= 9);
}

#[test]
fn statistics_of_a_search_are_well_formed() {
    let g = TicTacToe::new(&Marker::X);
    let mut search: MCTS<TicTacToe, Uct> = seeded_search(5);
    let w = search.simulate(&g);
    assert!(w == None || w == Some(Marker::X) || w == Some(Marker::O));
    let _ = search.decide_now(&g);
    search.think(300);
    let root = search.state.stats.get(g.key()).unwrap();
    assert_eq!(root.visits, 301);
    assert!(root.wins + root.losses <= root.visits);
    for m in g.possible_moves() {
        if let Some(s) = search.state.stats.get(m.apply().key()) {
            assert!(s.wins + s.losses <= s.visits);
            assert!(s.visits <= root.visits);
        }
    }
}

#[test]
fn negamax_parameters_are_checked() {
    assert_eq!(NegamaxParams { max_depth: 3, trials: 10 }.validate(), Ok(()));
    assert_eq!(
        NegamaxParams { max_depth: 3, trials: 0 }.validate(),
        Err(NegamaxParamsError::NoTrials)
    );
    assert_eq!(
        NegamaxParams { max_depth: 3, trials: i32::MAX as usize }.validate(),
        Err(NegamaxParamsError::TooManyTrials)
    );
    assert_eq!(
        NegamaxParams { max_depth: usize::MAX, trials: 5 }.validate(),
        Err(NegamaxParamsError::TooDeep)
    );
}

#[test]
fn negamax_is_made_from_checked_parameters() {
    assert!(Negamax::<ConnectFour>::try_create(NegamaxParams { max_depth: 2, trials: 4 }).is_ok());
    assert!(matches!(
        Negamax::<ConnectFour>::try_create(NegamaxParams { max_depth: 2, trials: 0 }),
        Err(NegamaxParamsError::NoTrials)
    ));
}

#[test]
fn negamax_finds_a_forced_win() {
    let g = c4(&[3, 0, 3, 0, 3, 1]);
    let mut strategy: Negamax<ConnectFour> = seeded_negamax(1, 3, 10);
    assert_eq!(strategy.decide(&g), (3, Color::R));
    let mut fresh: Negamax<ConnectFour> =
        Negamax::create(NegamaxParams { max_depth: 1, trials: 2 });
    assert!(g.move_valid(&fresh.decide(&g)));
}

#[test]
fn negamax_takes_the_greatest_of_equally_good_moves() {
    // X wins at once in (0, 2) and in (1, 0); after (2, 1), O wins at once
    let mut g = TicTacToe::new(&Marker::X);
    for (i, j) in [(0usize, 0usize), (1, 1), (0, 1), (1, 2), (2, 0), (2, 2)] {
        let who = g.to_act();
        assert!(g.try_move((i, j, who)));
    }
    let mut strategy: Negamax<TicTacToe> = seeded_negamax(3, 2, 10);
    assert_eq!(strategy.negamax(g.clone(), 0), (10, Some((1, 0, Marker::X))));
    assert_eq!(strategy.decide(&g), (1, 0, Marker::X));
    let mut losing = g.clone();
    assert!(losing.try_move((2, 1, Marker::X)));
    assert_eq!(strategy.negamax(losing, 1).0, 0);
    // a search that stops at once values the position by playouts
    let (score, m) = strategy.negamax(g.clone(), 3);
    assert_eq!(m, None);
    assert!(0 <= score && score <= 10);
    // the same position is valued the same again
    assert_eq!(strategy.negamax(g.clone(), 3), (score, None));
}

#[test]
fn negamax_score_is_the_best_negated_child_score() {
    let g = c4(&[3, 0, 3, 0, 3, 1]);
    let mut strategy: Negamax<ConnectFour> = seeded_negamax(4, 1, 8);
    let (score, m) = strategy.negamax(g.clone(), 0);
    let mut best = -9;
    let mut best_move = None;
    for v in g.possible_moves() {
        let mv = *v.valid_move();
        let (child, _) = strategy.negamax(v.apply(), 1);
        if -child >= best {
            best = -child;
            best_move = Some(mv);
        }
    }
    assert_eq!(score, best);
    assert_eq!(m, best_move);
    assert_eq!(score, 8);
    assert_eq!(m, Some((3, Color::R)));
}

#[test]
fn negamax_values_and_remembers_positions() {
    let mut strategy: Negamax<ConnectFour> = seeded_negamax(2, 1, 6);
    let won = c4(&[3, 0, 3, 0, 3, 1, 3]);
    assert_eq!(strategy.heuristic(won.clone()), 6);
    assert_eq!(strategy.negamax(won.clone(), 0), (-6, None));
    let open = ConnectFour::new(&Color::R);
    let first = strategy.heuristic(open.clone());
    assert!(first <= 6);
    for _ in 0..5 {
        assert_eq!(strategy.heuristic(open.clone()), first);
    }
    let (score, m) = strategy.negamax(open.clone(), 0);
    assert!(-6 <= score && score <= 6);
    assert!(open.move_valid(&m.unwrap()));
    let (_, none) = strategy.negamax(open.clone(), 2);
    assert_eq!(none, None);
}

#[test]
fn negamax_on_the_game_without_choices() {
    let g = TrivialGame::new(&Player::B);
    let mut strategy: Negamax<TrivialGame> =
        Negamax::create(NegamaxParams { max_depth: 2, trials: 3 });
    assert_eq!(strategy.decide(&g), ());
    // B starts, so B wins every playout: the value is all the trials
    assert_eq!(strategy.heuristic(g.clone()), 3);
}
