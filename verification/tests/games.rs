use gameai::game::connectfour::{C4Board, Color, ConnectFour, Slot};
use gameai::game::tictactoe::{Board, Marker, Square, TicTacToe};
use gameai::game::trivial::{Player, TrivialGame};
use gameai::game::{try_moves, Game, RandGame};
use rand::SeedableRng;
use rand::XorShiftRng;

fn rng(seed: u32) -> XorShiftRng {
    XorShiftRng::from_seed([seed, 2, 3, 4])
}

fn c4(moves: &[usize]) -> ConnectFour {
    let mut g = ConnectFour::new(&Color::R);
    for &col in moves {
        let who = g.to_act();
        assert!(g.try_move((col, who)));
    }
    g
}

#[test]
fn connect_four_starts_empty() {
    let g = ConnectFour::new(&Color::B);
    assert_eq!(g.to_act(), Color::B);
    assert_eq!(g.ref_player(), Color::B);
    assert_eq!(g.winner(), None);
    assert!(!g.has_winner());
    assert_eq!(g.state.num_pieces(), 0);
    assert_eq!(g.possible_moves().len(), 7);
    assert_eq!(g.player_weight(&Color::B), 1);
    assert_eq!(g.player_weight(&Color::R), -1);
    assert_eq!(g.agent_id(&Color::R), 0);
    assert_eq!(g.agent_id(&Color::B), 1);
}

#[test]
fn connect_four_discs_fall_to_the_lowest_empty_row() {
    let g = c4(&[3, 3, 3]);
    assert_eq!(g.state.get(0, 3), Slot::Full(Color::R));
    assert_eq!(g.state.get(1, 3), Slot::Full(Color::B));
    assert_eq!(g.state.get(2, 3), Slot::Full(Color::R));
    assert_eq!(g.state.get(3, 3), Slot::Empty);
    assert_eq!(g.state.num_pieces(), 3);
    assert_eq!(g.to_act(), Color::B);
}

#[test]
fn connect_four_move_validity() {
    let g = c4(&[0, 0, 0, 0, 0, 0]);
    assert!(!g.move_valid(&(0, Color::R)));
    assert!(g.move_valid(&(1, Color::R)));
    assert!(!g.move_valid(&(1, Color::B)));
    assert!(!g.move_valid(&(7, Color::R)));
    let moves: Vec<(usize, Color)> = g.possible_moves().iter().map(|m| *m.valid_move()).collect();
    assert_eq!(
        moves,
        vec![(1, Color::R), (2, Color::R), (3, Color::R), (4, Color::R), (5, Color::R), (6, Color::R)]
    );
}

#[test]
fn connect_four_vertical_win() {
    let g = c4(&[3, 0, 3, 0, 3, 1, 3]);
    assert_eq!(g.winner(), Some(Color::R));
    assert!(g.has_won(&Color::R));
    assert!(!g.has_won(&Color::B));
    assert_eq!(g.possible_moves().len(), 0);
    assert!(g.verify_move((5, Color::B)).is_none());
}

#[test]
fn connect_four_horizontal_win() {
    let g = c4(&[0, 0, 1, 1, 2, 2, 3]);
    assert_eq!(g.winner(), Some(Color::R));
}

#[test]
fn connect_four_rising_diagonal_win() {
    // R at (0,0), (1,1), (2,2), (3,3)
    let g = c4(&[0, 1, 1, 2, 2, 3, 2, 3, 3, 6, 3]);
    assert_eq!(g.winner(), Some(Color::R));
}

#[test]
fn connect_four_falling_diagonal_win() {
    // R at (0,6), (1,5), (2,4), (3,3)
    let g = c4(&[6, 5, 5, 4, 4, 3, 4, 3, 3, 0, 3]);
    assert_eq!(g.winner(), Some(Color::R));
}

#[test]
fn connect_four_three_in_a_row_is_no_win() {
    let g = c4(&[0, 0, 1, 1, 2, 2]);
    assert_eq!(g.winner(), None);
    assert!(!g.has_won(&Color::R));
    assert!(!g.has_won(&Color::B));
}

#[test]
fn connect_four_refused_moves_leave_the_state() {
    let mut g = c4(&[3]);
    let before = g.clone();
    assert!(!g.try_move((3, Color::R)));
    assert!(!g.try_move_mut((9, Color::B)));
    assert_eq!(g, before);
    assert!(g.try_move_mut((3, Color::B)));
    assert_eq!(g.state.get(1, 3), Slot::Full(Color::B));
}

#[test]
fn connect_four_try_moves_reports_each_move() {
    let mut g = ConnectFour::new(&Color::R);
    let played = try_moves(&mut g, vec![(0, Color::R), (0, Color::R), (0, Color::B), (8, Color::R)]);
    assert_eq!(played, vec![true, false, true, false]);
    assert_eq!(g.state.num_pieces(), 2);
}

#[test]
fn connect_four_keys_tell_positions_apart() {
    let a = c4(&[0, 1]);
    let b = c4(&[1, 0]);
    let c = c4(&[0, 1]);
    assert_ne!(a.key(), b.key());
    assert_eq!(a.key(), c.key());
    assert_ne!(ConnectFour::new(&Color::R).key(), ConnectFour::new(&Color::B).key());
}

#[test]
fn connect_four_key_of_the_empty_board() {
    // all slots empty, R to act (0), R reference (0), no winner (0)
    assert_eq!(ConnectFour::new(&Color::R).key(), 0);
    // B to act (1), B reference (1), no winner: digits ..., 1, 1, 0
    assert_eq!(ConnectFour::new(&Color::B).key(), 16 + 4);
}

#[test]
fn connect_four_moves_are_ordered_by_column_then_colour() {
    assert!(ConnectFour::move_lt(&(1, Color::B), &(2, Color::R)));
    assert!(ConnectFour::move_lt(&(2, Color::R), &(2, Color::B)));
    assert!(!ConnectFour::move_lt(&(2, Color::B), &(2, Color::R)));
    assert!(!ConnectFour::move_lt(&(2, Color::R), &(2, Color::R)));
}

#[test]
fn connect_four_random_move_is_valid() {
    let mut r = rng(7);
    for seed in 0..20 {
        let mut g = c4(&[0, 0, 0, 0, 0, 0, 1 + seed % 6]);
        let copy = g.clone();
        let m = *g.random_move(&mut r).unwrap().valid_move();
        assert!(copy.move_valid(&m));
    }
}

#[test]
fn connect_four_random_move_on_a_full_board_is_none() {
    let mut g = ConnectFour::new(&Color::R);
    g.state = C4Board { board: [Slot::Full(Color::R); 42] };
    let mut r = rng(1);
    assert!(g.random_move(&mut r).is_none());
}

#[test]
fn connect_four_random_outcome_and_monte_carlo() {
    let mut r = rng(11);
    let won = c4(&[3, 0, 3, 0, 3, 1, 3]);
    assert_eq!(won.random_outcome(&mut r), None);
    assert_eq!(won.monte_carlo(&mut r, 10), 0);
    // R to move with an immediate win in column 3 and nothing else sensible:
    let g = c4(&[3, 0, 3, 0, 3, 1]);
    let wins = g.monte_carlo(&mut r, 50);
    assert!(wins <= 50);
    assert!(wins > 0);
}

#[test]
fn connect_four_later_states_hold_more_discs() {
    let a = c4(&[3]);
    let b = c4(&[3, 4, 4]);
    assert!(a.reachable(&b));
    assert!(!b.reachable(&a));
    assert!(!a.reachable(&a));
}

#[test]
fn sides_by_coin() {
    assert_eq!(Color::from_coin(true), Color::R);
    assert_eq!(Color::from_coin(false), Color::B);
    assert_eq!(Marker::from_coin(true), Marker::X);
    assert_eq!(Marker::from_coin(false), Marker::O);
    assert_eq!(Player::from_coin(true), Player::A);
    assert_eq!(Player::from_coin(false), Player::B);
    let mut r = rng(21);
    let mut seen = [false, false];
    for _ in 0..200 {
        match Color::rand(&mut r) {
            Color::R => seen[0] = true,
            Color::B => seen[1] = true,
        }
    }
    assert!(seen[0] && seen[1]);
    let m = Marker::rand(&mut r);
    assert!(m == Marker::X || m == Marker::O);
    let p = Player::rand(&mut r);
    assert!(p == Player::A || p == Player::B);
}

#[test]
fn colors_flip_and_show() {
    assert_eq!(Color::R.flip(), Color::B);
    assert_eq!(Color::B.flip(), Color::R);
    assert_eq!(Color::R.show(), "X");
    assert_eq!(Color::B.show(), "@");
    assert_eq!(Slot::new(), Slot::Empty);
}

fn ttt(moves: &[(usize, usize)]) -> TicTacToe {
    let mut g = TicTacToe::new(&Marker::X);
    for &(i, j) in moves {
        let who = g.to_act();
        assert!(g.try_move((i, j, who)));
    }
    g
}

#[test]
fn tic_tac_toe_board_get_and_set() {
    let mut b = Board::default();
    assert_eq!(b.get(1, 2), Square(None));
    b.set(1, 2, Marker::O);
    assert_eq!(b.get(1, 2), Square(Some(Marker::O)));
    assert_eq!(b.get(2, 1), Square(None));
    assert_eq!(Marker::X.flip(), Marker::O);
    assert_eq!(Marker::O.flip(), Marker::X);
}

#[test]
fn tic_tac_toe_lists_free_squares_row_by_row() {
    let g = ttt(&[(1, 1), (0, 0)]);
    let moves: Vec<(usize, usize, Marker)> =
        g.possible_moves().iter().map(|m| *m.valid_move()).collect();
    assert_eq!(
        moves,
        vec![
            (0, 1, Marker::X),
            (0, 2, Marker::X),
            (1, 0, Marker::X),
            (1, 2, Marker::X),
            (2, 0, Marker::X),
            (2, 1, Marker::X),
            (2, 2, Marker::X)
        ]
    );
}

#[test]
fn tic_tac_toe_wins_on_rows_columns_and_diagonals() {
    assert_eq!(ttt(&[(0, 0), (1, 0), (0, 1), (1, 1), (0, 2)]).winner(), Some(Marker::X));
    assert_eq!(ttt(&[(0, 0), (0, 1), (1, 0), (1, 1), (2, 0)]).winner(), Some(Marker::X));
    assert_eq!(ttt(&[(0, 0), (0, 1), (1, 1), (0, 2), (2, 2)]).winner(), Some(Marker::X));
    assert_eq!(ttt(&[(0, 2), (0, 1), (1, 1), (0, 0), (2, 0)]).winner(), Some(Marker::X));
    assert_eq!(ttt(&[(2, 2), (0, 0), (1, 2), (0, 1), (2, 0), (0, 2)]).winner(), Some(Marker::O));
    assert_eq!(ttt(&[(0, 0), (1, 1), (0, 1)]).winner(), None);
}

#[test]
fn tic_tac_toe_finished_game_lists_no_move() {
    let g = ttt(&[(0, 0), (1, 0), (0, 1), (1, 1), (0, 2)]);
    assert!(g.has_won(&Marker::X));
    assert!(!g.has_won(&Marker::O));
    assert_eq!(g.possible_moves().len(), 0);
}

#[test]
fn tic_tac_toe_move_validity() {
    let g = ttt(&[(1, 1)]);
    assert!(!g.move_valid(&(1, 1, Marker::O)));
    assert!(g.move_valid(&(0, 0, Marker::O)));
    assert!(!g.move_valid(&(3, 0, Marker::O)));
    assert!(!g.move_valid(&(0, 5, Marker::O)));
}

#[test]
fn tic_tac_toe_draw_has_no_winner_and_no_move() {
    let g = ttt(&[(0, 0), (0, 1), (0, 2), (1, 1), (1, 0), (1, 2), (2, 1), (2, 0), (2, 2)]);
    assert_eq!(g.winner(), None);
    assert_eq!(g.possible_moves().len(), 0);
    let mut r = rng(3);
    assert_eq!(g.random_outcome(&mut r), None);
}

#[test]
fn tic_tac_toe_keys_and_order() {
    assert_eq!(TicTacToe::new(&Marker::X).key(), 0);
    assert_ne!(ttt(&[(0, 0)]).key(), ttt(&[(0, 1)]).key());
    assert!(TicTacToe::move_lt(&(0, 2, Marker::O), &(1, 0, Marker::X)));
    assert!(TicTacToe::move_lt(&(1, 0, Marker::X), &(1, 0, Marker::O)));
    assert!(!TicTacToe::move_lt(&(1, 0, Marker::X), &(1, 0, Marker::X)));
}

#[test]
fn tic_tac_toe_random_play_ends() {
    let mut r = rng(5);
    let g = TicTacToe::new(&Marker::O);
    for _ in 0..20 {
        let w = g.random_outcome(&mut r);
        assert!(w == None || w == Some(Marker::X) || w == Some(Marker::O));
    }
    let mut h = TicTacToe::new(&Marker::O);
    let copy = h.clone();
    let m = *h.random_move(&mut r).unwrap().valid_move();
    assert!(copy.move_valid(&m));
    assert_eq!(m.2, Marker::O);
}

#[test]
fn trivial_game_is_won_by_the_one_who_starts() {
    let mut g = TrivialGame::new(&Player::A);
    let mut turns = 0;
    while !g.has_winner() {
        assert_eq!(g.possible_moves().len(), 1);
        assert!(g.try_move(()));
        turns += 1;
    }
    assert_eq!(turns, 97);
    assert_eq!(g.winner(), Some(Player::A));
    assert_eq!(g.state(Player::A), 49);
    assert_eq!(g.state(Player::B), 48);
    assert_eq!(g.possible_moves().len(), 0);
    assert!(!g.try_move(()));
    let b = TrivialGame::new(&Player::B);
    let mut r = rng(9);
    assert_eq!(b.random_outcome(&mut r), Some(Player::B));
    assert_eq!(b.monte_carlo(&mut r, 7), 7);
    assert_eq!(b.ref_player(), Player::B);
    assert_eq!(b.player_weight(&Player::B), 1);
    assert_eq!(b.player_weight(&Player::A), -1);
    assert_eq!(Player::A.other(), Player::B);
}

#[test]
fn trivial_game_key() {
    let mut g = TrivialGame::new(&Player::A);
    assert_eq!(g.key(), 0);
    assert!(g.try_move(()));
    // A has counted to 1, B acts, A is the reference: ((1 * 50 + 0) * 2 + 1) * 2 + 0
    assert_eq!(g.key(), 202);
}
