use gameai::game::dots::{box_bounds, test_board, Dots, DotsBoard, DotsMove, DotsPlayer};
use gameai::game::{Game, RandGame};
use rand::SeedableRng;
use rand::XorShiftRng;

#[test]
fn test_draw_hrow() {
    println!("{}", test_board().to_string());
}

#[test]
fn full_board_text() {
    assert_eq!(
        test_board().to_string(),
        "+---+---+\n| A | A |\n+---+---+\n| A | A |\n+---+---+\n"
    );
    assert_eq!(test_board().draw_hrow(2), "+---+---+\n");
    assert_eq!(test_board().draw_vrow(1), "| A | A |\n");
}

#[test]
fn partial_board_text() {
    let mut g = Dots::new(&DotsPlayer::A);
    assert_eq!(g.board.to_string(), "+   +   +\n         \n+   +   +\n         \n+   +   +\n");
    for m in [DotsMove::H(0, 0), DotsMove::V(0, 0), DotsMove::V(0, 1), DotsMove::H(1, 0)] {
        assert!(g.try_move(m));
    }
    // A, B, A, then B closes box (0, 0)
    assert_eq!(g.board.draw_hrow(0), "+---+   +\n");
    assert_eq!(g.board.draw_vrow(0), "| B |    \n");
    assert_eq!(g.board.draw_hrow(1), "+---+   +\n");
}

#[test]
fn new_game_lists_twelve_lines_in_order() {
    let g = Dots::new(&DotsPlayer::B);
    let moves: Vec<DotsMove> = g.possible_moves().iter().map(|m| *m.valid_move()).collect();
    assert_eq!(
        moves,
        vec![
            DotsMove::H(0, 0),
            DotsMove::H(0, 1),
            DotsMove::H(1, 0),
            DotsMove::H(1, 1),
            DotsMove::H(2, 0),
            DotsMove::H(2, 1),
            DotsMove::V(0, 0),
            DotsMove::V(0, 1),
            DotsMove::V(0, 2),
            DotsMove::V(1, 0),
            DotsMove::V(1, 1),
            DotsMove::V(1, 2)
        ]
    );
    assert_eq!(g.to_act(), DotsPlayer::B);
    assert_eq!(g.ref_player(), DotsPlayer::B);
    assert_eq!(g.get_score(DotsPlayer::A), 0);
    assert_eq!(g.winner(), None);
}

#[test]
fn completing_a_box_scores_and_keeps_the_turn() {
    let mut g = Dots::new(&DotsPlayer::A);
    assert!(g.try_move(DotsMove::H(0, 0)));
    assert_eq!(g.to_act(), DotsPlayer::B);
    assert!(g.try_move(DotsMove::V(0, 0)));
    assert!(g.try_move(DotsMove::V(0, 1)));
    assert_eq!(g.to_act(), DotsPlayer::B);
    assert!(g.try_move(DotsMove::H(1, 0)));
    assert_eq!(g.to_act(), DotsPlayer::B);
    assert_eq!(g.get_score(DotsPlayer::B), 1);
    assert_eq!(g.get_score(DotsPlayer::A), 0);
    assert_eq!(g.board.owners[0], Some(DotsPlayer::B));
    assert_eq!(g.board.owners[1], None);
    assert!(!g.move_valid(&DotsMove::H(1, 0)));
    assert!(!g.try_move(DotsMove::H(1, 0)));
    assert!(!g.move_valid(&DotsMove::H(3, 0)));
    assert!(!g.move_valid(&DotsMove::V(0, 3)));
}

#[test]
fn one_line_can_complete_two_boxes() {
    let mut g = Dots::new(&DotsPlayer::A);
    for m in [
        DotsMove::H(0, 0),
        DotsMove::H(0, 1),
        DotsMove::H(1, 0),
        DotsMove::H(1, 1),
        DotsMove::V(0, 0),
        DotsMove::V(0, 2),
    ] {
        assert!(g.try_move(m));
    }
    let who = g.to_act();
    assert_eq!(g.completes(DotsMove::V(0, 1)), vec![]);
    assert!(g.try_move(DotsMove::V(0, 1)));
    assert_eq!(g.completes(DotsMove::V(0, 1)), vec![(0, 1), (0, 0)]);
    assert_eq!(g.get_score(who), 2);
    assert_eq!(g.to_act(), who);
    assert_eq!(g.board.owners[0], Some(who));
    assert_eq!(g.board.owners[1], Some(who));
}

#[test]
fn game_ends_when_all_lines_are_drawn() {
    let mut g = Dots::new(&DotsPlayer::A);
    let mut rng = XorShiftRng::from_seed([4, 3, 2, 1]);
    let mut drawn = 0;
    loop {
        let m = match g.random_move(&mut rng) {
            Some(v) => *v.valid_move(),
            None => break,
        };
        assert!(g.try_move(m));
        drawn += 1;
    }
    assert_eq!(drawn, 12);
    let a = g.get_score(DotsPlayer::A);
    let b = g.get_score(DotsPlayer::B);
    assert_eq!(a + b, 4);
    if a > b {
        assert_eq!(g.winner(), Some(DotsPlayer::A));
        assert!(g.has_won(&DotsPlayer::A));
    } else if b > a {
        assert_eq!(g.winner(), Some(DotsPlayer::B));
        assert!(g.has_won(&DotsPlayer::B));
    } else {
        assert_eq!(g.winner(), None);
    }
    assert_eq!(g.possible_moves().len(), 0);
}

#[test]
fn moves_have_neighbours_and_bounds() {
    assert_eq!(DotsMove::H(2, 1).up(), DotsMove::H(1, 1));
    assert_eq!(DotsMove::V(1, 2).left(), DotsMove::V(1, 1));
    assert_eq!(DotsMove::V(1, 2).coords(), (1, 2));
    let mut v = vec![DotsMove::H(9, 9)];
    box_bounds((1, 0), &mut v);
    assert_eq!(
        v,
        vec![
            DotsMove::H(9, 9),
            DotsMove::V(1, 0),
            DotsMove::H(1, 0),
            DotsMove::V(1, 1),
            DotsMove::H(2, 0)
        ]
    );
    assert_eq!(DotsPlayer::A.flip(), DotsPlayer::B);
    assert_eq!(DotsPlayer::from_coin(true), DotsPlayer::A);
    assert_eq!(DotsPlayer::from_coin(false), DotsPlayer::B);
    let side = DotsPlayer::rand(&mut XorShiftRng::from_seed([8, 8, 8, 8]));
    assert!(side == DotsPlayer::A || side == DotsPlayer::B);
}

#[test]
fn dots_keys_and_order() {
    let a = Dots::new(&DotsPlayer::A);
    assert_eq!(a.key(), 0);
    let mut b = a.clone();
    assert!(b.try_move(DotsMove::V(1, 2)));
    // the last vertical line is digit 12 of 17, B acts: 4^5 + 1
    assert_eq!(b.key(), 1024 + 1);
    assert!(Dots::move_lt(&DotsMove::H(2, 1), &DotsMove::V(0, 0)));
    assert!(Dots::move_lt(&DotsMove::H(0, 1), &DotsMove::H(1, 0)));
    assert!(!Dots::move_lt(&DotsMove::V(0, 0), &DotsMove::H(2, 1)));
    assert!(!Dots::move_lt(&DotsMove::V(1, 1), &DotsMove::V(1, 1)));
    let mut c = a.clone();
    c.inc_score(DotsPlayer::B);
    assert_eq!(c.get_score(DotsPlayer::B), 1);
    let board: DotsBoard = test_board();
    assert!(!board.is_free(&DotsMove::H(0, 0)));
}
