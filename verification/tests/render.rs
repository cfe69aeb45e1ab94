use gameai::game::connectfour::{Color, ConnectFour, Slot};
use gameai::game::dots::{Dots, DotsMove, DotsPlayer};
use gameai::game::tictactoe::{Marker, Square, TicTacToe};
use gameai::game::Game;

#[test]
fn connect_four_as_text() {
    let mut g = ConnectFour::new(&Color::R);
    for col in [3usize, 3, 0] {
        let who = g.to_act();
        assert!(g.try_move((col, who)));
    }
    let expected = "\
|                     |
|                     |
|                     |
|                     |
|          @          |
| X        X          |
|---------------------|
  1  2  3  4  5  6  7  
";
    assert_eq!(g.state.to_string(), expected);
    assert_eq!(g.to_string(), format!("Acting: @, Ref: X\n{}\n", expected));
    assert_eq!(Slot::Empty.show(), " ");
    assert_eq!(Slot::Full(Color::B).show(), "@");
}

#[test]
fn connect_four_check_tells_well_formed_states() {
    let mut g = ConnectFour::new(&Color::R);
    assert!(g.check());
    g.winner = Some(Color::B);
    assert!(!g.check());
    g.winner = None;
    for col in [3usize, 0, 3, 0, 3, 1, 3] {
        let who = g.to_act();
        assert!(g.try_move((col, who)));
    }
    assert!(g.check());
    g.winner = None;
    assert!(!g.check());
}

#[test]
fn tic_tac_toe_as_text() {
    let mut g = TicTacToe::new(&Marker::X);
    assert!(g.try_move((0, 0, Marker::X)));
    assert!(g.try_move((1, 2, Marker::O)));
    let expected = "\
|---------|
| X       |
|       O |
|         |
|---------|
  1  2  3  
";
    assert_eq!(g.state.to_string(), expected);
    assert_eq!(g.to_string(), format!("Acting: X, Ref: X\n{}\n", expected));
    assert_eq!(Square(None).show(), " ");
    assert_eq!(Square(Some(Marker::O)).show(), "O");
    assert_eq!(Marker::X.show(), "X");
}

#[test]
fn dots_as_text() {
    let mut g = Dots::new(&DotsPlayer::A);
    for m in [DotsMove::H(0, 0), DotsMove::V(0, 0), DotsMove::V(0, 1), DotsMove::H(1, 0)] {
        assert!(g.try_move(m));
    }
    assert_eq!(
        g.to_string(),
        "Acting: B, Scores: (0, 1)\n+---+   +\n| B |    \n+---+   +\n         \n+   +   +\n\nWinner: None\n"
    );
    assert_eq!(DotsPlayer::B.show(), "B");
}
