use gameai::game::connectfour::{Color, ConnectFour};
use gameai::game::dots::{Dots, DotsMove, DotsPlayer};
use gameai::game::tictactoe::{Marker, TicTacToe};
use gameai::game::trivial::{Player, TrivialGame};
use gameai::game::{Game, ParseGame};
use gameai::text::{
    blank, chars_of, find_space, find_word, find_word_end, format_usize, parse_usize,
};

fn number(s: &str) -> Option<usize> {
    let v = chars_of(s);
    parse_usize(&v, 0, v.len())
}

#[test]
fn numbers_are_read_as_decimals() {
    assert_eq!(number("0"), Some(0));
    assert_eq!(number("7"), Some(7));
    assert_eq!(number("007"), Some(7));
    assert_eq!(number("+42"), Some(42));
    assert_eq!(number("1234567890"), Some(1234567890));
    assert_eq!(number(&usize::MAX.to_string()), Some(usize::MAX));
    assert_eq!(number("18446744073709551616"), None);
    assert_eq!(number("99999999999999999999999"), None);
    assert_eq!(number(""), None);
    assert_eq!(number("+"), None);
    assert_eq!(number("-3"), None);
    assert_eq!(number("3 "), None);
    assert_eq!(number("12a"), None);
    assert_eq!(number("++1"), None);
    let v = chars_of("ab12cd");
    assert_eq!(parse_usize(&v, 2, 4), Some(12));
    assert_eq!(parse_usize(&v, 2, 5), None);
    assert_eq!(parse_usize(&v, 3, 3), None);
}

#[test]
fn numbers_are_written_as_decimals() {
    assert_eq!(format_usize(0), "0");
    assert_eq!(format_usize(9), "9");
    assert_eq!(format_usize(10), "10");
    assert_eq!(format_usize(1234567890), "1234567890");
    assert_eq!(format_usize(usize::MAX), usize::MAX.to_string());
    for n in [0usize, 5, 19, 100, 4096, usize::MAX] {
        assert_eq!(number(&format_usize(n)), Some(n));
    }
}

#[test]
fn words_and_spaces_are_found() {
    let v = chars_of("ab  cd\te");
    assert_eq!(v, vec!['a', 'b', ' ', ' ', 'c', 'd', '\t', 'e']);
    assert_eq!(find_space(&v, 0), 2);
    assert_eq!(find_space(&v, 2), 2);
    assert_eq!(find_space(&v, 4), 8);
    assert_eq!(find_word(&v, 2), 4);
    assert_eq!(find_word(&v, 0), 0);
    assert_eq!(find_word_end(&v, 4), 6);
    assert_eq!(find_word_end(&v, 7), 8);
    assert_eq!(find_word(&v, 8), 8);
    assert!(blank(' ') && blank('\n') && blank('\u{a0}') && blank('\u{3000}') && blank('\u{2003}'));
    assert!(!blank('a') && !blank('0') && !blank('\u{200b}'));
    for c in ['\u{9}', '\u{d}', '\u{85}', '\u{1680}', '\u{2028}', '\u{202f}', '\u{205f}', 'x', '_'] {
        assert_eq!(blank(c), c.is_whitespace());
    }
}

#[test]
fn connect_four_moves_as_text() {
    let g = ConnectFour::new(&Color::B);
    assert_eq!(g.parse_move("4"), Some((3, Color::B)));
    assert_eq!(g.parse_move("1"), Some((0, Color::B)));
    assert_eq!(g.parse_move("+7"), Some((6, Color::B)));
    assert_eq!(g.parse_move("12"), Some((11, Color::B)));
    assert_eq!(g.parse_move("0"), None);
    assert_eq!(g.parse_move(""), None);
    assert_eq!(g.parse_move("four"), None);
    assert_eq!(g.parse_move(" 4"), None);
    assert_eq!(g.move_text(&(3, Color::B)), "4");
    for m in g.possible_moves() {
        let m = *m.valid_move();
        assert_eq!(g.parse_move(&g.move_text(&m)), Some(m));
    }
}

#[test]
fn dots_moves_as_text() {
    let g = Dots::new(&DotsPlayer::A);
    assert_eq!(g.parse_move("H 1 0"), Some(DotsMove::H(1, 0)));
    assert_eq!(g.parse_move("h 2 1"), Some(DotsMove::H(2, 1)));
    assert_eq!(g.parse_move("V 0 2"), Some(DotsMove::V(0, 2)));
    assert_eq!(g.parse_move("v 10 20"), Some(DotsMove::V(10, 20)));
    assert_eq!(g.parse_move("H 1 0 and more"), Some(DotsMove::H(1, 0)));
    assert_eq!(g.parse_move("H 1"), None);
    assert_eq!(g.parse_move("H"), None);
    assert_eq!(g.parse_move(""), None);
    assert_eq!(g.parse_move("X 1 1"), None);
    assert_eq!(g.parse_move("HH 1 1"), None);
    assert_eq!(g.parse_move("H  1 1"), None);
    assert_eq!(g.parse_move("H 1 x"), None);
    assert_eq!(g.parse_move(" H 1 1"), None);
    assert_eq!(g.move_text(&DotsMove::H(2, 1)), "H 2 1");
    assert_eq!(g.move_text(&DotsMove::V(0, 2)), "V 0 2");
    for m in g.possible_moves() {
        let m = *m.valid_move();
        assert_eq!(g.parse_move(&g.move_text(&m)), Some(m));
    }
}

#[test]
fn tic_tac_toe_moves_as_text() {
    let g = TicTacToe::new(&Marker::O);
    assert_eq!(g.parse_move("1 2"), Some((1, 2, Marker::O)));
    assert_eq!(g.parse_move("  0\t2  "), Some((0, 2, Marker::O)));
    assert_eq!(g.parse_move("2 2 7 x"), Some((2, 2, Marker::O)));
    assert_eq!(g.parse_move("5 9"), Some((5, 9, Marker::O)));
    assert_eq!(g.parse_move("1"), None);
    assert_eq!(g.parse_move(""), None);
    assert_eq!(g.parse_move("   "), None);
    assert_eq!(g.parse_move("a b"), None);
    assert_eq!(g.parse_move("1 b"), None);
    assert_eq!(g.move_text(&(2, 0, Marker::O)), "2 0");
    for m in g.possible_moves() {
        let m = *m.valid_move();
        assert_eq!(g.parse_move(&g.move_text(&m)), Some(m));
    }
}

#[test]
fn trivial_moves_as_text() {
    let g = TrivialGame::new(&Player::A);
    assert_eq!(g.parse_move("anything"), Some(()));
    assert_eq!(g.move_text(&()), "");
    assert_eq!(g.parse_move(&g.move_text(&())), Some(()));
}
