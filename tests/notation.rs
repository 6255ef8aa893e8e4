use varchess::notation::move_notation;
use varchess::piece::{Action, Piece};
use varchess::pos::Pos;

fn text(height: usize, pos: Pos, actions: &Vec<Action>) -> String {
    String::from_utf8(move_notation(height, pos, actions)).unwrap()
}

#[test]
fn notation_of_plain_move() {
    assert_eq!(text(8, Pos(4, 6), &vec![Action::Go(Pos(4, 4))]), "e2e4");
    assert_eq!(text(8, Pos(6, 7), &vec![Action::Go(Pos(5, 5))]), "g1f3");
}

#[test]
fn notation_of_promotion_and_en_passant() {
    assert_eq!(text(8, Pos(1, 1), &vec![Action::Go(Pos(1, 0)), Action::Promotion(Piece::Queen)]), "b7b8=Q");
    assert_eq!(text(8, Pos(1, 1), &vec![Action::Go(Pos(2, 0)), Action::Promotion(Piece::Knight)]), "b7c8=N");
    assert_eq!(text(8, Pos(3, 3), &vec![Action::Go(Pos(4, 2)), Action::Take(Pos(4, 3))]), "d5e6");
}

#[test]
fn notation_of_wide_and_tall_boards() {
    assert_eq!(text(12, Pos(26, 0), &vec![Action::Go(Pos(27, 11))]), "aa12ab1");
    assert_eq!(text(30, Pos(51, 29), &vec![Action::Go(Pos(52, 28))]), "az1ba2");
    assert_eq!(text(8, Pos(0, 0), &vec![]), "");
}
