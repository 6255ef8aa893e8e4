use varchess::ai::{axis_value, mat_pos_score, minmax, move_value, piece_value, play_out, pos_value, random_move};
use varchess::board::Board;
use varchess::game::{invert_color, standard_board};
use varchess::piece::{Action, Color, PawnStatus, Piece};
use varchess::notation::move_notation;
use varchess::pos::Pos;

#[test]
fn depth_3_fork() {
    let mut board = standard_board();
    board = board.play(Color::White, Pos(6, 7), &vec![Action::Go(Pos(5, 5))]);
    board = board.play(Color::Black, Pos(4, 1), &vec![Action::Go(Pos(4, 3))]);
    board = board.play(Color::White, Pos(4, 6), &vec![Action::Go(Pos(4, 5))]);
    board = board.play(Color::Black, Pos(3, 1), &vec![Action::Go(Pos(3, 3))]);
    board = board.play(Color::White, Pos(5, 7), &vec![Action::Go(Pos(3, 5))]);
    board = board.play(Color::Black, Pos(6, 0), &vec![Action::Go(Pos(5, 2))]);
    board = board.play(Color::White, Pos(7, 6), &vec![Action::Go(Pos(7, 5))]);
    let (pos, actions) = minmax(&board, Color::Black, 3).unwrap();
    board = board.play(Color::Black, pos, &actions);
    assert_eq!(board.get(Pos(4, 4)), Some(Some((Color::Black, Piece::Pawn { orientation: Pos(0, 1), status: PawnStatus::CannotLeap }))));
    assert!(pos == Pos(4, 3) && actions == vec![Action::Go(Pos(4, 4))]);
}

fn lone_kings() -> Board {
    let mut board = Board::new(8, 8);
    board.set(Pos(4, 7), Some((Color::White, Piece::King)));
    board.set(Pos(4, 0), Some((Color::Black, Piece::King)));
    board
}

#[test]
fn minmax_without_candidates_is_none() {
    let mut board = Board::new(4, 4);
    board.set(Pos(0, 0), Some((Color::Black, Piece::King)));
    assert_eq!(minmax(&board, Color::White, 1), None);
    assert_eq!(minmax(&board, Color::White, 3), None);
}

#[test]
fn minmax_takes_free_queen() {
    let mut board = lone_kings();
    board.set(Pos(0, 7), Some((Color::White, Piece::Rook)));
    board.set(Pos(0, 2), Some((Color::Black, Piece::Queen)));
    let (pos, actions) = minmax(&board, Color::White, 2).unwrap();
    assert_eq!(pos, Pos(0, 7));
    assert_eq!(actions, vec![Action::Go(Pos(0, 2))]);
}

#[test]
fn random_move_without_candidates_is_none() {
    let mut board = Board::new(3, 3);
    board.set(Pos(1, 1), Some((Color::White, Piece::King)));
    assert_eq!(random_move(&board, Color::Black), None);
}

#[test]
fn random_move_single_candidate() {
    // a lone pawn blocked on one side has one move
    let mut board = Board::new(1, 4);
    board.set(Pos(0, 3), Some((Color::White, Piece::Pawn { orientation: Pos(0, -1), status: PawnStatus::CannotLeap })));
    for _ in 0..20 {
        assert_eq!(random_move(&board, Color::White), Some((Pos(0, 3), vec![Action::Go(Pos(0, 2))])));
    }
}

#[test]
fn random_move_is_a_candidate() {
    let board = standard_board();
    let moves = board.moves(Color::White, true);
    for _ in 0..20 {
        let (pos, actions) = random_move(&board, Color::White).unwrap();
        assert!(moves.iter().any(|(p, ms)| *p == pos && ms.contains(&actions)));
    }
}

#[test]
fn search_is_color_symmetric() {
    let white_first = play_out(standard_board(), Color::White, 2, 8);
    let black_first = play_out(invert_color(standard_board()), Color::Black, 2, 8);
    assert_eq!(white_first.len(), 8);
    assert_eq!(white_first, black_first);
}

#[test]
fn play_out_stops_without_moves() {
    let mut board = Board::new(4, 4);
    board.set(Pos(0, 0), Some((Color::Black, Piece::King)));
    assert_eq!(play_out(board, Color::White, 2, 10), vec![]);
}

#[test]
fn evaluation_values() {
    assert_eq!(piece_value(Piece::Bishop), 7);
    assert_eq!(piece_value(Piece::King), 2000);
    assert_eq!(axis_value(0, 8), 0);
    assert_eq!(axis_value(3, 8), 6);
    assert_eq!(axis_value(4, 8), 6);
    assert_eq!(axis_value(0, 1), 1);
    let mut board = Board::new(3, 3);
    board.set(Pos(1, 1), Some((Color::White, Piece::King)));
    assert_eq!(pos_value(&board, Pos(1, 1)), 4);
    assert_eq!(pos_value(&board, Pos(0, 1)), 0);
    // a half pawn weighs 2 * 2 * 2 units of centrality on a 3x3 board
    assert_eq!(mat_pos_score(&board, Color::White), 8 * 2000 + 4);
    assert_eq!(mat_pos_score(&board, Color::Black), -(8 * 2000 + 4));
    board.set(Pos(0, 0), Some((Color::Black, Piece::Pawn { orientation: Pos(0, 1), status: PawnStatus::CanLeap })));
    assert_eq!(mat_pos_score(&board, Color::White), 8 * 2000 + 4 - 8 * 2);
    assert_eq!(mat_pos_score(&standard_board(), Color::White), 0);
}

#[test]
fn move_values() {
    let mut board = lone_kings();
    board.set(Pos(0, 7), Some((Color::White, Piece::Rook)));
    board.set(Pos(0, 2), Some((Color::Black, Piece::Queen)));
    board.set(Pos(1, 7), Some((Color::White, Piece::Knight)));
    // wins a queen, counted as losing the rook
    assert_eq!(move_value(&board, Pos(0, 7), &vec![Action::Go(Pos(0, 2))]), 18 - 10);
    assert_eq!(move_value(&board, Pos(0, 7), &vec![Action::Go(Pos(0, 3))]), 0);
    assert_eq!(move_value(&board, Pos(0, 7), &vec![Action::Go(Pos(1, 7))]), -6);
    // a promotion is a gain
    assert_eq!(move_value(&board, Pos(0, 7), &vec![Action::Go(Pos(0, 3)), Action::Promotion(Piece::Queen)]), 18 - 10);
}

fn auto_play_text(board: Board, player: Color, depth: u32) -> String {
    let height = board.height();
    play_out(board, player, depth, 100)
        .iter()
        .map(|(pos, actions)| String::from_utf8(move_notation(height, *pos, actions)).unwrap())
        .collect::<Vec<String>>()
        .join(" ")
}

#[test]
fn color_invariant() {
    let board = standard_board();
    let pgn_moves1 = auto_play_text(board, Color::White, 3);
    let board = invert_color(standard_board());
    let pgn_moves2 = auto_play_text(board, Color::Black, 3);
    assert!(pgn_moves1 == pgn_moves2);
}

#[test]
fn random_move_skips_origins_without_candidates() {
    let mut board = Board::new(2, 4);
    board.set(Pos(0, 0), Some((Color::White, white_blocked())));
    board.set(Pos(1, 3), Some((Color::White, Piece::Pawn { orientation: Pos(0, -1), status: PawnStatus::CannotLeap })));
    for _ in 0..20 {
        assert_eq!(random_move(&board, Color::White), Some((Pos(1, 3), vec![Action::Go(Pos(1, 2))])));
    }
}

fn white_blocked() -> Piece {
    Piece::Pawn { orientation: Pos(0, -1), status: PawnStatus::CannotLeap }
}

#[test]
fn minmax_takes_a_move_when_all_score_alike() {
    // a lone king must move even when every reply scores the same
    let mut board = Board::new(3, 1);
    board.set(Pos(0, 0), Some((Color::White, Piece::King)));
    assert_eq!(minmax(&board, Color::White, 2), Some((Pos(0, 0), vec![Action::Go(Pos(1, 0))])));
}

#[test]
fn depth_one_choice_is_safe() {
    let board = standard_board();
    let (pos, actions) = minmax(&board, Color::White, 1).unwrap();
    assert!(move_value(&board, pos, &actions) >= 0);
}
