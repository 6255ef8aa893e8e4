use varchess::board::Board;
use varchess::game::{invert_color, standard_board};
use varchess::piece::{Action, Color, PawnStatus, Piece};
use varchess::pos::Pos;

fn white_pawn(status: PawnStatus) -> Piece {
    Piece::Pawn { orientation: Pos(0, -1), status }
}

fn black_pawn(status: PawnStatus) -> Piece {
    Piece::Pawn { orientation: Pos(0, 1), status }
}

#[test]
fn next_is_an_involution() {
    for c in [Color::White, Color::Black] {
        assert_eq!(c.next().next(), c);
        assert_ne!(c.next(), c);
    }
    assert_eq!(Color::White.next(), Color::Black);
}

#[test]
fn get_off_board_is_none() {
    let board = standard_board();
    for p in [Pos(-1, 0), Pos(0, -1), Pos(8, 0), Pos(0, 8), Pos(100, -100)] {
        assert_eq!(board.get(p), None);
    }
    assert_eq!(board.get(Pos(3, 3)), Some(None));
    assert_eq!(board.get(Pos(4, 7)), Some(Some((Color::White, Piece::King))));
    assert_eq!(board.get(Pos(3, 0)), Some(Some((Color::Black, Piece::Queen))));
}

#[test]
fn standard_board_layout() {
    let board = standard_board();
    assert_eq!(board.width(), 8);
    assert_eq!(board.height(), 8);
    assert_eq!(board.get(Pos(0, 0)), Some(Some((Color::Black, Piece::Rook))));
    assert_eq!(board.get(Pos(1, 7)), Some(Some((Color::White, Piece::Knight))));
    assert_eq!(board.get(Pos(5, 1)), Some(Some((Color::Black, black_pawn(PawnStatus::CanLeap)))));
    assert_eq!(board.get(Pos(5, 6)), Some(Some((Color::White, white_pawn(PawnStatus::CanLeap)))));
    assert_eq!(board.squares().iter().filter(|s| s.is_some()).count(), 32);
}

#[test]
fn invert_color_swaps_sides() {
    let board = invert_color(standard_board());
    assert_eq!(board.get(Pos(4, 7)), Some(Some((Color::Black, Piece::King))));
    assert_eq!(board.get(Pos(4, 0)), Some(Some((Color::White, Piece::King))));
    assert_eq!(board.get(Pos(4, 4)), Some(None));
}

#[test]
fn play_leaves_receiver_unchanged() {
    let board = standard_board();
    let a = board.play(Color::White, Pos(4, 6), &vec![Action::Go(Pos(4, 4))]);
    let b = board.play(Color::White, Pos(4, 6), &vec![Action::Go(Pos(4, 4))]);
    assert_eq!(a.squares(), b.squares());
    assert_eq!(board.get(Pos(4, 6)), Some(Some((Color::White, white_pawn(PawnStatus::CanLeap)))));
    assert_eq!(board.get(Pos(4, 4)), Some(None));
    assert_eq!(a.get(Pos(4, 6)), Some(None));
}

#[test]
fn pawn_step_ends_leap() {
    let board = standard_board();
    let b = board.play(Color::White, Pos(4, 6), &vec![Action::Go(Pos(4, 5))]);
    assert_eq!(b.get(Pos(4, 5)), Some(Some((Color::White, white_pawn(PawnStatus::CannotLeap)))));
    let ms = b.get(Pos(4, 5)).unwrap().unwrap().1.moves(&b, Pos(4, 5), Color::White);
    assert_eq!(ms, vec![vec![Action::Go(Pos(4, 4))]]);
}

#[test]
fn pawn_leap_lasts_one_ply() {
    let board = standard_board();
    let b = board.play(Color::White, Pos(4, 6), &vec![Action::Go(Pos(4, 4))]);
    assert_eq!(b.get(Pos(4, 4)), Some(Some((Color::White, white_pawn(PawnStatus::JustLeaped)))));
    let c = b.play(Color::Black, Pos(0, 1), &vec![Action::Go(Pos(0, 2))]);
    assert_eq!(c.get(Pos(4, 4)), Some(Some((Color::White, white_pawn(PawnStatus::CannotLeap)))));
}

#[test]
fn en_passant_only_right_after_leap() {
    let mut board = Board::new(8, 8);
    board.set(Pos(3, 4), Some((Color::Black, black_pawn(PawnStatus::CannotLeap))));
    board.set(Pos(4, 6), Some((Color::White, white_pawn(PawnStatus::CanLeap))));
    board.set(Pos(0, 0), Some((Color::Black, Piece::Rook)));
    let leaped = board.play(Color::White, Pos(4, 6), &vec![Action::Go(Pos(4, 4))]);
    let ms = leaped.get(Pos(3, 4)).unwrap().unwrap().1.moves(&leaped, Pos(3, 4), Color::Black);
    assert!(ms.contains(&vec![Action::Go(Pos(4, 5)), Action::Take(Pos(4, 4))]));
    assert!(ms.contains(&vec![Action::Go(Pos(3, 5))]));
    // the capture removes the leaper
    let taken = leaped.play(Color::Black, Pos(3, 4), &vec![Action::Go(Pos(4, 5)), Action::Take(Pos(4, 4))]);
    assert_eq!(taken.get(Pos(4, 4)), Some(None));
    assert_eq!(taken.get(Pos(4, 5)), Some(Some((Color::Black, black_pawn(PawnStatus::CannotLeap)))));
    // not taken at once: the window closes
    let later = leaped.play(Color::Black, Pos(0, 0), &vec![Action::Go(Pos(0, 1))]);
    let later = later.play(Color::White, Pos(4, 4), &vec![]);
    let ms = later.get(Pos(3, 4)).unwrap().unwrap().1.moves(&later, Pos(3, 4), Color::Black);
    assert_eq!(ms, vec![vec![Action::Go(Pos(3, 5))]]);
}

#[test]
fn promotion_gives_queen_and_knight() {
    let mut board = Board::new(4, 4);
    board.set(Pos(1, 1), Some((Color::White, white_pawn(PawnStatus::CannotLeap))));
    board.set(Pos(2, 0), Some((Color::Black, Piece::Rook)));
    let ms = white_pawn(PawnStatus::CannotLeap).moves(&board, Pos(1, 1), Color::White);
    assert_eq!(
        ms,
        vec![
            vec![Action::Go(Pos(1, 0)), Action::Promotion(Piece::Queen)],
            vec![Action::Go(Pos(1, 0)), Action::Promotion(Piece::Knight)],
            vec![Action::Go(Pos(2, 0)), Action::Promotion(Piece::Queen)],
            vec![Action::Go(Pos(2, 0)), Action::Promotion(Piece::Knight)],
        ]
    );
    let b = board.play(Color::White, Pos(1, 1), &ms[3]);
    assert_eq!(b.get(Pos(2, 0)), Some(Some((Color::White, Piece::Knight))));
    assert_eq!(b.get(Pos(1, 1)), Some(None));
}

#[test]
fn knight_never_takes_own() {
    let board = standard_board();
    let ms = Piece::Knight.moves(&board, Pos(1, 7), Color::White);
    assert_eq!(ms, vec![vec![Action::Go(Pos(0, 5))], vec![Action::Go(Pos(2, 5))]]);
}

#[test]
fn king_steps_to_open_squares() {
    let mut board = Board::new(3, 3);
    board.set(Pos(0, 0), Some((Color::White, Piece::King)));
    board.set(Pos(1, 0), Some((Color::White, Piece::Rook)));
    board.set(Pos(0, 1), Some((Color::Black, Piece::Rook)));
    let ms = Piece::King.moves(&board, Pos(0, 0), Color::White);
    assert_eq!(ms, vec![vec![Action::Go(Pos(0, 1))], vec![Action::Go(Pos(1, 1))]]);
}

#[test]
fn rook_rays_stop_at_first_piece() {
    let mut board = Board::new(5, 5);
    board.set(Pos(2, 2), Some((Color::White, Piece::Rook)));
    board.set(Pos(4, 2), Some((Color::Black, Piece::Knight)));
    board.set(Pos(2, 1), Some((Color::White, Piece::Knight)));
    board.set(Pos(0, 2), Some((Color::Black, Piece::Bishop)));
    let ms = Piece::Rook.moves(&board, Pos(2, 2), Color::White);
    assert_eq!(
        ms,
        vec![
            vec![Action::Go(Pos(3, 2))],
            vec![Action::Go(Pos(4, 2))],
            vec![Action::Go(Pos(1, 2))],
            vec![Action::Go(Pos(0, 2))],
            vec![Action::Go(Pos(2, 3))],
            vec![Action::Go(Pos(2, 4))],
        ]
    );
    let bm = Piece::Bishop.moves(&board, Pos(2, 2), Color::White);
    assert_eq!(bm.len(), 8);
    let qm = Piece::Queen.moves(&board, Pos(2, 2), Color::White);
    assert_eq!(qm.len(), 14);
}

#[test]
fn standard_opening_candidates() {
    let board = standard_board();
    let moves = board.moves(Color::White, true);
    let total: usize = moves.iter().map(|(_, ms)| ms.len()).sum();
    assert_eq!(total, 20);
    assert_eq!(moves.len(), 16);
    assert_eq!(moves[0].0, Pos(0, 6));
    assert!(!board.king_attacked(Color::White));
}

#[test]
fn legality_keeps_king_safe() {
    let mut board = Board::new(8, 8);
    board.set(Pos(4, 7), Some((Color::White, Piece::King)));
    board.set(Pos(4, 6), Some((Color::White, Piece::Rook)));
    board.set(Pos(4, 0), Some((Color::Black, Piece::Rook)));
    let unchecked = board.moves(Color::White, false);
    let checked = board.moves(Color::White, true);
    let rook = |ms: &Vec<(Pos, Vec<Vec<Action>>)>| ms.iter().find(|(p, _)| *p == Pos(4, 6)).unwrap().1.clone();
    assert_eq!(rook(&unchecked).len(), 13);
    // pinned: only moves along the file stay
    assert_eq!(rook(&checked).len(), 6);
    assert!(rook(&checked).contains(&vec![Action::Go(Pos(4, 0))]));
}

#[test]
fn moves_keep_origins_without_candidates() {
    let mut board = Board::new(1, 1);
    board.set(Pos(0, 0), Some((Color::White, white_pawn(PawnStatus::CannotLeap))));
    assert_eq!(board.moves(Color::White, false), vec![(Pos(0, 0), vec![])]);
    assert_eq!(board.moves(Color::White, true), vec![(Pos(0, 0), vec![])]);
    assert_eq!(board.moves(Color::Black, false), vec![]);
}

#[test]
fn moves_on_non_square_board() {
    let mut board = Board::new(3, 2);
    board.set(Pos(2, 1), Some((Color::White, Piece::King)));
    let moves = board.moves(Color::White, false);
    assert_eq!(moves.len(), 1);
    assert_eq!(moves[0].0, Pos(2, 1));
    assert_eq!(moves[0].1.len(), 3);
}
