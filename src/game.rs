use vstd::prelude::*;
use crate::pos::Pos;
use crate::piece::{Color, PawnStatus, Piece};
use crate::board::{Board, BoardView, Square, board_wf, square_wf};

verus! {

/// The back rank, file by file.
pub open spec fn back_rank(j: int) -> Piece {
    if j == 0 || j == 7 {
        Piece::Rook
    } else if j == 1 || j == 6 {
        Piece::Knight
    } else if j == 2 || j == 5 {
        Piece::Bishop
    } else if j == 3 {
        Piece::Queen
    } else {
        Piece::King
    }
}

/// The square of index `i` in the usual starting position: Black on the
/// first two rows moving down, White on the last two moving up.
pub open spec fn standard_square(i: int) -> Square {
    if 0 <= i < 8 {
        Some((Color::Black, back_rank(i)))
    } else if 8 <= i < 16 {
        Some((Color::Black, Piece::Pawn { orientation: Pos(0, 1), status: PawnStatus::CanLeap }))
    } else if 48 <= i < 56 {
        Some(
            (
                Color::White,
                Piece::Pawn { orientation: Pos(0, -1i32), status: PawnStatus::CanLeap },
            ),
        )
    } else if 56 <= i < 64 {
        Some((Color::White, back_rank(i - 56)))
    } else {
        None
    }
}

pub open spec fn swap_square(s: Square) -> Square {
    match s {
        Some((c, p)) => Some((c.spec_next(), p)),
        None => None,
    }
}

/// The board with every piece handed to the other side.
pub open spec fn spec_invert(b: BoardView) -> BoardView {
    BoardView { squares: b.squares.map_values(|s: Square| swap_square(s)), ..b }
}

/// The usual 8×8 starting position.
pub fn standard_board() -> (r: Board)
    ensures
        r.wf(),
        r@.width == 8,
        r@.height == 8,
        r@.squares == Seq::new(64, |i: int| standard_square(i)),
{
    let pieces: [Piece; 8] = [
        Piece::Rook,
        Piece::Knight,
        Piece::Bishop,
        Piece::Queen,
        Piece::King,
        Piece::Bishop,
        Piece::Knight,
        Piece::Rook,
    ];
    assert(forall|j: int| 0 <= j < 8 ==> pieces@[j] == back_rank(j));
    let mut squares: Vec<Square> = Vec::new();
    let mut i: usize = 0;
    while i < 64
        invariant
            i <= 64,
            squares@.len() == i,
            forall|j: int| 0 <= j < 8 ==> pieces@[j] == back_rank(j),
            forall|j: int| 0 <= j < i ==> squares@[j] == standard_square(j),
        decreases 64 - i,
    {
        let s = if i < 8 {
            Some((Color::Black, pieces[i]))
        } else if i < 16 {
            Some((Color::Black, Piece::Pawn { orientation: Pos(0, 1), status: PawnStatus::CanLeap }))
        } else if 48 <= i && i < 56 {
            Some((Color::White, Piece::Pawn { orientation: Pos(0, -1), status: PawnStatus::CanLeap }))
        } else if 56 <= i {
            Some((Color::White, pieces[i - 56]))
        } else {
            None
        };
        squares.push(s);
        i += 1;
    }
    assert(squares@ =~= Seq::new(64, |i: int| standard_square(i)));
    Board::from_squares(8, 8, squares)
}

/// The same board with every piece handed to the other side.
pub fn invert_color(board: Board) -> (r: Board)
    requires
        board.wf(),
    ensures
        r.wf(),
        r@ == spec_invert(board@),
{
    let src = board.squares();
    let mut squares: Vec<Square> = Vec::new();
    let mut i: usize = 0;
    while i < src.len()
        invariant
            board.wf(),
            src@ == board@.squares,
            i <= src@.len(),
            squares@.len() == i,
            forall|j: int| 0 <= j < i ==> squares@[j] == swap_square(src@[j]),
        decreases src@.len() - i,
    {
        let s = match src[i] {
            Some((color, piece)) => Some((color.next(), piece)),
            None => None,
        };
        squares.push(s);
        i += 1;
    }
    let ghost inv = spec_invert(board@);
    assert(squares@ =~= inv.squares);
    assert(forall|j: int| 0 <= j < inv.squares.len() ==> square_wf(#[trigger] inv.squares[j])) by {
        assert(forall|j: int| 0 <= j < board@.squares.len() ==> square_wf(#[trigger] board@.squares[j]));
    }
    Board::from_squares(board.width(), board.height(), squares)
}

} // verus!
