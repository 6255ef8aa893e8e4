use vstd::prelude::*;
use crate::pos::{Pos, MAX_DIM, pos_add, pos_scale};

verus! {

#[derive(Clone, Copy, Debug, PartialEq, Eq, Structural, Hash)]
pub enum Color {
    White,
    Black,
}

impl Color {
    pub open spec fn spec_next(self) -> Color {
        match self {
            Color::White => Color::Black,
            Color::Black => Color::White,
        }
    }

    /// The other color.
    pub fn next(self) -> (r: Color)
        ensures
            r == self.spec_next(),
            r != self,
            r.spec_next() == self,
    {
        match self {
            Color::White => Color::Black,
            Color::Black => Color::White,
        }
    }
}

/// Handing the turn over twice gives it back, and never leaves it where it was.
pub proof fn lemma_next_involutive(c: Color)
    ensures
        c.spec_next().spec_next() == c,
        c.spec_next() != c,
{
}

#[derive(Clone, Copy, Debug, PartialEq, Eq, Structural, Hash)]
pub enum PawnStatus {
    CanLeap,
    JustLeaped,
    CannotLeap,
}

#[derive(Clone, Copy, Debug, PartialEq, Eq, Structural, Hash)]
pub enum Piece {
    Pawn { orientation: Pos, status: PawnStatus },
    Knight,
    Bishop,
    Rook,
    Queen,
    King,
}

/// One effect of a move.
#[derive(Clone, Copy, Debug, PartialEq, Eq, Structural, Hash)]
pub enum Action {
    /// The mover goes to this square, capturing what stands there.
    Go(Pos),
    /// What stands on this square is removed; the mover stays.
    Take(Pos),
    /// The mover becomes this piece.
    Promotion(Piece),
}

/// A pawn's forward vector is bounded, so that the squares it looks at can be
/// computed.
pub open spec fn piece_wf(p: Piece) -> bool {
    match p {
        Piece::Pawn { orientation, .. } => -MAX_DIM <= orientation.0 <= MAX_DIM && -MAX_DIM
            <= orientation.1 <= MAX_DIM,
        _ => true,
    }
}

impl Piece {
    pub open spec fn spec_begin_turn(self) -> Piece {
        match self {
            Piece::Pawn { orientation, status } => Piece::Pawn {
                orientation,
                status: if status == PawnStatus::JustLeaped {
                    PawnStatus::CannotLeap
                } else {
                    status
                },
            },
            _ => self,
        }
    }

    pub open spec fn spec_moved(self, start: Pos, target: Pos) -> Piece {
        match self {
            Piece::Pawn { orientation, .. } => Piece::Pawn {
                orientation,
                status: if pos_add(start, pos_scale(orientation, 2)) == target {
                    PawnStatus::JustLeaped
                } else {
                    PawnStatus::CannotLeap
                },
            },
            _ => self,
        }
    }

    /// The piece as it stands once a ply has passed without it moving: a pawn
    /// that had just leaped can no longer be taken en passant.
    pub fn begin_turn(self) -> (r: Piece)
        ensures
            r == self.spec_begin_turn(),
    {
        match self {
            Piece::Pawn { orientation, status } => {
                let mut newstatus = status;
                if status == PawnStatus::JustLeaped {
                    newstatus = PawnStatus::CannotLeap;
                }
                Piece::Pawn { orientation, status: newstatus }
            },
            _ => self,
        }
    }

    /// The piece as it stands after moving from `start` to `target`: a pawn
    /// that went two steps forward has just leaped, any other pawn can no
    /// longer leap.
    pub fn moved(self, start: Pos, target: Pos) -> (r: Piece)
        requires
            piece_wf(self),
            crate::pos::small(start),
        ensures
            r == self.spec_moved(start, target),
    {
        match self {
            Piece::Pawn { orientation, .. } => {
                if start.add(orientation.scale(2)) == target {
                    Piece::Pawn { orientation, status: PawnStatus::JustLeaped }
                } else {
                    Piece::Pawn { orientation, status: PawnStatus::CannotLeap }
                }
            },
            _ => self,
        }
    }
}

} // verus!
