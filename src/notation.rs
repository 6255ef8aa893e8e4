//! Algebraic-style text for moves, as ASCII bytes.
use vstd::prelude::*;
use crate::pos::{Pos, MAX_DIM};
use crate::piece::{Action, Piece};

verus! {

/// File names in the manner of spreadsheet columns: `a` to `z`, then `aa`,
/// `ab` and so on.
pub open spec fn file_name(n: nat) -> Seq<u8>
    decreases n,
{
    if n < 26 {
        seq![(97 + n) as u8]
    } else {
        file_name((n / 26 - 1) as nat).push((97 + n % 26) as u8)
    }
}

/// `n` in decimal.
pub open spec fn decimal(n: nat) -> Seq<u8>
    decreases n,
{
    if n < 10 {
        seq![(48 + n) as u8]
    } else {
        decimal(n / 10).push((48 + n % 10) as u8)
    }
}

/// A square's name: its file, then its rank counted from the bottom row, 1
/// for the last.
pub open spec fn square_name(height: int, p: Pos) -> Seq<u8> {
    file_name(p.0 as nat) + decimal((height - p.1) as nat)
}

pub open spec fn piece_letter(p: Piece) -> u8 {
    match p {
        Piece::Pawn { .. } => 80,
        Piece::Knight => 78,
        Piece::Bishop => 66,
        Piece::Rook => 82,
        Piece::Queen => 81,
        Piece::King => 75,
    }
}

/// The notation of the actions after `acts`, and where the mover ends: each
/// `Go` names the squares it leaves and reaches, each promotion is `=` and
/// the new piece's letter; a `Take` is not written.
pub open spec fn spec_notation(height: int, pos: Pos, acts: Seq<Action>) -> (Seq<u8>, Pos)
    decreases acts.len(),
{
    if acts.len() == 0 {
        (Seq::empty(), pos)
    } else {
        let (text, cur) = spec_notation(height, pos, acts.drop_last());
        match acts.last() {
            Action::Go(d) => (text + square_name(height, cur) + square_name(height, d), d),
            Action::Take(_) => (text, cur),
            Action::Promotion(p) => (text + seq![61u8, piece_letter(p)], cur),
        }
    }
}

/// The squares that a notation names lie on a board of `height` rows.
pub open spec fn nameable(height: int, p: Pos) -> bool {
    0 <= p.0 <= MAX_DIM && 0 <= p.1 < height
}

fn push_file(n: u32, out: &mut Vec<u8>)
    ensures
        final(out)@ == old(out)@ + file_name(n as nat),
    decreases n,
{
    if n >= 26 {
        push_file(n / 26 - 1, out);
    }
    out.push(97 + (n % 26) as u8);
    assert(final(out)@ =~= old(out)@ + file_name(n as nat));
}

fn push_decimal(n: u32, out: &mut Vec<u8>)
    ensures
        final(out)@ == old(out)@ + decimal(n as nat),
    decreases n,
{
    if n >= 10 {
        push_decimal(n / 10, out);
    }
    out.push(48 + (n % 10) as u8);
    assert(final(out)@ =~= old(out)@ + decimal(n as nat));
}

fn push_square(height: usize, p: Pos, out: &mut Vec<u8>)
    requires
        height <= MAX_DIM,
        nameable(height as int, p),
    ensures
        final(out)@ == old(out)@ + square_name(height as int, p),
{
    push_file(p.0 as u32, out);
    push_decimal((height as i32 - p.1) as u32, out);
    assert(final(out)@ =~= old(out)@ + square_name(height as int, p));
}

/// The notation of the move from `pos` made of `actions`, on a board of
/// `height` rows.
pub fn move_notation(height: usize, pos: Pos, actions: &Vec<Action>) -> (r: Vec<u8>)
    requires
        height <= MAX_DIM,
        nameable(height as int, pos),
        forall|k: int|
            0 <= k < actions@.len() ==> match #[trigger] actions@[k] {
                Action::Go(d) => nameable(height as int, d),
                _ => true,
            },
    ensures
        r@ == spec_notation(height as int, pos, actions@).0,
{
    let mut out: Vec<u8> = Vec::new();
    let mut cur = pos;
    let mut k: usize = 0;
    while k < actions.len()
        invariant
            height <= MAX_DIM,
            nameable(height as int, cur),
            forall|j: int|
                0 <= j < actions@.len() ==> match #[trigger] actions@[j] {
                    Action::Go(d) => nameable(height as int, d),
                    _ => true,
                },
            k <= actions@.len(),
            (out@, cur) == spec_notation(height as int, pos, actions@.take(k as int)),
        decreases actions@.len() - k,
    {
        assert(actions@.take(k as int + 1).drop_last() == actions@.take(k as int));
        match actions[k] {
            Action::Go(d) => {
                push_square(height, cur, &mut out);
                push_square(height, d, &mut out);
                cur = d;
            },
            Action::Take(_) => {},
            Action::Promotion(p) => {
                let letter: u8 = match p {
                    Piece::Pawn { .. } => 80,
                    Piece::Knight => 78,
                    Piece::Bishop => 66,
                    Piece::Rook => 82,
                    Piece::Queen => 81,
                    Piece::King => 75,
                };
                let ghost before = out@;
                out.push(61);
                out.push(letter);
                assert(out@ =~= before + seq![61u8, piece_letter(p)]);
            },
        }
        k += 1;
    }
    assert(actions@.take(actions@.len() as int) == actions@);
    out
}

} // verus!
