use vstd::prelude::*;

verus! {

/// Largest width or height of a board, and largest magnitude of a pawn's
/// forward vector: it keeps every coordinate computed during move
/// generation, and every evaluation, inside machine integers.
pub const MAX_DIM: i32 = 1024;

/// A square's coordinates, (file, rank). Validity is relative to a board.
#[derive(Clone, Copy, Debug, PartialEq, Eq, Structural, Hash)]
pub struct Pos(pub i32, pub i32);

/// Coordinates small enough that a few sums and doublings of them stay in `i32`.
pub open spec fn small(p: Pos) -> bool {
    -4 * MAX_DIM <= p.0 <= 4 * MAX_DIM && -4 * MAX_DIM <= p.1 <= 4 * MAX_DIM
}

pub open spec fn pos_add(a: Pos, b: Pos) -> Pos {
    Pos((a.0 + b.0) as i32, (a.1 + b.1) as i32)
}

pub open spec fn pos_scale(a: Pos, k: int) -> Pos {
    Pos((a.0 * k) as i32, (a.1 * k) as i32)
}

/// The two diagonal offsets on either side of `d`: `d` plus and minus `d`
/// turned a quarter.
pub open spec fn spec_neighbors(d: Pos) -> (Pos, Pos) {
    (Pos((d.0 - d.1) as i32, (d.1 + d.0) as i32), Pos((d.0 + d.1) as i32, (d.1 - d.0) as i32))
}

impl Pos {
    pub fn add(self, o: Pos) -> (r: Pos)
        requires
            small(self),
            small(o),
        ensures
            r == pos_add(self, o),
            r.0 == self.0 + o.0,
            r.1 == self.1 + o.1,
    {
        Pos(self.0 + o.0, self.1 + o.1)
    }

    pub fn scale(self, k: i32) -> (r: Pos)
        requires
            small(self),
            -2 <= k <= 2,
        ensures
            r == pos_scale(self, k as int),
            r.0 == self.0 * k,
            r.1 == self.1 * k,
    {
        proof {
            let (x, y) = (self.0 as int, self.1 as int);
            assert(-8 * MAX_DIM <= x * k <= 8 * MAX_DIM) by (nonlinear_arith)
                requires
                    -4 * MAX_DIM <= x <= 4 * MAX_DIM,
                    -2 <= k <= 2,
            ;
            assert(-8 * MAX_DIM <= y * k <= 8 * MAX_DIM) by (nonlinear_arith)
                requires
                    -4 * MAX_DIM <= y <= 4 * MAX_DIM,
                    -2 <= k <= 2,
            ;
        }
        Pos(self.0 * k, self.1 * k)
    }

    /// The two diagonal directions next to this one (for a pawn facing `self`,
    /// the directions in which it captures).
    pub fn neighbors(self) -> (r: (Pos, Pos))
        requires
            small(self),
        ensures
            r == spec_neighbors(self),
    {
        (Pos(self.0 - self.1, self.1 + self.0), Pos(self.0 + self.1, self.1 - self.0))
    }
}

/// The four diagonal unit directions.
pub open spec fn diags() -> Seq<Pos> {
    seq![Pos(1i32, 1i32), Pos(1i32, -1i32), Pos(-1i32, -1i32), Pos(-1i32, 1i32)]
}

/// The four orthogonal unit directions.
pub open spec fn lines() -> Seq<Pos> {
    seq![Pos(1i32, 0i32), Pos(0i32, -1i32), Pos(-1i32, 0i32), Pos(0i32, 1i32)]
}

/// The eight line-of-sight directions.
pub open spec fn los() -> Seq<Pos> {
    lines() + diags()
}

pub fn diag_dirs() -> (r: Vec<Pos>)
    ensures
        r@ == diags(),
{
    let r = vec![Pos(1, 1), Pos(1, -1), Pos(-1, -1), Pos(-1, 1)];
    assert(r@ =~= diags());
    r
}

pub fn line_dirs() -> (r: Vec<Pos>)
    ensures
        r@ == lines(),
{
    let r = vec![Pos(1, 0), Pos(0, -1), Pos(-1, 0), Pos(0, 1)];
    assert(r@ =~= lines());
    r
}

pub fn los_dirs() -> (r: Vec<Pos>)
    ensures
        r@ == los(),
{
    let r = vec![
        Pos(1, 0),
        Pos(0, -1),
        Pos(-1, 0),
        Pos(0, 1),
        Pos(1, 1),
        Pos(1, -1),
        Pos(-1, -1),
        Pos(-1, 1),
    ];
    assert(r@ =~= los());
    r
}

} // verus!
