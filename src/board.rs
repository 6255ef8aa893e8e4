use vstd::prelude::*;
use crate::pos::{Pos, MAX_DIM, small};
use crate::piece::{Action, Color, Piece, piece_wf};
use crate::rules::{seqs_view, spec_piece_moves, moves_wf, lemma_filter_wf, last_go, en_passant_victim};
use crate::piece::PawnStatus;
use crate::pos::{pos_add, pos_scale};

verus! {

/// What stands on a square: nothing, or a piece of some color.
pub type Square = Option<(Color, Piece)>;

/// A rectangular grid of squares, stored row by row.
pub struct Board {
    width: usize,
    height: usize,
    squares: Vec<Square>,
}

/// The mathematical content of a board.
pub struct BoardView {
    pub width: int,
    pub height: int,
    pub squares: Seq<Square>,
}

impl View for Board {
    type V = BoardView;

    closed spec fn view(&self) -> BoardView {
        BoardView { width: self.width as int, height: self.height as int, squares: self.squares@ }
    }
}

pub open spec fn square_wf(s: Square) -> bool {
    match s {
        Some((_, p)) => piece_wf(p),
        None => true,
    }
}

/// Dimensions within bounds, one square per cell, every piece well formed.
pub open spec fn board_wf(b: BoardView) -> bool {
    &&& 1 <= b.width <= MAX_DIM
    &&& 1 <= b.height <= MAX_DIM
    &&& b.squares.len() == b.width * b.height
    &&& forall|i: int| 0 <= i < b.squares.len() ==> square_wf(#[trigger] b.squares[i])
}

pub open spec fn in_bounds(b: BoardView, p: Pos) -> bool {
    0 <= p.0 < b.width && 0 <= p.1 < b.height
}

/// Row-major index of a square.
pub open spec fn index_of(b: BoardView, p: Pos) -> int {
    p.0 + p.1 * b.width
}

/// The square at the given row-major index.
pub open spec fn pos_of(b: BoardView, i: int) -> Pos {
    Pos((i % b.width) as i32, (i / b.width) as i32)
}

/// `None` off the board; otherwise what stands on the square.
pub open spec fn spec_get(b: BoardView, p: Pos) -> Option<Square> {
    if in_bounds(b, p) {
        Some(b.squares[index_of(b, p)])
    } else {
        None
    }
}

pub proof fn lemma_index_in_range(b: BoardView, p: Pos)
    requires
        board_wf(b),
        in_bounds(b, p),
    ensures
        0 <= index_of(b, p) < b.squares.len(),
        pos_of(b, index_of(b, p)) == p,
{
    let (x, y, w, h) = (p.0 as int, p.1 as int, b.width, b.height);
    assert(0 <= x + y * w < w * h) by (nonlinear_arith)
        requires
            0 <= x < w,
            0 <= y < h,
    ;
    assert((x + y * w) % w == x && (x + y * w) / w == y) by (nonlinear_arith)
        requires
            0 <= x < w,
            0 <= y,
    {
        vstd::arithmetic::div_mod::lemma_fundamental_div_mod_converse(x + y * w, w, y, x);
    }
}

pub proof fn lemma_pos_of_in_bounds(b: BoardView, i: int)
    requires
        board_wf(b),
        0 <= i < b.squares.len(),
    ensures
        in_bounds(b, pos_of(b, i)),
        index_of(b, pos_of(b, i)) == i,
{
    let (w, h) = (b.width, b.height);
    assert(0 <= i % w < w && 0 <= i / w < h && (i % w) + (i / w) * w == i) by (nonlinear_arith)
        requires
            0 <= i < w * h,
            1 <= w,
    {
        vstd::arithmetic::div_mod::lemma_fundamental_div_mod(i, w);
        vstd::arithmetic::div_mod::lemma_div_pos_is_pos(i, w);
        vstd::arithmetic::div_mod::lemma_mod_pos_bound(i, w);
        vstd::arithmetic::div_mod::lemma_div_by_multiple_is_strongly_ordered(i, w * h, h, w);
        vstd::arithmetic::mul::lemma_mul_is_commutative(w, h);
    }
}


/// One action applied to the squares, with the mover standing on `st.1`.
pub open spec fn step(b: BoardView, color: Color, st: (Seq<Square>, Pos), a: Action) -> (
    Seq<Square>,
    Pos,
) {
    match a {
        Action::Go(d) => {
            let mover = st.0[index_of(b, st.1)];
            (st.0.update(index_of(b, st.1), None).update(index_of(b, d), mover), d)
        },
        Action::Take(t) => (st.0.update(index_of(b, t), None), st.1),
        Action::Promotion(k) => (st.0.update(index_of(b, st.1), Some((color, k))), st.1),
    }
}

/// The squares, and where the mover stands, after the given actions.
pub open spec fn apply_actions(b: BoardView, color: Color, origin: Pos, acts: Seq<Action>) -> (
    Seq<Square>,
    Pos,
)
    decreases acts.len(),
{
    if acts.len() == 0 {
        (b.squares, origin)
    } else {
        step(b, color, apply_actions(b, color, origin, acts.drop_last()), acts.last())
    }
}

/// Pawn statuses after a ply: the mover's from where it went, every other
/// piece's as a ply has passed.
pub open spec fn advance_square(s: Square, is_mover: bool, origin: Pos, target: Pos) -> Square {
    match s {
        Some((c, p)) => Some(
            (c, if is_mover {
                p.spec_moved(origin, target)
            } else {
                p.spec_begin_turn()
            }),
        ),
        None => None,
    }
}

pub open spec fn spec_play(b: BoardView, color: Color, origin: Pos, acts: Seq<Action>) -> BoardView {
    let st = apply_actions(b, color, origin, acts);
    BoardView {
        width: b.width,
        height: b.height,
        squares: Seq::new(
            b.squares.len(),
            |i: int| advance_square(st.0[i], i == index_of(b, st.1), origin, st.1),
        ),
    }
}

/// The actions stay on the board and promote to well-formed pieces.
pub open spec fn actions_wf(b: BoardView, acts: Seq<Action>) -> bool {
    forall|k: int|
        0 <= k < acts.len() ==> match #[trigger] acts[k] {
            Action::Go(d) => in_bounds(b, d),
            Action::Take(t) => in_bounds(b, t),
            Action::Promotion(p) => piece_wf(p),
        }
}

pub open spec fn occupied_by(b: BoardView, p: Pos, color: Color) -> bool {
    match spec_get(b, p) {
        Some(Some((c, _))) => c == color,
        _ => false,
    }
}

fn copy_squares(v: &Vec<Square>) -> (r: Vec<Square>)
    ensures
        r@ == v@,
{
    let mut r: Vec<Square> = Vec::new();
    let mut i: usize = 0;
    while i < v.len()
        invariant
            i <= v@.len(),
            r@ == v@.take(i as int),
        decreases v@.len() - i,
    {
        r.push(v[i]);
        i += 1;
        assert(r@ =~= v@.take(i as int));
    }
    assert(v@.take(v@.len() as int) =~= v@);
    r
}

impl Board {
    pub open spec fn wf(&self) -> bool {
        board_wf(self@)
    }

    /// An empty board.
    pub fn new(width: usize, height: usize) -> (r: Board)
        requires
            1 <= width <= MAX_DIM,
            1 <= height <= MAX_DIM,
        ensures
            r.wf(),
            r@.width == width,
            r@.height == height,
            forall|i: int| 0 <= i < r@.squares.len() ==> r@.squares[i].is_none(),
    {
        assert(width * height <= MAX_DIM * MAX_DIM) by (nonlinear_arith)
            requires
                1 <= width <= MAX_DIM,
                1 <= height <= MAX_DIM,
        ;
        let n = width * height;
        let mut squares: Vec<Square> = Vec::new();
        let mut i: usize = 0;
        while i < n
            invariant
                i <= n,
                squares@.len() == i,
                forall|j: int| 0 <= j < i ==> squares@[j].is_none(),
            decreases n - i,
        {
            squares.push(None);
            i += 1;
        }
        Board { width, height, squares }
    }

    /// A board from its squares, row by row.
    pub fn from_squares(width: usize, height: usize, squares: Vec<Square>) -> (r: Board)
        requires
            board_wf(BoardView { width: width as int, height: height as int, squares: squares@ }),
        ensures
            r.wf(),
            r@ == (BoardView { width: width as int, height: height as int, squares: squares@ }),
    {
        Board { width, height, squares }
    }

    /// The squares, row by row.
    pub fn squares(&self) -> (r: &Vec<Square>)
        ensures
            r@ == self@.squares,
    {
        &self.squares
    }

    pub fn width(&self) -> (r: usize)
        ensures
            r == self@.width,
    {
        self.width
    }

    pub fn height(&self) -> (r: usize)
        ensures
            r == self@.height,
    {
        self.height
    }

    pub fn in_bound(&self, pos: Pos) -> (r: bool)
        ensures
            r == in_bounds(self@, pos),
    {
        0 <= pos.0 && (pos.0 as usize) < self.width && 0 <= pos.1 && (pos.1 as usize) < self.height
    }

    fn index(&self, pos: Pos) -> (r: usize)
        requires
            self.wf(),
            in_bounds(self@, pos),
        ensures
            r == index_of(self@, pos),
            r < self@.squares.len(),
    {
        proof {
            lemma_index_in_range(self@, pos);
            let (y, w) = (pos.1 as int, self.width as int);
            assert(0 <= y * w <= MAX_DIM * MAX_DIM) by (nonlinear_arith)
                requires
                    0 <= y <= MAX_DIM,
                    0 <= w <= MAX_DIM,
            ;
        }
        (pos.0 as usize) + (pos.1 as usize) * self.width
    }

    /// What stands on `pos`: `None` off the board, `Some(None)` on an empty
    /// square.
    pub fn get(&self, pos: Pos) -> (r: Option<Square>)
        requires
            self.wf(),
        ensures
            r == spec_get(self@, pos),
            !in_bounds(self@, pos) ==> r.is_none(),
    {
        if !self.in_bound(pos) {
            return None;
        }
        Some(self.squares[self.index(pos)])
    }

    /// Puts `square` on `pos`.
    pub fn set(&mut self, pos: Pos, square: Square)
        requires
            old(self).wf(),
            in_bounds(old(self)@, pos),
            square_wf(square),
        ensures
            final(self).wf(),
            final(self)@ == (BoardView {
                squares: old(self)@.squares.update(index_of(old(self)@, pos), square),
                ..old(self)@
            }),
    {
        let i = self.index(pos);
        self.squares.set(i, square);
    }

    /// The board after `color` plays `actions` from `origin`. The receiver is
    /// left as it was.
    pub fn play(&self, color: Color, origin: Pos, actions: &Vec<Action>) -> (r: Board)
        requires
            self.wf(),
            occupied_by(self@, origin, color),
            actions_wf(self@, actions@),
        ensures
            r.wf(),
            r@ == spec_play(self@, color, origin, actions@),
    {
        let mut squares = copy_squares(&self.squares);
        let mut cur = origin;
        let mut k: usize = 0;
        while k < actions.len()
            invariant
                self.wf(),
                actions_wf(self@, actions@),
                k <= actions@.len(),
                (squares@, cur) == apply_actions(self@, color, origin, actions@.take(k as int)),
                in_bounds(self@, cur),
                squares@.len() == self@.squares.len(),
                forall|i: int| 0 <= i < squares@.len() ==> square_wf(#[trigger] squares@[i]),
            decreases actions@.len() - k,
        {
            let a = actions[k];
            assert(actions@.take(k as int + 1).drop_last() == actions@.take(k as int));
            match a {
                Action::Go(d) => {
                    let i = self.index(cur);
                    let j = self.index(d);
                    let mover = squares[i];
                    squares.set(i, None);
                    squares.set(j, mover);
                    cur = d;
                },
                Action::Take(t) => {
                    let j = self.index(t);
                    squares.set(j, None);
                },
                Action::Promotion(p) => {
                    let i = self.index(cur);
                    squares.set(i, Some((color, p)));
                },
            }
            k += 1;
        }
        assert(actions@.take(actions@.len() as int) == actions@);
        let ci = self.index(cur);
        let mut out: Vec<Square> = Vec::new();
        let mut i: usize = 0;
        while i < squares.len()
            invariant
                self.wf(),
                squares@.len() == self@.squares.len(),
                forall|j: int| 0 <= j < squares@.len() ==> square_wf(#[trigger] squares@[j]),
                i <= squares@.len(),
                out@.len() == i,
                in_bounds(self@, cur),
                in_bounds(self@, origin),
                ci == index_of(self@, cur),
                forall|j: int|
                    0 <= j < i ==> #[trigger] out@[j] == advance_square(
                        squares@[j],
                        j == ci,
                        origin,
                        cur,
                    ),
                forall|j: int| 0 <= j < i ==> square_wf(#[trigger] out@[j]),
            decreases squares@.len() - i,
        {
            let s = match squares[i] {
                Some((c, p)) => {
                    if i == ci {
                        Some((c, p.moved(origin, cur)))
                    } else {
                        Some((c, p.begin_turn()))
                    }
                },
                None => None,
            };
            out.push(s);
            i += 1;
        }
        let r = Board { width: self.width, height: self.height, squares: out };
        assert(r@.squares =~= spec_play(self@, color, origin, actions@).squares);
        r
    }

    /// Whether some candidate move of `color`'s opponent would take a king of
    /// `color`.
    pub fn king_attacked(&self, color: Color) -> (r: bool)
        requires
            self.wf(),
        ensures
            r == spec_king_attacked(self@, color),
        decreases 1int,
    {
        let cands = self.moves(color.next(), false);
        let mut i: usize = 0;
        while i < cands.len()
            invariant
                self.wf(),
                i <= cands@.len(),
                grouped_view(cands@) == spec_moves(self@, color.spec_next(), false),
                forall|i2: int, j2: int|
                    0 <= i2 < i && 0 <= j2 < grouped_view(cands@)[i2].1.len() ==> !hits_king(
                        self@,
                        color,
                        #[trigger] grouped_view(cands@)[i2].1[j2],
                    ),
            decreases cands@.len() - i,
        {
            let ms = &cands[i].1;
            assert(seqs_view(ms@) == grouped_view(cands@)[i as int].1);
            let mut j: usize = 0;
            while j < ms.len()
                invariant
                    self.wf(),
                    i < cands@.len(),
                    grouped_view(cands@) == spec_moves(self@, color.spec_next(), false),
                    j <= ms@.len(),
                    seqs_view(ms@) == grouped_view(cands@)[i as int].1,
                    forall|j2: int| 0 <= j2 < j ==> !hits_king(self@, color, #[trigger] seqs_view(ms@)[j2]),
                decreases ms@.len() - j,
            {
                let m = &ms[j];
                assert(seqs_view(ms@)[j as int] == m@);
                let mut k: usize = 0;
                while k < m.len()
                    invariant
                        self.wf(),
                        i < cands@.len(),
                        j < ms@.len(),
                        seqs_view(ms@) == grouped_view(cands@)[i as int].1,
                        seqs_view(ms@)[j as int] == m@,
                        grouped_view(cands@) == spec_moves(self@, color.spec_next(), false),
                        k <= m@.len(),
                        forall|k2: int| 0 <= k2 < k ==> !targets_king(self@, color, #[trigger] m@[k2]),
                    decreases m@.len() - k,
                {
                    let t = match m[k] {
                        Action::Go(t) => Some(t),
                        Action::Take(t) => Some(t),
                        Action::Promotion(_) => None,
                    };
                    if let Some(t) = t {
                        if let Some(Some((c, p))) = self.get(t) {
                            if c == color && p == Piece::King {
                                assert(targets_king(self@, color, m@[k as int]));
                                assert(hits_king(self@, color, m@));
                                assert(hits_king(self@, color, grouped_view(cands@)[i as int].1[j as int]));
                                return true;
                            }
                        }
                    }
                    k += 1;
                }
                j += 1;
            }
            i += 1;
        }
        assert(!spec_king_attacked(self@, color)) by {
            assert(grouped_view(cands@) == raw_upto(self@, color.spec_next(), self@.squares.len() as int));
        }
        false
    }

    /// The moves among `ms`, from `pos`, after which no king of `color` can be
    /// taken.
    fn safe_moves(&self, color: Color, pos: Pos, ms: Vec<Vec<Action>>) -> (r: Vec<Vec<Action>>)
        requires
            self.wf(),
            occupied_by(self@, pos, color),
            moves_wf(self@, seqs_view(ms@)),
        ensures
            seqs_view(r@) == seqs_view(ms@).filter(|m: Seq<Action>| safe_move(self@, color, pos, m)),
        decreases 2int,
    {
        let mut r: Vec<Vec<Action>> = Vec::new();
        let mut k: usize = 0;
        let ghost all = seqs_view(ms@);
        let ghost pred = |m: Seq<Action>| safe_move(self@, color, pos, m);
        assert(seqs_view(r@) =~= all.take(0).filter(pred)) by {
            reveal(Seq::filter);
        }
        while k < ms.len()
            invariant
                self.wf(),
                occupied_by(self@, pos, color),
                all == seqs_view(ms@),
                moves_wf(self@, all),
                pred == (|m: Seq<Action>| safe_move(self@, color, pos, m)),
                k <= ms@.len(),
                seqs_view(r@) == all.take(k as int).filter(pred),
            decreases ms@.len() - k,
        {
            assert(all[k as int] == ms@[k as int]@);
            assert(actions_wf(self@, all[k as int]));
            let after = self.play(color, pos, &ms[k]);
            let exposed = after.king_attacked(color);
            proof {
                assert(all.take(k as int + 1).drop_last() == all.take(k as int));
                assert(all.take(k as int + 1).last() == all[k as int]);
                reveal(Seq::filter);
            }
            if !exposed {
                crate::rules::push_move(&mut r, crate::rules::copy_actions(&ms[k]));
            }
            k += 1;
        }
        assert(all.take(ms@.len() as int) == all);
        r
    }

    /// Every square that a piece of `color` stands on, from the first to the
    /// last, with the candidates of that piece (possibly none). With
    /// `check_legality`, only the moves after which no king of `color` can be
    /// taken are kept.
    pub fn moves(&self, color: Color, check_legality: bool) -> (r: Vec<(Pos, Vec<Vec<Action>>)>)
        requires
            self.wf(),
        ensures
            grouped_view(r@) == spec_moves(self@, color, check_legality),
            grouped_wf(self@, color, grouped_view(r@)),
            origins_distinct(grouped_view(r@)),
        decreases if check_legality {
            3int
        } else {
            0int
        },
    {
        let mut res: Vec<(Pos, Vec<Vec<Action>>)> = Vec::new();
        let mut i: usize = 0;
        assert(grouped_view(res@) =~= Seq::empty());
        while i < self.squares.len()
            invariant
                self.wf(),
                i <= self@.squares.len(),
                grouped_view(res@) == moves_upto(self@, color, check_legality, i as int),
                grouped_wf(self@, color, grouped_view(res@)),
                origins_distinct(grouped_view(res@)),
                forall|k: int|
                    0 <= k < grouped_view(res@).len() ==> in_bounds(self@, (#[trigger] grouped_view(res@)[k]).0)
                        && index_of(self@, grouped_view(res@)[k].0) < i,
            decreases self@.squares.len() - i,
        {
            if let Some((piece_color, piece)) = self.squares[i] {
                if piece_color == color {
                    proof {
                        lemma_pos_of_in_bounds(self@, i as int);
                        assert(square_wf(self@.squares[i as int]));
                    }
                    let pos = Pos((i % self.width) as i32, (i / self.width) as i32);
                    let mut ms = piece.moves(self, pos, color);
                    let ghost raw = seqs_view(ms@);
                    proof {
                        assert(pos == pos_of(self@, i as int));
                        assert(spec_get(self@, pos) == Some(self@.squares[i as int]));
                        assert(occupied_by(self@, pos, color));
                    }
                    if check_legality {
                        ms = self.safe_moves(color, pos, ms);
                        proof {
                            lemma_filter_wf(self@, raw, |m: Seq<Action>| safe_move(self@, color, pos, m));
                        }
                    }
                    let ghost before = grouped_view(res@);
                    let ghost v = seqs_view(ms@);
                    res.push((pos, ms));
                    proof {
                        let g = grouped_view(res@);
                        assert(g =~= before.push((pos, v)));
                        assert forall|k: int| 0 <= k < g.len() implies {
                            &&& occupied_by(self@, (#[trigger] g[k]).0, color)
                            &&& moves_wf(self@, g[k].1)
                        } by {
                            if k < before.len() {
                                assert(g[k] == before[k]);
                            }
                        }
                        assert forall|k: int| 0 <= k < g.len() implies in_bounds(self@, (#[trigger] g[k]).0)
                            && index_of(self@, g[k].0) < i + 1 by {
                            if k < before.len() {
                                assert(g[k] == before[k]);
                            }
                        }
                        assert forall|x: int, y: int| 0 <= x < y < g.len() implies g[x].0 != g[y].0 by {
                            if y < before.len() {
                                assert(g[x] == before[x] && g[y] == before[y]);
                            } else {
                                assert(g[x] == before[x]);
                                assert(index_of(self@, before[x].0) < i);
                            }
                        }
                    }
                }
            }
            i += 1;
        }
        res
    }
}

/// The action aims at a king of `color`.
pub open spec fn targets_king(b: BoardView, color: Color, a: Action) -> bool {
    match a {
        Action::Go(t) => spec_get(b, t) == Some(Some((color, Piece::King))),
        Action::Take(t) => spec_get(b, t) == Some(Some((color, Piece::King))),
        Action::Promotion(_) => false,
    }
}

pub open spec fn hits_king(b: BoardView, color: Color, m: Seq<Action>) -> bool {
    exists|k: int| 0 <= k < m.len() && targets_king(b, color, #[trigger] m[k])
}

pub open spec fn grouped_view(v: Seq<(Pos, Vec<Vec<Action>>)>) -> Seq<(Pos, Seq<Seq<Action>>)> {
    v.map_values(|e: (Pos, Vec<Vec<Action>>)| (e.0, seqs_view(e.1@)))
}

/// The entry for a piece of `color` on `p` with candidates `ms`.
pub open spec fn origin_entry(p: Pos, ms: Seq<Seq<Action>>) -> Seq<(Pos, Seq<Seq<Action>>)> {
    seq![(p, ms)]
}

/// No origin appears twice.
pub open spec fn origins_distinct(g: Seq<(Pos, Seq<Seq<Action>>)>) -> bool {
    forall|x: int, y: int| 0 <= x < y < g.len() ==> g[x].0 != g[y].0
}

/// The candidates of the piece on the square of index `i`, if it is of `color`.
pub open spec fn piece_moves_at(b: BoardView, color: Color, i: int) -> Option<Seq<Seq<Action>>> {
    match b.squares[i] {
        Some((c, piece)) => if c == color {
            Some(spec_piece_moves(b, piece, pos_of(b, i), color))
        } else {
            None
        },
        None => None,
    }
}

pub open spec fn raw_upto(b: BoardView, color: Color, n: int) -> Seq<(Pos, Seq<Seq<Action>>)>
    decreases n,
{
    if n <= 0 {
        Seq::empty()
    } else {
        raw_upto(b, color, n - 1) + match piece_moves_at(b, color, n - 1) {
            Some(ms) => origin_entry(pos_of(b, n - 1), ms),
            None => Seq::empty(),
        }
    }
}

/// Some candidate move of the opponent takes a king of `color`.
pub open spec fn spec_king_attacked(b: BoardView, color: Color) -> bool {
    let cands = raw_upto(b, color.spec_next(), b.squares.len() as int);
    exists|i: int, j: int|
        0 <= i < cands.len() && 0 <= j < cands[i].1.len() && hits_king(b, color, #[trigger] cands[i].1[j])
}

/// After the move, no king of `color` can be taken.
pub open spec fn safe_move(b: BoardView, color: Color, pos: Pos, m: Seq<Action>) -> bool {
    !spec_king_attacked(spec_play(b, color, pos, m), color)
}

pub open spec fn checked_upto(b: BoardView, color: Color, n: int) -> Seq<(Pos, Seq<Seq<Action>>)>
    decreases n,
{
    if n <= 0 {
        Seq::empty()
    } else {
        checked_upto(b, color, n - 1) + match piece_moves_at(b, color, n - 1) {
            Some(ms) => origin_entry(
                pos_of(b, n - 1),
                ms.filter(|m: Seq<Action>| safe_move(b, color, pos_of(b, n - 1), m)),
            ),
            None => Seq::empty(),
        }
    }
}

pub open spec fn moves_upto(b: BoardView, color: Color, check: bool, n: int) -> Seq<
    (Pos, Seq<Seq<Action>>),
> {
    if check {
        checked_upto(b, color, n)
    } else {
        raw_upto(b, color, n)
    }
}

/// The candidates of `color`, by origin in board order.
pub open spec fn spec_moves(b: BoardView, color: Color, check: bool) -> Seq<(Pos, Seq<Seq<Action>>)> {
    moves_upto(b, color, check, b.squares.len() as int)
}

/// Each origin holds a piece of `color`, and its candidates can be played.
pub open spec fn grouped_wf(b: BoardView, color: Color, g: Seq<(Pos, Seq<Seq<Action>>)>) -> bool {
    forall|i: int|
        0 <= i < g.len() ==> {
            &&& occupied_by(b, (#[trigger] g[i]).0, color)
            &&& moves_wf(b, g[i].1)
        }
}


pub proof fn lemma_mover_ends_on_last_go(b: BoardView, color: Color, origin: Pos, acts: Seq<Action>)
    requires
        in_bounds(b, origin),
        actions_wf(b, acts),
    ensures
        apply_actions(b, color, origin, acts).1 == last_go(origin, acts),
        in_bounds(b, last_go(origin, acts)),
    decreases acts.len(),
{
    if acts.len() > 0 {
        let t = acts.drop_last();
        assert forall|k: int| 0 <= k < t.len() implies match #[trigger] t[k] {
            Action::Go(d) => in_bounds(b, d),
            Action::Take(d) => in_bounds(b, d),
            Action::Promotion(p) => piece_wf(p),
        } by {
            assert(t[k] == acts[k]);
        }
        lemma_mover_ends_on_last_go(b, color, origin, t);
        assert(match acts[acts.len() - 1] {
            Action::Go(d) => in_bounds(b, d),
            Action::Take(d) => in_bounds(b, d),
            Action::Promotion(p) => piece_wf(p),
        });
    }
}

/// The en passant window lasts one ply: after any move, the only pawn that can
/// be taken en passant is the one that has just moved.
pub proof fn lemma_en_passant_window(
    b: BoardView,
    color: Color,
    origin: Pos,
    acts: Seq<Action>,
    q: Pos,
    taker: Color,
)
    requires
        board_wf(b),
        in_bounds(b, origin),
        actions_wf(b, acts),
        en_passant_victim(spec_play(b, color, origin, acts), q, taker),
    ensures
        q == last_go(origin, acts),
{
    lemma_mover_ends_on_last_go(b, color, origin, acts);
    let cur = last_go(origin, acts);
    let b2 = spec_play(b, color, origin, acts);
    assert(in_bounds(b, q));
    lemma_index_in_range(b, q);
    lemma_index_in_range(b, cur);
    if q != cur {
        assert(index_of(b, q) != index_of(b, cur));
        assert(b2.squares[index_of(b, q)] == advance_square(
            apply_actions(b, color, origin, acts).0[index_of(b, q)],
            false,
            origin,
            cur,
        ));
    }
}

proof fn lemma_untouched(b: BoardView, color: Color, origin: Pos, acts: Seq<Action>, q: Pos)
    requires
        board_wf(b),
        in_bounds(b, origin),
        in_bounds(b, q),
        actions_wf(b, acts),
        q != origin,
        forall|k: int| 0 <= k < acts.len() ==> #[trigger] acts[k] != Action::Go(q) && acts[k] != Action::Take(q),
    ensures
        apply_actions(b, color, origin, acts).0[index_of(b, q)] == b.squares[index_of(b, q)],
        apply_actions(b, color, origin, acts).0.len() == b.squares.len(),
        apply_actions(b, color, origin, acts).1 != q,
        in_bounds(b, apply_actions(b, color, origin, acts).1),
    decreases acts.len(),
{
    if acts.len() > 0 {
        let t = acts.drop_last();
        assert forall|k: int| 0 <= k < t.len() implies match #[trigger] t[k] {
            Action::Go(d) => in_bounds(b, d),
            Action::Take(d) => in_bounds(b, d),
            Action::Promotion(p) => piece_wf(p),
        } by {
            assert(t[k] == acts[k]);
        }
        assert forall|k: int| 0 <= k < t.len() implies #[trigger] t[k] != Action::Go(q) && t[k] != Action::Take(q) by {
            assert(t[k] == acts[k]);
        }
        lemma_untouched(b, color, origin, t, q);
        let st = apply_actions(b, color, origin, t);
        let a = acts[acts.len() - 1];
        assert(match a {
            Action::Go(d) => in_bounds(b, d),
            Action::Take(d) => in_bounds(b, d),
            Action::Promotion(p) => piece_wf(p),
        });
        assert(a != Action::Go(q) && a != Action::Take(q));
        lemma_index_in_range(b, q);
        lemma_index_in_range(b, st.1);
        assert(index_of(b, st.1) != index_of(b, q));
        match a {
            Action::Go(d) => {
                lemma_index_in_range(b, d);
                assert(index_of(b, d) != index_of(b, q));
            },
            Action::Take(d) => {
                lemma_index_in_range(b, d);
                assert(index_of(b, d) != index_of(b, q));
            },
            Action::Promotion(_) => {},
        }
    }
}

/// A pawn that has just leaped, and that the next move neither moves nor
/// takes, can no longer leap nor be taken en passant afterwards.
pub proof fn lemma_untouched_leaper_expires(
    b: BoardView,
    color: Color,
    origin: Pos,
    acts: Seq<Action>,
    q: Pos,
    c: Color,
    o: Pos,
)
    requires
        board_wf(b),
        in_bounds(b, origin),
        actions_wf(b, acts),
        q != origin,
        spec_get(b, q) == Some(Some((c, Piece::Pawn { orientation: o, status: PawnStatus::JustLeaped }))),
        forall|k: int| 0 <= k < acts.len() ==> #[trigger] acts[k] != Action::Go(q) && acts[k] != Action::Take(q),
    ensures
        spec_get(spec_play(b, color, origin, acts), q) == Some(
            Some((c, Piece::Pawn { orientation: o, status: PawnStatus::CannotLeap })),
        ),
{
    lemma_untouched(b, color, origin, acts, q);
    let st = apply_actions(b, color, origin, acts);
    lemma_index_in_range(b, q);
    lemma_index_in_range(b, st.1);
    assert(index_of(b, st.1) != index_of(b, q));
}


/// A pawn that moves to `x` without promoting, by a step, a capture or an en
/// passant capture, stands on `x` afterwards: just leaped if it went two
/// steps forward, otherwise no longer able to leap.
pub proof fn lemma_pawn_move_status(
    b: BoardView,
    color: Color,
    origin: Pos,
    o: Pos,
    status: PawnStatus,
    acts: Seq<Action>,
    x: Pos,
    y: Pos,
)
    requires
        board_wf(b),
        spec_get(b, origin) == Some(Some((color, Piece::Pawn { orientation: o, status }))),
        actions_wf(b, acts),
        acts == seq![Action::Go(x)] || (acts == seq![Action::Go(x), Action::Take(y)] && y != x),
    ensures
        spec_get(spec_play(b, color, origin, acts), x) == Some(
            Some(
                (
                    color,
                    Piece::Pawn {
                        orientation: o,
                        status: if pos_add(origin, pos_scale(o, 2)) == x {
                            PawnStatus::JustLeaped
                        } else {
                            PawnStatus::CannotLeap
                        },
                    },
                ),
            ),
        ),
{
    assert(acts[0] == Action::Go(x));
    assert(in_bounds(b, x));
    lemma_index_in_range(b, origin);
    lemma_index_in_range(b, x);
    let one = seq![Action::Go(x)];
    assert(one.drop_last() =~= Seq::<Action>::empty());
    assert(apply_actions(b, color, origin, one.drop_last()) == (b.squares, origin));
    assert(one.last() == Action::Go(x));
    let st1 = apply_actions(b, color, origin, one);
    assert(st1 == step(b, color, (b.squares, origin), Action::Go(x)));
    assert(st1.0[index_of(b, x)] == b.squares[index_of(b, origin)]);
    if acts.len() == 2 {
        assert(acts[1] == Action::Take(y));
        assert(in_bounds(b, y));
        lemma_index_in_range(b, y);
        assert(acts.drop_last() =~= one);
        assert(acts.last() == Action::Take(y));
        let st = apply_actions(b, color, origin, acts);
        assert(st == step(b, color, st1, Action::Take(y)));
        assert(index_of(b, y) != index_of(b, x));
        assert(st.0[index_of(b, x)] == b.squares[index_of(b, origin)]);
    } else {
        assert(acts =~= one);
    }
    let st = apply_actions(b, color, origin, acts);
    assert(st.1 == x);
    let b2 = spec_play(b, color, origin, acts);
    assert(b2.squares[index_of(b, x)] == advance_square(st.0[index_of(b, x)], true, origin, x));
}


/// En passant is offered only on the very next move: a pawn that has just
/// leaped, and that neither of the next two moves touches, cannot then be
/// taken en passant.
pub proof fn lemma_en_passant_expires(
    b0: BoardView,
    q: Pos,
    c: Color,
    o: Pos,
    c1: Color,
    o1: Pos,
    a1: Seq<Action>,
    c2: Color,
    o2: Pos,
    a2: Seq<Action>,
    taker: Color,
)
    requires
        board_wf(b0),
        spec_get(b0, q) == Some(Some((c, Piece::Pawn { orientation: o, status: PawnStatus::JustLeaped }))),
        in_bounds(b0, o1),
        actions_wf(b0, a1),
        o1 != q,
        forall|k: int| 0 <= k < a1.len() ==> #[trigger] a1[k] != Action::Go(q) && a1[k] != Action::Take(q),
        in_bounds(spec_play(b0, c1, o1, a1), o2),
        actions_wf(spec_play(b0, c1, o1, a1), a2),
        o2 != q,
        forall|k: int| 0 <= k < a2.len() ==> #[trigger] a2[k] != Action::Go(q) && a2[k] != Action::Take(q),
    ensures
        !en_passant_victim(spec_play(spec_play(b0, c1, o1, a1), c2, o2, a2), q, taker),
{
    lemma_untouched_leaper_expires(b0, c1, o1, a1, q, c, o);
    let b1 = spec_play(b0, c1, o1, a1);
    crate::symmetry::lemma_play_wf(b0, c1, o1, a1);
    lemma_untouched(b1, c2, o2, a2, q);
    let st = apply_actions(b1, c2, o2, a2);
    lemma_index_in_range(b1, q);
    lemma_index_in_range(b1, st.1);
    assert(index_of(b1, st.1) != index_of(b1, q));
}

} // verus!
