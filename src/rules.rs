use vstd::prelude::*;
use crate::pos::{Pos, small, pos_add, pos_scale, spec_neighbors};
use crate::piece::{Action, Color, Piece, PawnStatus, piece_wf};
use crate::board::{Board, BoardView, Square, board_wf, in_bounds, spec_get, actions_wf};

verus! {

/// The action sequences of a list of candidate moves, as values.
pub open spec fn seqs_view(v: Seq<Vec<Action>>) -> Seq<Seq<Action>> {
    v.map_values(|a: Vec<Action>| a@)
}

fn single(a: Action) -> (r: Vec<Action>)
    ensures
        r@ == seq![a],
{
    let mut r: Vec<Action> = Vec::new();
    r.push(a);
    assert(r@ =~= seq![a]);
    r
}

pub(crate) fn push_move(res: &mut Vec<Vec<Action>>, m: Vec<Action>)
    ensures
        seqs_view(final(res)@) == seqs_view(old(res)@).push(m@),
{
    let ghost m_view = m@;
    res.push(m);
    assert(seqs_view(res@) =~= seqs_view(old(res)@).push(m_view));
}

/// A square that a knight or king of `color` may go to: on the board and not
/// held by its own side.
pub open spec fn open_target(b: BoardView, t: Pos, color: Color) -> bool {
    match spec_get(b, t) {
        Some(Some((c, _))) => c != color,
        Some(None) => true,
        None => false,
    }
}

/// One-step moves to `p` plus each offset, in order, where the target is open.
pub open spec fn step_moves(b: BoardView, p: Pos, color: Color, offs: Seq<Pos>) -> Seq<Seq<Action>>
    decreases offs.len(),
{
    if offs.len() == 0 {
        Seq::empty()
    } else {
        let rest = step_moves(b, p, color, offs.drop_last());
        let t = pos_add(offs.last(), p);
        if open_target(b, t, color) {
            rest.push(seq![Action::Go(t)])
        } else {
            rest
        }
    }
}

/// The knight's eight jumps.
pub open spec fn knight_offsets() -> Seq<Pos> {
    seq![
        Pos(-2i32, -1i32), Pos(-1i32, -2i32), Pos(-2i32, 1i32), Pos(1i32, -2i32),
        Pos(2i32, -1i32), Pos(-1i32, 2i32), Pos(2i32, 1i32), Pos(1i32, 2i32),
    ]
}

fn knight_offsets_vec() -> (r: Vec<Pos>)
    ensures
        r@ == knight_offsets(),
{
    let mut r: Vec<Pos> = Vec::new();
    let longs: [i32; 2] = [-2, 2];
    let shorts: [i32; 2] = [-1, 1];
    r.push(Pos(longs[0], shorts[0]));
    r.push(Pos(shorts[0], longs[0]));
    r.push(Pos(longs[0], shorts[1]));
    r.push(Pos(shorts[1], longs[0]));
    r.push(Pos(longs[1], shorts[0]));
    r.push(Pos(shorts[0], longs[1]));
    r.push(Pos(longs[1], shorts[1]));
    r.push(Pos(shorts[1], longs[1]));
    assert(r@ =~= knight_offsets());
    r
}

/// Every candidate is a single step to an open square.
pub open spec fn all_open_steps(b: BoardView, color: Color, ms: Seq<Seq<Action>>) -> bool {
    forall|k: int|
        0 <= k < ms.len() ==> exists|t: Pos| #[trigger]
            ms[k] == seq![Action::Go(t)] && open_target(b, t, color)
}

pub proof fn lemma_step_moves_open(b: BoardView, p: Pos, color: Color, offs: Seq<Pos>)
    ensures
        all_open_steps(b, color, step_moves(b, p, color, offs)),
    decreases offs.len(),
{
    if offs.len() > 0 {
        lemma_step_moves_open(b, p, color, offs.drop_last());
        let rest = step_moves(b, p, color, offs.drop_last());
        let t = pos_add(offs.last(), p);
        if open_target(b, t, color) {
            let ms = rest.push(seq![Action::Go(t)]);
            assert forall|k: int| 0 <= k < ms.len() implies exists|u: Pos| #[trigger]
                ms[k] == seq![Action::Go(u)] && open_target(b, u, color) by {
                if k == rest.len() {
                    assert(ms[k] == seq![Action::Go(t)]);
                } else {
                    assert(ms[k] == rest[k]);
                }
            }
        }
    }
}

fn step_moves_exec(board: &Board, pos: Pos, color: Color, offs: &Vec<Pos>) -> (r: Vec<Vec<Action>>)
    requires
        board.wf(),
        in_bounds(board@, pos),
        forall|k: int| 0 <= k < offs@.len() ==> small(#[trigger] offs@[k]),
    ensures
        seqs_view(r@) == step_moves(board@, pos, color, offs@),
{
    let mut res: Vec<Vec<Action>> = Vec::new();
    let mut k: usize = 0;
    while k < offs.len()
        invariant
            board.wf(),
            in_bounds(board@, pos),
            forall|j: int| 0 <= j < offs@.len() ==> small(#[trigger] offs@[j]),
            k <= offs@.len(),
            seqs_view(res@) == step_moves(board@, pos, color, offs@.take(k as int)),
        decreases offs@.len() - k,
    {
        let t = offs[k].add(pos);
        proof {
            assert(offs@.take(k as int + 1).drop_last() == offs@.take(k as int));
        }
        let ok = match board.get(t) {
            Some(Some((c, _))) => c != color,
            Some(None) => true,
            None => false,
        };
        if ok {
            push_move(&mut res, single(Action::Go(t)));
        }
        k += 1;
    }
    assert(offs@.take(offs@.len() as int) == offs@);
    res
}

pub open spec fn spec_knight_moves(b: BoardView, p: Pos, color: Color) -> Seq<Seq<Action>> {
    step_moves(b, p, color, knight_offsets())
}

pub open spec fn spec_king_moves(b: BoardView, p: Pos, color: Color) -> Seq<Seq<Action>> {
    step_moves(b, p, color, crate::pos::los())
}

/// The knight's jumps that land on the board, on a square not held by its own side.
pub fn knight_moves(board: &Board, pos: Pos, color: Color) -> (r: Vec<Vec<Action>>)
    requires
        board.wf(),
        in_bounds(board@, pos),
    ensures
        seqs_view(r@) == spec_knight_moves(board@, pos, color),
        all_open_steps(board@, color, seqs_view(r@)),
{
    let offs = knight_offsets_vec();
    proof {
        lemma_step_moves_open(board@, pos, color, knight_offsets());
    }
    step_moves_exec(board, pos, color, &offs)
}

/// The king's eight neighbouring squares that are on the board and not held
/// by its own side. There is no castling.
pub fn king_moves(board: &Board, pos: Pos, color: Color) -> (r: Vec<Vec<Action>>)
    requires
        board.wf(),
        in_bounds(board@, pos),
    ensures
        seqs_view(r@) == spec_king_moves(board@, pos, color),
        all_open_steps(board@, color, seqs_view(r@)),
{
    let offs = crate::pos::los_dirs();
    proof {
        lemma_step_moves_open(board@, pos, color, crate::pos::los());
    }
    step_moves_exec(board, pos, color, &offs)
}


/// The square `k` steps from `p` along `dir`.
pub open spec fn ray_cell(p: Pos, dir: Pos, k: int) -> Pos {
    Pos((p.0 + k * dir.0) as i32, (p.1 + k * dir.1) as i32)
}

/// The squares strictly between `p` and `k` steps along `dir` are empty.
pub open spec fn ray_clear(b: BoardView, p: Pos, dir: Pos, k: int) -> bool {
    forall|j: int| 1 <= j < k ==> spec_get(b, #[trigger] ray_cell(p, dir, j)) == Some(None::<(Color, Piece)>)
}

/// The ray from `p` along `dir` ends `k` steps away: the first square that is
/// off the board or occupied.
pub open spec fn ray_stop(b: BoardView, p: Pos, dir: Pos, k: int) -> bool {
    &&& k >= 1
    &&& ray_clear(b, p, dir, k)
    &&& spec_get(b, ray_cell(p, dir, k)) != Some(None::<(Color, Piece)>)
}

pub open spec fn ray_end(b: BoardView, p: Pos, dir: Pos) -> int {
    choose|k: int| ray_stop(b, p, dir, k)
}

pub open spec fn opponent_at(b: BoardView, t: Pos, color: Color) -> bool {
    match spec_get(b, t) {
        Some(Some((c, _))) => c != color,
        _ => false,
    }
}

/// The moves along one ray: every empty square before the end, and the end
/// itself when an opponent stands there.
pub open spec fn ray_moves(b: BoardView, p: Pos, color: Color, dir: Pos) -> Seq<Seq<Action>> {
    let k = ray_end(b, p, dir);
    let n = if opponent_at(b, ray_cell(p, dir, k), color) {
        k
    } else {
        k - 1
    };
    Seq::new(n as nat, |j: int| seq![Action::Go(ray_cell(p, dir, j + 1))])
}

pub open spec fn spec_los_moves(b: BoardView, p: Pos, color: Color, dirs: Seq<Pos>) -> Seq<
    Seq<Action>,
>
    decreases dirs.len(),
{
    if dirs.len() == 0 {
        Seq::empty()
    } else {
        spec_los_moves(b, p, color, dirs.drop_last()) + ray_moves(b, p, color, dirs.last())
    }
}

pub open spec fn unit_dir(d: Pos) -> bool {
    -1 <= d.0 <= 1 && -1 <= d.1 <= 1 && (d.0 != 0 || d.1 != 0)
}

pub proof fn lemma_ray_stop_unique(b: BoardView, p: Pos, dir: Pos, k1: int, k2: int)
    requires
        ray_stop(b, p, dir, k1),
        ray_stop(b, p, dir, k2),
    ensures
        k1 == k2,
{
    if k1 < k2 {
        assert(spec_get(b, ray_cell(p, dir, k1)) == Some(None::<(Color, Piece)>));
    } else if k2 < k1 {
        assert(spec_get(b, ray_cell(p, dir, k2)) == Some(None::<(Color, Piece)>));
    }
}

proof fn lemma_ray_next(p: Pos, dir: Pos, k: int)
    requires
        0 <= p.0 < 1024,
        0 <= p.1 < 1024,
        unit_dir(dir),
        0 <= k <= 1025,
    ensures
        ray_cell(p, dir, k).0 == p.0 + k * dir.0,
        ray_cell(p, dir, k).1 == p.1 + k * dir.1,
        ray_cell(p, dir, k + 1).0 == ray_cell(p, dir, k).0 + dir.0,
        ray_cell(p, dir, k + 1).1 == ray_cell(p, dir, k).1 + dir.1,
        small(ray_cell(p, dir, k)),
{
    let (dx, dy) = (dir.0 as int, dir.1 as int);
    assert((k + 1) * dx == k * dx + dx && -1025 <= k * dx <= 1025) by (nonlinear_arith)
        requires
            -1 <= dx <= 1,
            0 <= k <= 1025,
    ;
    assert((k + 1) * dy == k * dy + dy && -1025 <= k * dy <= 1025) by (nonlinear_arith)
        requires
            -1 <= dy <= 1,
            0 <= k <= 1025,
    ;
}

pub proof fn lemma_ray_end_from(b: BoardView, p: Pos, dir: Pos, k: int)
    requires
        board_wf(b),
        in_bounds(b, p),
        unit_dir(dir),
        1 <= k <= 1025,
        ray_clear(b, p, dir, k),
    ensures
        ray_stop(b, p, dir, ray_end(b, p, dir)),
    decreases 1025 - k,
{
    if spec_get(b, ray_cell(p, dir, k)) != Some(None::<(Color, Piece)>) {
        assert(ray_stop(b, p, dir, k));
    } else {
        lemma_ray_next(p, dir, k);
        let (x, y, dx, dy) = (p.0 as int, p.1 as int, dir.0 as int, dir.1 as int);
        assert(k < 1024) by (nonlinear_arith)
            requires
                0 <= x < 1024,
                0 <= y < 1024,
                0 <= x + k * dx < 1024,
                0 <= y + k * dy < 1024,
                -1 <= dx <= 1,
                -1 <= dy <= 1,
                dx != 0 || dy != 0,
                k >= 1,
        ;
        assert forall|j: int| 1 <= j < k + 1 implies spec_get(b, #[trigger] ray_cell(p, dir, j))
            == Some(None::<(Color, Piece)>) by {
            if j < k {
            }
        }
        lemma_ray_end_from(b, p, dir, k + 1);
    }
}

/// A slide along one of `dirs` to a square that is empty or held by an
/// opponent, over empty squares only.
pub open spec fn clear_slide(b: BoardView, p: Pos, color: Color, dirs: Seq<Pos>, m: Seq<Action>) -> bool {
    exists|d: Pos, j: int|
        #![trigger dirs.contains(d), ray_cell(p, d, j)]
        dirs.contains(d) && j >= 1 && m == seq![Action::Go(ray_cell(p, d, j))] && ray_clear(
            b,
            p,
            d,
            j,
        ) && (spec_get(b, ray_cell(p, d, j)) == Some(None::<(Color, Piece)>) || opponent_at(
            b,
            ray_cell(p, d, j),
            color,
        ))
}

/// A sliding piece never passes the first occupied square of a ray: each of
/// its moves goes over empty squares only, to an empty square or to one
/// held by an opponent.
pub proof fn lemma_los_no_jump(b: BoardView, p: Pos, color: Color, dirs: Seq<Pos>)
    requires
        board_wf(b),
        in_bounds(b, p),
        forall|k: int| 0 <= k < dirs.len() ==> unit_dir(#[trigger] dirs[k]),
    ensures
        forall|i: int|
            0 <= i < spec_los_moves(b, p, color, dirs).len() ==> clear_slide(
                b,
                p,
                color,
                dirs,
                #[trigger] spec_los_moves(b, p, color, dirs)[i],
            ),
    decreases dirs.len(),
{
    if dirs.len() > 0 {
        let rest = dirs.drop_last();
        let d = dirs.last();
        lemma_los_no_jump(b, p, color, rest);
        assert(ray_clear(b, p, d, 1));
        lemma_ray_end_from(b, p, d, 1);
        let k = ray_end(b, p, d);
        let head = spec_los_moves(b, p, color, rest);
        let ms = spec_los_moves(b, p, color, dirs);
        assert(dirs.contains(d));
        assert forall|i: int| 0 <= i < ms.len() implies clear_slide(b, p, color, dirs, #[trigger] ms[i]) by {
            if i < head.len() {
                assert(ms[i] == head[i]);
                let m = head[i];
                let (d2, j2) = choose|d2: Pos, j2: int|
                    #![trigger rest.contains(d2), ray_cell(p, d2, j2)]
                    rest.contains(d2) && j2 >= 1 && m == seq![Action::Go(ray_cell(p, d2, j2))]
                        && ray_clear(b, p, d2, j2) && (spec_get(b, ray_cell(p, d2, j2)) == Some(
                        None::<(Color, Piece)>,
                    ) || opponent_at(b, ray_cell(p, d2, j2), color));
                let n2 = choose|n: int| 0 <= n < rest.len() && rest[n] == d2;
                assert(dirs[n2] == d2);
                assert(dirs.contains(d2));
            } else {
                let j = i - head.len() + 1;
                assert(ms[i] == seq![Action::Go(ray_cell(p, d, j))]);
                assert(1 <= j <= k);
                assert(ray_clear(b, p, d, j));
                if j < k {
                    assert(spec_get(b, ray_cell(p, d, j)) == Some(None::<(Color, Piece)>));
                }
                assert(dirs.contains(d) && ray_cell(p, d, j) == ray_cell(p, d, j));
            }
        }
    }
}

/// Walks the ray from `pos` along `dir`.
fn ray_moves_exec(board: &Board, pos: Pos, color: Color, dir: Pos, res: &mut Vec<Vec<Action>>)
    requires
        board.wf(),
        in_bounds(board@, pos),
        unit_dir(dir),
    ensures
        seqs_view(final(res)@) == seqs_view(old(res)@) + ray_moves(board@, pos, color, dir),
{
    let ghost start = seqs_view(res@);
    let mut k: i32 = 1;
    proof {
        lemma_ray_next(pos, dir, 0);
        assert(ray_cell(pos, dir, 0) == pos);
    }
    let mut cur = pos.add(dir);
    loop
        invariant
            board.wf(),
            in_bounds(board@, pos),
            unit_dir(dir),
            1 <= k <= 1025,
            start == seqs_view(old(res)@),
            cur == ray_cell(pos, dir, k as int),
            small(cur),
            ray_clear(board@, pos, dir, k as int),
            seqs_view(res@) == start + Seq::new(
                (k - 1) as nat,
                |j: int| seq![Action::Go(ray_cell(pos, dir, j + 1))],
            ),
        decreases 1025 - k,
    {
        let line = board.get(cur);
        let ghost before = seqs_view(res@);
        match line {
            Some(Some((c, _))) => {
                proof {
                    assert(ray_stop(board@, pos, dir, k as int));
                    lemma_ray_stop_unique(board@, pos, dir, k as int, ray_end(board@, pos, dir));
                }
                if c != color {
                    push_move(res, single(Action::Go(cur)));
                }
                assert(seqs_view(res@) =~= start + ray_moves(board@, pos, color, dir));
                return;
            },
            Some(None) => {
                push_move(res, single(Action::Go(cur)));
                proof {
                    // the square is on the board, so the ray has not yet left it
                    let (x, y, dx, dy, kk) = (pos.0 as int, pos.1 as int, dir.0 as int, dir.1 as int, k as int);
                    lemma_ray_next(pos, dir, k as int);
                    assert(cur.0 == x + kk * dx && cur.1 == y + kk * dy);
                    assert(kk < 1024) by (nonlinear_arith)
                        requires
                            0 <= x < 1024,
                            0 <= y < 1024,
                            0 <= x + kk * dx < 1024,
                            0 <= y + kk * dy < 1024,
                            -1 <= dx <= 1,
                            -1 <= dy <= 1,
                            dx != 0 || dy != 0,
                            kk >= 1,
                    ;
                    lemma_ray_next(pos, dir, k as int);
                    lemma_ray_next(pos, dir, k as int + 1);
                    assert(seqs_view(res@) =~= start + Seq::new(
                        k as nat,
                        |j: int| seq![Action::Go(ray_cell(pos, dir, j + 1))],
                    ));
                    assert forall|j: int| 1 <= j < k + 1 implies spec_get(
                        board@,
                        #[trigger] ray_cell(pos, dir, j),
                    ) == Some(None::<(Color, Piece)>) by {
                        if j < k {
                        }
                    }
                }
                cur = cur.add(dir);
                k = k + 1;
            },
            None => {
                proof {
                    assert(ray_stop(board@, pos, dir, k as int));
                    lemma_ray_stop_unique(board@, pos, dir, k as int, ray_end(board@, pos, dir));
                }
                assert(seqs_view(res@) =~= start + ray_moves(board@, pos, color, dir));
                return;
            },
        }
    }
}

/// The moves of a piece that slides along each of `dirs` in turn.
pub fn los_moves(board: &Board, pos: Pos, color: Color, dirs: &Vec<Pos>) -> (r: Vec<Vec<Action>>)
    requires
        board.wf(),
        in_bounds(board@, pos),
        forall|k: int| 0 <= k < dirs@.len() ==> unit_dir(#[trigger] dirs@[k]),
    ensures
        seqs_view(r@) == spec_los_moves(board@, pos, color, dirs@),
{
    let mut res: Vec<Vec<Action>> = Vec::new();
    let mut k: usize = 0;
    assert(seqs_view(res@) =~= Seq::empty());
    while k < dirs.len()
        invariant
            board.wf(),
            in_bounds(board@, pos),
            forall|j: int| 0 <= j < dirs@.len() ==> unit_dir(#[trigger] dirs@[j]),
            k <= dirs@.len(),
            seqs_view(res@) == spec_los_moves(board@, pos, color, dirs@.take(k as int)),
        decreases dirs@.len() - k,
    {
        assert(dirs@.take(k as int + 1).drop_last() == dirs@.take(k as int));
        ray_moves_exec(board, pos, color, dirs[k], &mut res);
        k += 1;
    }
    assert(dirs@.take(dirs@.len() as int) == dirs@);
    res
}


/// A pawn of the other side that has just leaped stands on `ep`.
pub open spec fn en_passant_victim(b: BoardView, ep: Pos, color: Color) -> bool {
    match spec_get(b, ep) {
        Some(Some((c, Piece::Pawn { status, .. }))) => c != color && status
            == PawnStatus::JustLeaped,
        _ => false,
    }
}

/// The capture, ordinary or en passant, that a pawn on `p` facing `o` makes
/// towards the diagonal direction `d`.
pub open spec fn pawn_diag(b: BoardView, p: Pos, color: Color, o: Pos, d: Pos) -> Seq<Seq<Action>> {
    let dp = pos_add(d, p);
    match spec_get(b, dp) {
        Some(Some((c, _))) => if c != color {
            seq![seq![Action::Go(dp)]]
        } else {
            Seq::empty()
        },
        Some(None) => {
            let ep = pos_add(dp, pos_scale(o, -1));
            if en_passant_victim(b, ep, color) {
                seq![seq![Action::Go(dp), Action::Take(ep)]]
            } else {
                Seq::empty()
            }
        },
        None => Seq::empty(),
    }
}

/// A pawn's moves before promotion: one step forward to an empty square,
/// then two when it can leap and both are empty, then its two captures.
pub open spec fn pawn_base(b: BoardView, p: Pos, color: Color, o: Pos, status: PawnStatus) -> Seq<
    Seq<Action>,
> {
    let f = pos_add(o, p);
    let l = pos_add(pos_scale(o, 2), p);
    let forward = if spec_get(b, f) == Some(None::<(Color, Piece)>) {
        if status == PawnStatus::CanLeap && spec_get(b, l) == Some(None::<(Color, Piece)>) {
            seq![seq![Action::Go(f)], seq![Action::Go(l)]]
        } else {
            seq![seq![Action::Go(f)]]
        }
    } else {
        Seq::empty()
    };
    forward + pawn_diag(b, p, color, o, spec_neighbors(o).0) + pawn_diag(
        b,
        p,
        color,
        o,
        spec_neighbors(o).1,
    )
}

/// Where the mover stands after the `Go` actions of `s`, starting on `p`.
pub open spec fn last_go(p: Pos, s: Seq<Action>) -> Pos
    decreases s.len(),
{
    if s.len() == 0 {
        p
    } else {
        match s.last() {
            Action::Go(d) => d,
            _ => last_go(p, s.drop_last()),
        }
    }
}

/// A move that ends on the last rank becomes two: one promoting to a queen,
/// one to a knight.
pub open spec fn expand_promotion(b: BoardView, p: Pos, o: Pos, s: Seq<Action>) -> Seq<Seq<Action>> {
    if spec_get(b, pos_add(last_go(p, s), o)).is_none() {
        seq![s.push(Action::Promotion(Piece::Queen)), s.push(Action::Promotion(Piece::Knight))]
    } else {
        seq![s]
    }
}

pub open spec fn promotions(b: BoardView, p: Pos, o: Pos, ms: Seq<Seq<Action>>) -> Seq<Seq<Action>>
    decreases ms.len(),
{
    if ms.len() == 0 {
        Seq::empty()
    } else {
        promotions(b, p, o, ms.drop_last()) + expand_promotion(b, p, o, ms.last())
    }
}

pub open spec fn spec_pawn_moves(b: BoardView, p: Pos, color: Color, o: Pos, status: PawnStatus) -> Seq<
    Seq<Action>,
> {
    promotions(b, p, o, pawn_base(b, p, color, o, status))
}

/// Every action of every move stays on the board and promotes to a
/// well-formed piece.
pub open spec fn moves_wf(b: BoardView, ms: Seq<Seq<Action>>) -> bool {
    forall|i: int| 0 <= i < ms.len() ==> actions_wf(b, #[trigger] ms[i])
}

proof fn lemma_pawn_diag_wf(b: BoardView, p: Pos, color: Color, o: Pos, d: Pos)
    ensures
        moves_wf(b, pawn_diag(b, p, color, o, d)),
{
    let ms = pawn_diag(b, p, color, o, d);
    assert forall|i: int| 0 <= i < ms.len() implies actions_wf(b, #[trigger] ms[i]) by {
        let m = ms[i];
        assert forall|k: int| 0 <= k < m.len() implies match #[trigger] m[k] {
            Action::Go(t) => in_bounds(b, t),
            Action::Take(t) => in_bounds(b, t),
            Action::Promotion(q) => piece_wf(q),
        } by {}
    }
}

proof fn lemma_pawn_base_wf(b: BoardView, p: Pos, color: Color, o: Pos, status: PawnStatus)
    ensures
        moves_wf(b, pawn_base(b, p, color, o, status)),
{
    lemma_pawn_diag_wf(b, p, color, o, spec_neighbors(o).0);
    lemma_pawn_diag_wf(b, p, color, o, spec_neighbors(o).1);
    let ms = pawn_base(b, p, color, o, status);
    assert forall|i: int| 0 <= i < ms.len() implies actions_wf(b, #[trigger] ms[i]) by {
        let m = ms[i];
        assert forall|k: int| 0 <= k < m.len() implies match #[trigger] m[k] {
            Action::Go(t) => in_bounds(b, t),
            Action::Take(t) => in_bounds(b, t),
            Action::Promotion(q) => piece_wf(q),
        } by {}
    }
}

pub proof fn lemma_filter_wf(b: BoardView, ms: Seq<Seq<Action>>, pred: spec_fn(Seq<Action>) -> bool)
    requires
        moves_wf(b, ms),
    ensures
        moves_wf(b, ms.filter(pred)),
{
    let f = ms.filter(pred);
    assert forall|i: int| 0 <= i < f.len() implies actions_wf(b, #[trigger] f[i]) by {
        assert(f.contains(f[i]));
        ms.lemma_filter_contains_rev(pred, f[i]);
        let k = choose|k: int| 0 <= k < ms.len() && ms[k] == f[i];
    }
}

pub(crate) fn copy_actions(v: &Vec<Action>) -> (r: Vec<Action>)
    ensures
        r@ == v@,
{
    let mut r: Vec<Action> = Vec::new();
    let mut i: usize = 0;
    while i < v.len()
        invariant
            i <= v@.len(),
            r@ == v@.take(i as int),
        decreases v@.len() - i,
    {
        r.push(v[i]);
        i += 1;
        assert(r@ =~= v@.take(i as int));
    }
    assert(v@.take(v@.len() as int) =~= v@);
    r
}

fn pawn_diag_exec(
    board: &Board,
    pos: Pos,
    color: Color,
    orientation: Pos,
    diag_dir: Pos,
    res: &mut Vec<Vec<Action>>,
)
    requires
        board.wf(),
        in_bounds(board@, pos),
        -2048 <= orientation.0 <= 2048,
        -2048 <= orientation.1 <= 2048,
        -2048 <= diag_dir.0 <= 2048,
        -2048 <= diag_dir.1 <= 2048,
    ensures
        seqs_view(final(res)@) == seqs_view(old(res)@) + pawn_diag(
            board@,
            pos,
            color,
            orientation,
            diag_dir,
        ),
{
    let diag_pos = diag_dir.add(pos);
    match board.get(diag_pos) {
        Some(Some((other_color, _))) => {
            if color != other_color {
                push_move(res, single(Action::Go(diag_pos)));
            }
        },
        Some(None) => {
            let en_passant_pos = diag_pos.add(orientation.scale(-1));
            if let Some(Some((other_color, piece))) = board.get(en_passant_pos) {
                if color != other_color {
                    if let Piece::Pawn { status, .. } = piece {
                        if status == PawnStatus::JustLeaped {
                            let mut m: Vec<Action> = Vec::new();
                            m.push(Action::Go(diag_pos));
                            m.push(Action::Take(en_passant_pos));
                            assert(m@ =~= seq![Action::Go(diag_pos), Action::Take(en_passant_pos)]);
                            push_move(res, m);
                        }
                    }
                }
            }
        },
        None => {},
    }
    assert(seqs_view(res@) =~= seqs_view(old(res)@) + pawn_diag(
        board@,
        pos,
        color,
        orientation,
        diag_dir,
    ));
}

/// The moves of a pawn on `pos` facing `orientation`.
pub fn pawn_moves(
    board: &Board,
    pos: Pos,
    color: Color,
    orientation: Pos,
    status: PawnStatus,
) -> (r: Vec<Vec<Action>>)
    requires
        board.wf(),
        in_bounds(board@, pos),
        piece_wf(Piece::Pawn { orientation, status }),
    ensures
        seqs_view(r@) == spec_pawn_moves(board@, pos, color, orientation, status),
{
    let mut res: Vec<Vec<Action>> = Vec::new();
    assert(seqs_view(res@) =~= Seq::empty());
    let forward_pos = orientation.add(pos);
    let leap_pos = orientation.scale(2).add(pos);
    if let Some(None) = board.get(forward_pos) {
        push_move(&mut res, single(Action::Go(forward_pos)));
        if status == PawnStatus::CanLeap {
            if let Some(None) = board.get(leap_pos) {
                push_move(&mut res, single(Action::Go(leap_pos)));
            }
        }
    }
    let ghost fw = seqs_view(res@);
    let (n1, n2) = orientation.neighbors();
    proof {
        lemma_pawn_base_wf(board@, pos, color, orientation, status);
    }
    pawn_diag_exec(board, pos, color, orientation, n1, &mut res);
    pawn_diag_exec(board, pos, color, orientation, n2, &mut res);
    assert(seqs_view(res@) =~= pawn_base(board@, pos, color, orientation, status));
    // each move that ends on the last rank promotes
    let mut res_prom: Vec<Vec<Action>> = Vec::new();
    assert(seqs_view(res_prom@) =~= Seq::empty());
    let mut k: usize = 0;
    while k < res.len()
        invariant
            board.wf(),
            in_bounds(board@, pos),
            piece_wf(Piece::Pawn { orientation, status }),
            k <= res@.len(),
            seqs_view(res@) == pawn_base(board@, pos, color, orientation, status),
            moves_wf(board@, seqs_view(res@)),
            seqs_view(res_prom@) == promotions(
                board@,
                pos,
                orientation,
                seqs_view(res@).take(k as int),
            ),
        decreases res@.len() - k,
    {
        let actions = &res[k];
        assert(actions_wf(board@, seqs_view(res@)[k as int]));
        let mut last_pos = pos;
        let mut j: usize = 0;
        while j < actions.len()
            invariant
                board.wf(),
                in_bounds(board@, pos),
                j <= actions@.len(),
                in_bounds(board@, last_pos),
                last_pos == last_go(pos, actions@.take(j as int)),
                actions_wf(board@, actions@),
            decreases actions@.len() - j,
        {
            assert(actions@.take(j as int + 1).drop_last() == actions@.take(j as int));
            if let Action::Go(go_pos) = actions[j] {
                last_pos = go_pos;
            }
            j += 1;
        }
        assert(actions@.take(actions@.len() as int) == actions@);
        assert(seqs_view(res@).take(k as int + 1).drop_last() == seqs_view(res@).take(k as int));
        assert(seqs_view(res@)[k as int] == actions@);
        if board.get(last_pos.add(orientation)).is_none() {
            let mut action_q = copy_actions(actions);
            action_q.push(Action::Promotion(Piece::Queen));
            let mut action_n = copy_actions(actions);
            action_n.push(Action::Promotion(Piece::Knight));
            push_move(&mut res_prom, action_q);
            push_move(&mut res_prom, action_n);
        } else {
            push_move(&mut res_prom, copy_actions(actions));
        }
        k += 1;
    }
    assert(seqs_view(res@).take(res@.len() as int) == seqs_view(res@));
    res_prom
}


pub open spec fn spec_piece_moves(b: BoardView, piece: Piece, p: Pos, color: Color) -> Seq<Seq<Action>> {
    match piece {
        Piece::Pawn { orientation, status } => spec_pawn_moves(b, p, color, orientation, status),
        Piece::Knight => spec_knight_moves(b, p, color),
        Piece::Bishop => spec_los_moves(b, p, color, crate::pos::diags()),
        Piece::Rook => spec_los_moves(b, p, color, crate::pos::lines()),
        Piece::Queen => spec_los_moves(b, p, color, crate::pos::los()),
        Piece::King => spec_king_moves(b, p, color),
    }
}

/// Slides along the four diagonals.
pub fn bishop_moves(board: &Board, pos: Pos, color: Color) -> (r: Vec<Vec<Action>>)
    requires
        board.wf(),
        in_bounds(board@, pos),
    ensures
        seqs_view(r@) == spec_los_moves(board@, pos, color, crate::pos::diags()),
{
    los_moves(board, pos, color, &crate::pos::diag_dirs())
}

/// Slides along the four lines.
pub fn rook_moves(board: &Board, pos: Pos, color: Color) -> (r: Vec<Vec<Action>>)
    requires
        board.wf(),
        in_bounds(board@, pos),
    ensures
        seqs_view(r@) == spec_los_moves(board@, pos, color, crate::pos::lines()),
{
    los_moves(board, pos, color, &crate::pos::line_dirs())
}

/// Slides along all eight directions.
pub fn queen_moves(board: &Board, pos: Pos, color: Color) -> (r: Vec<Vec<Action>>)
    requires
        board.wf(),
        in_bounds(board@, pos),
    ensures
        seqs_view(r@) == spec_los_moves(board@, pos, color, crate::pos::los()),
{
    los_moves(board, pos, color, &crate::pos::los_dirs())
}

impl Piece {
    /// The candidate moves of this piece, of `color`, standing on `pos`.
    pub fn moves(self, board: &Board, pos: Pos, color: Color) -> (r: Vec<Vec<Action>>)
        requires
            board.wf(),
            in_bounds(board@, pos),
            piece_wf(self),
        ensures
            seqs_view(r@) == spec_piece_moves(board@, self, pos, color),
            moves_wf(board@, seqs_view(r@)),
    {
        proof {
            lemma_piece_moves_wf(board@, self, pos, color);
        }
        match self {
            Piece::Pawn { orientation, status } => pawn_moves(board, pos, color, orientation, status),
            Piece::Knight => knight_moves(board, pos, color),
            Piece::Bishop => bishop_moves(board, pos, color),
            Piece::Rook => rook_moves(board, pos, color),
            Piece::Queen => queen_moves(board, pos, color),
            Piece::King => king_moves(board, pos, color),
        }
    }
}

proof fn lemma_single_go_wf(b: BoardView, t: Pos)
    requires
        in_bounds(b, t),
    ensures
        actions_wf(b, seq![Action::Go(t)]),
{
    let m = seq![Action::Go(t)];
    assert forall|k: int| 0 <= k < m.len() implies match #[trigger] m[k] {
        Action::Go(t) => in_bounds(b, t),
        Action::Take(t) => in_bounds(b, t),
        Action::Promotion(q) => piece_wf(q),
    } by {}
}

proof fn lemma_steps_wf(b: BoardView, p: Pos, color: Color, offs: Seq<Pos>)
    ensures
        moves_wf(b, step_moves(b, p, color, offs)),
{
    lemma_step_moves_open(b, p, color, offs);
    let ms = step_moves(b, p, color, offs);
    assert forall|i: int| 0 <= i < ms.len() implies actions_wf(b, #[trigger] ms[i]) by {
        let t = choose|t: Pos| ms[i] == seq![Action::Go(t)] && open_target(b, t, color);
        lemma_single_go_wf(b, t);
    }
}

proof fn lemma_los_wf(b: BoardView, p: Pos, color: Color, dirs: Seq<Pos>)
    requires
        board_wf(b),
        in_bounds(b, p),
        forall|k: int| 0 <= k < dirs.len() ==> unit_dir(#[trigger] dirs[k]),
    ensures
        moves_wf(b, spec_los_moves(b, p, color, dirs)),
{
    lemma_los_no_jump(b, p, color, dirs);
    let ms = spec_los_moves(b, p, color, dirs);
    assert forall|i: int| 0 <= i < ms.len() implies actions_wf(b, #[trigger] ms[i]) by {
        assert(clear_slide(b, p, color, dirs, ms[i]));
        let (d, j) = choose|d: Pos, j: int|
            #![trigger dirs.contains(d), ray_cell(p, d, j)]
            dirs.contains(d) && j >= 1 && ms[i] == seq![Action::Go(ray_cell(p, d, j))] && ray_clear(
                b,
                p,
                d,
                j,
            ) && (spec_get(b, ray_cell(p, d, j)) == Some(None::<(Color, Piece)>) || opponent_at(
                b,
                ray_cell(p, d, j),
                color,
            ));
        lemma_single_go_wf(b, ray_cell(p, d, j));
    }
}

proof fn lemma_promotions_wf(b: BoardView, p: Pos, o: Pos, ms: Seq<Seq<Action>>)
    requires
        moves_wf(b, ms),
    ensures
        moves_wf(b, promotions(b, p, o, ms)),
    decreases ms.len(),
{
    if ms.len() > 0 {
        assert(moves_wf(b, ms.drop_last())) by {
            assert forall|i: int| 0 <= i < ms.drop_last().len() implies actions_wf(
                b,
                #[trigger] ms.drop_last()[i],
            ) by {
                assert(ms.drop_last()[i] == ms[i]);
            }
        }
        lemma_promotions_wf(b, p, o, ms.drop_last());
        let s = ms.last();
        assert(actions_wf(b, s));
        let e = expand_promotion(b, p, o, s);
        let r = promotions(b, p, o, ms);
        let head = promotions(b, p, o, ms.drop_last());
        assert forall|i: int| 0 <= i < r.len() implies actions_wf(b, #[trigger] r[i]) by {
            if i < head.len() {
                assert(r[i] == head[i]);
            } else {
                let m = r[i];
                assert(m == e[i - head.len()]);
                assert forall|k: int| 0 <= k < m.len() implies match #[trigger] m[k] {
                    Action::Go(t) => in_bounds(b, t),
                    Action::Take(t) => in_bounds(b, t),
                    Action::Promotion(q) => piece_wf(q),
                } by {
                    if k < s.len() {
                        assert(m[k] == s[k]);
                    }
                }
            }
        }
    }
}

pub proof fn lemma_piece_moves_wf(b: BoardView, piece: Piece, p: Pos, color: Color)
    requires
        board_wf(b),
        in_bounds(b, p),
    ensures
        moves_wf(b, spec_piece_moves(b, piece, p, color)),
{
    assert(forall|k: int| 0 <= k < crate::pos::diags().len() ==> unit_dir(#[trigger] crate::pos::diags()[k]));
    assert(forall|k: int| 0 <= k < crate::pos::lines().len() ==> unit_dir(#[trigger] crate::pos::lines()[k]));
    assert(forall|k: int| 0 <= k < crate::pos::los().len() ==> unit_dir(#[trigger] crate::pos::los()[k]));
    match piece {
        Piece::Pawn { orientation, status } => {
            lemma_pawn_base_wf(b, p, color, orientation, status);
            lemma_promotions_wf(b, p, orientation, pawn_base(b, p, color, orientation, status));
        },
        Piece::Knight => lemma_steps_wf(b, p, color, knight_offsets()),
        Piece::King => lemma_steps_wf(b, p, color, crate::pos::los()),
        Piece::Bishop => lemma_los_wf(b, p, color, crate::pos::diags()),
        Piece::Rook => lemma_los_wf(b, p, color, crate::pos::lines()),
        Piece::Queen => lemma_los_wf(b, p, color, crate::pos::los()),
    }
}

} // verus!
