//! Exchanging the colors of every piece changes nothing in how the game is
//! played: move generation, playing, evaluation and search all commute with it.
use vstd::prelude::*;
use crate::pos::{Pos, pos_add, pos_scale, spec_neighbors};
use crate::piece::{Action, Color, Piece};
use crate::board::{BoardView, Square, board_wf, square_wf, in_bounds, spec_get, apply_actions, step, index_of,
    actions_wf, spec_play, advance_square, lemma_index_in_range, lemma_mover_ends_on_last_go, raw_upto,
    checked_upto, piece_moves_at, pos_of, origin_entry, spec_king_attacked, hits_king, targets_king, safe_move,
    lemma_pos_of_in_bounds, spec_moves, moves_upto, grouped_wf, occupied_by};
use crate::piece::piece_wf;
use crate::game::{spec_invert, swap_square};
use crate::ai::{score_upto, square_score, spec_score, spec_move_value, gain, action_gain, cand_key, insert_desc,
    sort_desc, spec_ordered, flatten, cands_wf, scan, spec_negamax, cand_score, best_of, spec_minmax,
    spec_play_out, lemma_filter_keeps, lemma_sort_keeps, lemma_best_of_in, INF};
use crate::rules::{step_moves, ray_moves, ray_stop, ray_cell, ray_clear, ray_end, unit_dir, spec_los_moves, pawn_diag, pawn_base, promotions, last_go, spec_piece_moves, knight_offsets, moves_wf, lemma_piece_moves_wf, lemma_filter_wf, lemma_ray_end_from, lemma_ray_stop_unique};

verus! {

pub open spec fn swap_get(g: Option<Square>) -> Option<Square> {
    match g {
        Some(s) => Some(swap_square(s)),
        None => None,
    }
}

pub proof fn lemma_invert_get(b: BoardView, p: Pos)
    requires
        board_wf(b),
    ensures
        spec_get(spec_invert(b), p) == swap_get(spec_get(b, p)),
{
    if in_bounds(b, p) {
        crate::board::lemma_index_in_range(b, p);
    }
}

pub proof fn lemma_invert_wf(b: BoardView)
    requires
        board_wf(b),
    ensures
        board_wf(spec_invert(b)),
{
    let ib = spec_invert(b);
    assert forall|i: int| 0 <= i < ib.squares.len() implies square_wf(#[trigger] ib.squares[i]) by {
        assert(square_wf(b.squares[i]));
    }
}

proof fn lemma_step_moves_sym(b: BoardView, p: Pos, c: Color, offs: Seq<Pos>)
    requires
        board_wf(b),
    ensures
        step_moves(spec_invert(b), p, c.spec_next(), offs) == step_moves(b, p, c, offs),
    decreases offs.len(),
{
    if offs.len() > 0 {
        lemma_step_moves_sym(b, p, c, offs.drop_last());
        lemma_invert_get(b, pos_add(offs.last(), p));
    }
}

proof fn lemma_ray_sym(b: BoardView, p: Pos, c: Color, dir: Pos)
    requires
        board_wf(b),
        in_bounds(b, p),
        unit_dir(dir),
    ensures
        ray_moves(spec_invert(b), p, c.spec_next(), dir) == ray_moves(b, p, c, dir),
{
    let ib = spec_invert(b);
    lemma_invert_wf(b);
    assert forall|k: int| #[trigger] ray_stop(ib, p, dir, k) == ray_stop(b, p, dir, k) by {
        assert forall|j: int| 1 <= j < k implies spec_get(ib, #[trigger] ray_cell(p, dir, j))
            == Some(None::<(Color, Piece)>) <==> spec_get(b, ray_cell(p, dir, j)) == Some(
            None::<(Color, Piece)>,
        ) by {
            lemma_invert_get(b, ray_cell(p, dir, j));
        }
        lemma_invert_get(b, ray_cell(p, dir, k));
    }
    assert(ray_clear(b, p, dir, 1));
    assert(ray_clear(ib, p, dir, 1));
    lemma_ray_end_from(b, p, dir, 1);
    lemma_ray_end_from(ib, p, dir, 1);
    lemma_ray_stop_unique(b, p, dir, ray_end(b, p, dir), ray_end(ib, p, dir));
    let k = ray_end(b, p, dir);
    lemma_invert_get(b, ray_cell(p, dir, k));
}

proof fn lemma_los_sym(b: BoardView, p: Pos, c: Color, dirs: Seq<Pos>)
    requires
        board_wf(b),
        in_bounds(b, p),
        forall|k: int| 0 <= k < dirs.len() ==> unit_dir(#[trigger] dirs[k]),
    ensures
        spec_los_moves(spec_invert(b), p, c.spec_next(), dirs) == spec_los_moves(b, p, c, dirs),
    decreases dirs.len(),
{
    if dirs.len() > 0 {
        lemma_los_sym(b, p, c, dirs.drop_last());
        lemma_ray_sym(b, p, c, dirs.last());
    }
}

proof fn lemma_pawn_diag_sym(b: BoardView, p: Pos, c: Color, o: Pos, d: Pos)
    requires
        board_wf(b),
    ensures
        pawn_diag(spec_invert(b), p, c.spec_next(), o, d) == pawn_diag(b, p, c, o, d),
{
    let dp = pos_add(d, p);
    lemma_invert_get(b, dp);
    lemma_invert_get(b, pos_add(dp, pos_scale(o, -1)));
}

proof fn lemma_promotions_sym(b: BoardView, p: Pos, o: Pos, ms: Seq<Seq<Action>>)
    requires
        board_wf(b),
    ensures
        promotions(spec_invert(b), p, o, ms) == promotions(b, p, o, ms),
    decreases ms.len(),
{
    if ms.len() > 0 {
        lemma_promotions_sym(b, p, o, ms.drop_last());
        lemma_invert_get(b, pos_add(last_go(p, ms.last()), o));
    }
}

/// Handing every piece to the other side leaves each piece's candidates as
/// they were, for the other color.
pub proof fn lemma_piece_moves_sym(b: BoardView, piece: Piece, p: Pos, c: Color)
    requires
        board_wf(b),
        in_bounds(b, p),
    ensures
        spec_piece_moves(spec_invert(b), piece, p, c.spec_next()) == spec_piece_moves(b, piece, p, c),
{
    assert(forall|k: int| 0 <= k < crate::pos::diags().len() ==> unit_dir(#[trigger] crate::pos::diags()[k]));
    assert(forall|k: int| 0 <= k < crate::pos::lines().len() ==> unit_dir(#[trigger] crate::pos::lines()[k]));
    assert(forall|k: int| 0 <= k < crate::pos::los().len() ==> unit_dir(#[trigger] crate::pos::los()[k]));
    match piece {
        Piece::Pawn { orientation, status } => {
            let o = orientation;
            lemma_invert_get(b, pos_add(o, p));
            lemma_invert_get(b, pos_add(pos_scale(o, 2), p));
            lemma_pawn_diag_sym(b, p, c, o, spec_neighbors(o).0);
            lemma_pawn_diag_sym(b, p, c, o, spec_neighbors(o).1);
            assert(pawn_base(spec_invert(b), p, c.spec_next(), o, status) == pawn_base(b, p, c, o, status));
            lemma_promotions_sym(b, p, o, pawn_base(b, p, c, o, status));
        },
        Piece::Knight => lemma_step_moves_sym(b, p, c, knight_offsets()),
        Piece::King => lemma_step_moves_sym(b, p, c, crate::pos::los()),
        Piece::Bishop => lemma_los_sym(b, p, c, crate::pos::diags()),
        Piece::Rook => lemma_los_sym(b, p, c, crate::pos::lines()),
        Piece::Queen => lemma_los_sym(b, p, c, crate::pos::los()),
    }
}


pub open spec fn swap_squares(s: Seq<Square>) -> Seq<Square> {
    s.map_values(|q: Square| swap_square(q))
}

proof fn lemma_apply_sym(b: BoardView, c: Color, origin: Pos, acts: Seq<Action>)
    requires
        board_wf(b),
        in_bounds(b, origin),
        actions_wf(b, acts),
    ensures
        apply_actions(spec_invert(b), c.spec_next(), origin, acts) == (
            swap_squares(apply_actions(b, c, origin, acts).0),
            apply_actions(b, c, origin, acts).1,
        ),
        apply_actions(b, c, origin, acts).0.len() == b.squares.len(),
        in_bounds(b, apply_actions(b, c, origin, acts).1),
        forall|i: int|
            0 <= i < b.squares.len() ==> square_wf(#[trigger] apply_actions(b, c, origin, acts).0[i]),
    decreases acts.len(),
{
    let ib = spec_invert(b);
    if acts.len() == 0 {
        assert(ib.squares =~= swap_squares(b.squares));
    } else {
        let t = acts.drop_last();
        assert forall|k: int| 0 <= k < t.len() implies match #[trigger] t[k] {
            Action::Go(d) => in_bounds(b, d),
            Action::Take(d) => in_bounds(b, d),
            Action::Promotion(p) => piece_wf(p),
        } by {
            assert(t[k] == acts[k]);
        }
        lemma_apply_sym(b, c, origin, t);
        let st = apply_actions(b, c, origin, t);
        let a = acts.last();
        assert(match acts[acts.len() - 1] {
            Action::Go(d) => in_bounds(b, d),
            Action::Take(d) => in_bounds(b, d),
            Action::Promotion(p) => piece_wf(p),
        });
        lemma_index_in_range(b, st.1);
        let st2 = apply_actions(b, c, origin, acts);
        assert(st2 == step(b, c, st, a));
        match a {
            Action::Go(d) => {
                lemma_index_in_range(b, d);
                assert(swap_squares(st2.0) =~= step(ib, c.spec_next(), (swap_squares(st.0), st.1), a).0);
            },
            Action::Take(d) => {
                lemma_index_in_range(b, d);
                assert(swap_squares(st2.0) =~= step(ib, c.spec_next(), (swap_squares(st.0), st.1), a).0);
            },
            Action::Promotion(p) => {
                assert(swap_squares(st2.0) =~= step(ib, c.spec_next(), (swap_squares(st.0), st.1), a).0);
            },
        }
        assert forall|i: int| 0 <= i < b.squares.len() implies square_wf(#[trigger] st2.0[i]) by {
            assert(square_wf(st.0[i]));
        }
    }
}

/// Playing a move keeps a board well formed.
pub proof fn lemma_play_wf(b: BoardView, c: Color, origin: Pos, acts: Seq<Action>)
    requires
        board_wf(b),
        in_bounds(b, origin),
        actions_wf(b, acts),
    ensures
        board_wf(spec_play(b, c, origin, acts)),
{
    lemma_apply_sym(b, c, origin, acts);
    let st = apply_actions(b, c, origin, acts);
    let r = spec_play(b, c, origin, acts);
    assert forall|i: int| 0 <= i < r.squares.len() implies square_wf(#[trigger] r.squares[i]) by {
        assert(square_wf(st.0[i]));
    }
}

/// Playing a move on the inverted board is inverting the played board.
pub proof fn lemma_play_sym(b: BoardView, c: Color, origin: Pos, acts: Seq<Action>)
    requires
        board_wf(b),
        in_bounds(b, origin),
        actions_wf(b, acts),
    ensures
        spec_play(spec_invert(b), c.spec_next(), origin, acts) == spec_invert(spec_play(b, c, origin, acts)),
{
    lemma_apply_sym(b, c, origin, acts);
    let l = spec_play(spec_invert(b), c.spec_next(), origin, acts);
    let r = spec_invert(spec_play(b, c, origin, acts));
    assert(l.squares =~= r.squares);
}


pub proof fn lemma_filter_congruent<A>(s: Seq<A>, p1: spec_fn(A) -> bool, p2: spec_fn(A) -> bool)
    requires
        forall|i: int| 0 <= i < s.len() ==> p1(#[trigger] s[i]) == p2(s[i]),
    ensures
        s.filter(p1) == s.filter(p2),
    decreases s.len(),
{
    reveal(Seq::filter);
    if s.len() > 0 {
        let t = s.drop_last();
        assert forall|i: int| 0 <= i < t.len() implies p1(#[trigger] t[i]) == p2(t[i]) by {
            assert(t[i] == s[i]);
        }
        lemma_filter_congruent(t, p1, p2);
        assert(p1(s[s.len() - 1]) == p2(s[s.len() - 1]));
    }
}

proof fn lemma_moves_at_sym(b: BoardView, c: Color, i: int)
    requires
        board_wf(b),
        0 <= i < b.squares.len(),
    ensures
        piece_moves_at(spec_invert(b), c.spec_next(), i) == piece_moves_at(b, c, i),
        pos_of(spec_invert(b), i) == pos_of(b, i),
        in_bounds(b, pos_of(b, i)),
{
    lemma_pos_of_in_bounds(b, i);
    match b.squares[i] {
        Some((c2, piece)) => {
            lemma_piece_moves_sym(b, piece, pos_of(b, i), c);
        },
        None => {},
    }
}

proof fn lemma_raw_upto_sym(b: BoardView, c: Color, n: int)
    requires
        board_wf(b),
        0 <= n <= b.squares.len(),
    ensures
        raw_upto(spec_invert(b), c.spec_next(), n) == raw_upto(b, c, n),
    decreases n,
{
    if n > 0 {
        lemma_raw_upto_sym(b, c, n - 1);
        lemma_moves_at_sym(b, c, n - 1);
    }
}

/// A king is attacked on the inverted board exactly when the king of the
/// other color is attacked on the board.
pub proof fn lemma_king_attacked_sym(b: BoardView, c: Color)
    requires
        board_wf(b),
    ensures
        spec_king_attacked(spec_invert(b), c.spec_next()) == spec_king_attacked(b, c),
{
    let ib = spec_invert(b);
    lemma_raw_upto_sym(b, c.spec_next(), b.squares.len() as int);
    assert(c.spec_next().spec_next() == c);
    assert forall|a: Action| #[trigger] targets_king(ib, c.spec_next(), a) == targets_king(b, c, a) by {
        match a {
            Action::Go(t) => lemma_invert_get(b, t),
            Action::Take(t) => lemma_invert_get(b, t),
            Action::Promotion(_) => {},
        }
    }
    assert forall|m: Seq<Action>| #[trigger] hits_king(ib, c.spec_next(), m) == hits_king(b, c, m) by {
        if hits_king(b, c, m) {
            let k = choose|k: int| 0 <= k < m.len() && targets_king(b, c, #[trigger] m[k]);
            assert(targets_king(ib, c.spec_next(), m[k]));
        }
        if hits_king(ib, c.spec_next(), m) {
            let k = choose|k: int| 0 <= k < m.len() && targets_king(ib, c.spec_next(), #[trigger] m[k]);
            assert(targets_king(b, c, m[k]));
        }
    }
}

proof fn lemma_checked_upto_sym(b: BoardView, c: Color, n: int)
    requires
        board_wf(b),
        0 <= n <= b.squares.len(),
    ensures
        checked_upto(spec_invert(b), c.spec_next(), n) == checked_upto(b, c, n),
    decreases n,
{
    if n > 0 {
        let ib = spec_invert(b);
        lemma_checked_upto_sym(b, c, n - 1);
        lemma_moves_at_sym(b, c, n - 1);
        let p = pos_of(b, n - 1);
        match piece_moves_at(b, c, n - 1) {
            Some(ms) => {
                let piece = b.squares[n - 1]->Some_0.1;
                lemma_piece_moves_wf(b, piece, p, c);
                assert(ms == spec_piece_moves(b, piece, p, c));
                let p1 = |m: Seq<Action>| safe_move(ib, c.spec_next(), p, m);
                let p2 = |m: Seq<Action>| safe_move(b, c, p, m);
                assert forall|i: int| 0 <= i < ms.len() implies p1(#[trigger] ms[i]) == p2(ms[i]) by {
                    assert(actions_wf(b, ms[i]));
                    lemma_play_sym(b, c, p, ms[i]);
                    lemma_play_wf(b, c, p, ms[i]);
                    lemma_king_attacked_sym(spec_play(b, c, p, ms[i]), c);
                }
                lemma_filter_congruent(ms, p1, p2);
            },
            None => {},
        }
    }
}

/// The candidates of a color on the inverted board are those of the other
/// color on the board.
pub proof fn lemma_moves_sym(b: BoardView, c: Color, check: bool)
    requires
        board_wf(b),
    ensures
        spec_moves(spec_invert(b), c.spec_next(), check) == spec_moves(b, c, check),
{
    lemma_raw_upto_sym(b, c, b.squares.len() as int);
    lemma_checked_upto_sym(b, c, b.squares.len() as int);
}


proof fn lemma_score_upto_sym(b: BoardView, c: Color, n: int)
    requires
        board_wf(b),
        0 <= n <= b.squares.len(),
    ensures
        score_upto(spec_invert(b), c.spec_next(), n) == score_upto(b, c, n),
    decreases n,
{
    if n > 0 {
        lemma_score_upto_sym(b, c, n - 1);
        assert(square_score(spec_invert(b), c.spec_next(), n - 1) == square_score(b, c, n - 1));
    }
}

proof fn lemma_gain_sym(b: BoardView, c: Color, acts: Seq<Action>)
    requires
        board_wf(b),
    ensures
        gain(spec_invert(b), c.spec_next(), acts) == gain(b, c, acts),
    decreases acts.len(),
{
    if acts.len() > 0 {
        lemma_gain_sym(b, c, acts.drop_last());
        match acts.last() {
            Action::Go(t) => lemma_invert_get(b, t),
            Action::Take(t) => lemma_invert_get(b, t),
            Action::Promotion(_) => {},
        }
        assert(action_gain(spec_invert(b), c.spec_next(), acts.last()) == action_gain(b, c, acts.last()));
    }
}

proof fn lemma_move_value_sym(b: BoardView)
    requires
        board_wf(b),
    ensures
        forall|x: (Pos, Seq<Action>)| #[trigger] cand_key(spec_invert(b), x) == cand_key(b, x),
{
    assert forall|x: (Pos, Seq<Action>)| #[trigger] cand_key(spec_invert(b), x) == cand_key(b, x) by {
        lemma_invert_get(b, x.0);
        match spec_get(b, x.0) {
            Some(Some((c, _))) => lemma_gain_sym(b, c, x.1),
            _ => {},
        }
    }
}

proof fn lemma_insert_sym(b: BoardView, s: Seq<(Pos, Seq<Action>)>, x: (Pos, Seq<Action>))
    requires
        board_wf(b),
    ensures
        insert_desc(spec_invert(b), s, x) == insert_desc(b, s, x),
    decreases s.len(),
{
    lemma_move_value_sym(b);
    if s.len() > 0 {
        lemma_insert_sym(b, s.drop_first(), x);
    }
}

proof fn lemma_sort_sym(b: BoardView, s: Seq<(Pos, Seq<Action>)>)
    requires
        board_wf(b),
    ensures
        sort_desc(spec_invert(b), s) == sort_desc(b, s),
    decreases s.len(),
{
    if s.len() > 0 {
        lemma_sort_sym(b, s.drop_last());
        lemma_insert_sym(b, sort_desc(b, s.drop_last()), s.last());
    }
}

proof fn lemma_ordered_sym(b: BoardView, c: Color, depth: int)
    requires
        board_wf(b),
    ensures
        spec_ordered(spec_invert(b), c.spec_next(), depth) == spec_ordered(b, c, depth),
{
    let ib = spec_invert(b);
    lemma_moves_sym(b, c, false);
    lemma_move_value_sym(b);
    let p1 = |x: (Pos, Seq<Action>)| cand_key(ib, x) >= 0;
    let p2 = |x: (Pos, Seq<Action>)| cand_key(b, x) >= 0;
    assert(p1 =~= p2);
    let all = flatten(spec_moves(b, c, false));
    let kept = if depth == 1 {
        all.filter(p2)
    } else {
        all
    };
    lemma_sort_sym(b, kept);
}

proof fn lemma_upto_wf(b: BoardView, c: Color, check: bool, n: int)
    requires
        board_wf(b),
        0 <= n <= b.squares.len(),
    ensures
        grouped_wf(b, c, moves_upto(b, c, check, n)),
    decreases n,
{
    if n > 0 {
        lemma_upto_wf(b, c, check, n - 1);
        let i = n - 1;
        let prev = moves_upto(b, c, check, n - 1);
        let g = moves_upto(b, c, check, n);
        lemma_pos_of_in_bounds(b, i);
        let p = pos_of(b, i);
        match piece_moves_at(b, c, i) {
            Some(ms) => {
                let piece = b.squares[i]->Some_0.1;
                lemma_piece_moves_wf(b, piece, p, c);
                lemma_filter_wf(b, ms, |m: Seq<Action>| safe_move(b, c, p, m));
                assert(occupied_by(b, p, c));
                assert forall|k: int| 0 <= k < g.len() implies {
                    &&& occupied_by(b, (#[trigger] g[k]).0, c)
                    &&& moves_wf(b, g[k].1)
                } by {
                    if k < prev.len() {
                        assert(g[k] == prev[k]);
                    }
                }
            },
            None => {
                assert(g =~= prev);
            },
        }
    }
}

proof fn lemma_flatten_wf(b: BoardView, c: Color, g: Seq<(Pos, Seq<Seq<Action>>)>)
    requires
        grouped_wf(b, c, g),
    ensures
        cands_wf(b, c, flatten(g)),
    decreases g.len(),
{
    if g.len() > 0 {
        let t = g.drop_last();
        assert forall|i: int| 0 <= i < t.len() implies {
            &&& occupied_by(b, (#[trigger] t[i]).0, c)
            &&& moves_wf(b, t[i].1)
        } by {
            assert(t[i] == g[i]);
        }
        lemma_flatten_wf(b, c, t);
        let f = flatten(g);
        let head = flatten(t);
        let last = g.last();
        assert(occupied_by(b, last.0, c) && moves_wf(b, last.1));
        assert forall|k: int| 0 <= k < f.len() implies occupied_by(b, (#[trigger] f[k]).0, c)
            && actions_wf(b, f[k].1) by {
            if k < head.len() {
                assert(f[k] == head[k]);
            } else {
                assert(f[k] == (last.0, last.1[k - head.len()]));
            }
        }
    }
}

proof fn lemma_moves_cands_wf(b: BoardView, c: Color, check: bool)
    requires
        board_wf(b),
    ensures
        cands_wf(b, c, flatten(spec_moves(b, c, check))),
{
    lemma_upto_wf(b, c, check, b.squares.len() as int);
    lemma_flatten_wf(b, c, spec_moves(b, c, check));
}

pub proof fn lemma_ordered_wf(b: BoardView, c: Color, depth: int)
    requires
        board_wf(b),
    ensures
        cands_wf(b, c, spec_ordered(b, c, depth)),
{
    lemma_moves_cands_wf(b, c, false);
    let all = flatten(spec_moves(b, c, false));
    let inv = |x: (Pos, Seq<Action>)| occupied_by(b, x.0, c) && actions_wf(b, x.1);
    let pred = |x: (Pos, Seq<Action>)| cand_key(b, x) >= 0;
    assert(forall|i: int| 0 <= i < all.len() ==> inv(#[trigger] all[i]));
    lemma_filter_keeps(all, pred, inv);
    let kept = if depth == 1 {
        all.filter(pred)
    } else {
        all
    };
    lemma_sort_keeps(b, kept, inv);
    let o = spec_ordered(b, c, depth);
    assert forall|k: int| 0 <= k < o.len() implies occupied_by(b, (#[trigger] o[k]).0, c) && actions_wf(
        b,
        o[k].1,
    ) by {
        assert(inv(o[k]));
    }
}

proof fn lemma_scan_sym(
    b: BoardView,
    depth: nat,
    alpha: int,
    beta: int,
    c: Color,
    ms: Seq<(Pos, Seq<Action>)>,
    i: int,
    best: int,
)
    requires
        board_wf(b),
        cands_wf(b, c, ms),
    ensures
        scan(spec_invert(b), depth, alpha, beta, c.spec_next(), ms, i, best) == scan(
            b,
            depth,
            alpha,
            beta,
            c,
            ms,
            i,
            best,
        ),
    decreases depth, 0nat, ms.len() - i,
{
    if !(depth == 0 || i < 0 || i >= ms.len()) {
        let m = ms[i];
        assert(occupied_by(b, m.0, c) && actions_wf(b, m.1));
        lemma_play_sym(b, c, m.0, m.1);
        lemma_play_wf(b, c, m.0, m.1);
        let child = spec_play(b, c, m.0, m.1);
        lemma_negamax_sym(child, (depth - 1) as nat, -beta, -alpha, c.spec_next());
        assert(c.spec_next().spec_next() == c);
        let score = -spec_negamax(child, (depth - 1) as nat, -beta, -alpha, c.spec_next());
        let best2 = crate::ai::max(best, score);
        let alpha2 = crate::ai::max(alpha, best2);
        lemma_scan_sym(b, depth, alpha2, beta, c, ms, i + 1, best2);
    }
}

proof fn lemma_negamax_sym(b: BoardView, depth: nat, alpha: int, beta: int, c: Color)
    requires
        board_wf(b),
    ensures
        spec_negamax(spec_invert(b), depth, alpha, beta, c.spec_next()) == spec_negamax(
            b,
            depth,
            alpha,
            beta,
            c,
        ),
    decreases depth, 1nat, 0int,
{
    if depth == 0 {
        lemma_score_upto_sym(b, c, b.squares.len() as int);
    } else {
        lemma_ordered_sym(b, c, depth as int);
        lemma_ordered_wf(b, c, depth as int);
        lemma_scan_sym(b, depth, alpha, beta, c, spec_ordered(b, c, depth as int), 0, -INF);
    }
}

proof fn lemma_best_of_sym(b: BoardView, c: Color, depth: int, cs: Seq<(Pos, Seq<Action>)>, n: int)
    requires
        board_wf(b),
        cands_wf(b, c, cs),
        n <= cs.len(),
    ensures
        best_of(spec_invert(b), c.spec_next(), depth, cs, n) == best_of(b, c, depth, cs, n),
    decreases n,
{
    if n > 0 {
        lemma_best_of_sym(b, c, depth, cs, n - 1);
        let m = cs[n - 1];
        assert(occupied_by(b, m.0, c) && actions_wf(b, m.1));
        lemma_play_sym(b, c, m.0, m.1);
        lemma_play_wf(b, c, m.0, m.1);
        lemma_negamax_sym(spec_play(b, c, m.0, m.1), (depth - 1) as nat, -INF, INF as int, c.spec_next());
        assert(c.spec_next().spec_next() == c);
        assert(cand_score(spec_invert(b), c.spec_next(), depth, m) == cand_score(b, c, depth, m));
    }
}

/// The search picks the same move on the inverted board for the other color.
pub proof fn lemma_minmax_sym(b: BoardView, c: Color, depth: int)
    requires
        board_wf(b),
    ensures
        spec_minmax(spec_invert(b), c.spec_next(), depth) == spec_minmax(b, c, depth),
{
    lemma_moves_sym(b, c, true);
    lemma_moves_cands_wf(b, c, true);
    let cs = flatten(spec_moves(b, c, true));
    lemma_best_of_sym(b, c, depth, cs, cs.len() as int);
}

/// Color symmetry: handing every piece to the other side and letting the
/// other color move first, the search plays the very same moves.
pub proof fn lemma_play_out_color_symmetric(b: BoardView, c: Color, depth: int, n: nat)
    requires
        board_wf(b),
    ensures
        spec_play_out(spec_invert(b), c.spec_next(), depth, n) == spec_play_out(b, c, depth, n),
    decreases n,
{
    if n > 0 {
        lemma_minmax_sym(b, c, depth);
        match spec_minmax(b, c, depth) {
            Some(m) => {
                lemma_moves_cands_wf(b, c, true);
                let cs = flatten(spec_moves(b, c, true));
                lemma_best_of_in(b, c, depth, cs, cs.len() as int);
                let k = choose|k: int| 0 <= k < cs.len() && best_of(b, c, depth, cs, cs.len() as int).0 == Some(
                    #[trigger] cs[k],
                );
                assert(occupied_by(b, m.0, c) && actions_wf(b, m.1));
                lemma_play_sym(b, c, m.0, m.1);
                lemma_play_wf(b, c, m.0, m.1);
                lemma_play_out_color_symmetric(spec_play(b, c, m.0, m.1), c.spec_next(), depth, (n - 1) as nat);
                assert(c.spec_next().spec_next() == c);
            },
            None => {},
        }
    }
}

} // verus!
