use vstd::prelude::*;
use rand::Rng;
use crate::pos::{Pos, MAX_DIM};
use crate::piece::{Action, Color, Piece};
use crate::board::{Board, BoardView, Square, board_wf, in_bounds, spec_get, pos_of, spec_play, spec_moves,
    grouped_view, grouped_wf, occupied_by, actions_wf, lemma_pos_of_in_bounds};
use crate::rules::{seqs_view, moves_wf};

verus! {

/// A bound beyond every evaluation: the score of a side left without moves.
pub const INF: i64 = 1_000_000_000_000_000_000;

/// A bound on the weight of one square in an evaluation: the largest
/// material unit times a king's value, plus the largest centrality
/// (`2 * MAX_DIM * MAX_DIM * 2000 + MAX_DIM * MAX_DIM`).
pub const MAX_SQUARE_SCORE: i64 = 4_195_352_576;

/// Material value in half pawns.
pub open spec fn spec_piece_value(p: Piece) -> int {
    match p {
        Piece::Pawn { .. } => 2,
        Piece::Knight => 6,
        Piece::Bishop => 7,
        Piece::Rook => 10,
        Piece::Queen => 18,
        Piece::King => 2000,
    }
}

pub fn piece_value(piece: Piece) -> (r: i64)
    ensures
        r == spec_piece_value(piece),
{
    match piece {
        Piece::Pawn { .. } => 2,
        Piece::Knight => 6,
        Piece::Bishop => 7,
        Piece::Rook => 10,
        Piece::Queen => 18,
        Piece::King => 2000,
    }
}

/// The span of an axis of `len` cells, at least one.
pub open spec fn span(len: int) -> int {
    if len > 1 {
        len - 1
    } else {
        1
    }
}

pub open spec fn abs(x: int) -> int {
    if x < 0 {
        -x
    } else {
        x
    }
}

/// Centrality of coordinate `x` on an axis of `len` cells, in units of
/// `1 / (2 * span(len))`: the full half at the centre, nothing at the edges.
pub open spec fn spec_axis_value(x: int, len: int) -> int {
    span(len) - abs(2 * x - (len - 1))
}

pub fn axis_value(x: i32, len: usize) -> (r: i64)
    requires
        0 <= x < len,
        len <= MAX_DIM,
    ensures
        r == spec_axis_value(x as int, len as int),
        0 <= r <= MAX_DIM,
{
    let span: i64 = if len > 1 {
        len as i64 - 1
    } else {
        1
    };
    let d = 2 * (x as i64) - (len as i64 - 1);
    let a = if d < 0 {
        -d
    } else {
        d
    };
    span - a
}

/// Centrality of a square, the product of its two axes, in units of
/// `1 / (4 * span(width) * span(height))`.
pub open spec fn spec_pos_value(b: BoardView, p: Pos) -> int {
    spec_axis_value(p.0 as int, b.width) * spec_axis_value(p.1 as int, b.height)
}

pub fn pos_value(board: &Board, pos: Pos) -> (r: i64)
    requires
        board.wf(),
        in_bounds(board@, pos),
    ensures
        r == spec_pos_value(board@, pos),
        0 <= r <= MAX_DIM * MAX_DIM,
{
    let ax = axis_value(pos.0, board.width());
    let ay = axis_value(pos.1, board.height());
    assert(0 <= ax * ay <= MAX_DIM * MAX_DIM) by (nonlinear_arith)
        requires
            0 <= ax <= MAX_DIM,
            0 <= ay <= MAX_DIM,
    ;
    ax * ay
}

/// The weight of material against centrality on a board: a half pawn is
/// worth `2 * span(width) * span(height)` units of centrality.
pub open spec fn material_unit(b: BoardView) -> int {
    2 * span(b.width) * span(b.height)
}

/// What a square adds to the evaluation for `player`.
pub open spec fn square_score(b: BoardView, player: Color, i: int) -> int {
    match b.squares[i] {
        Some((c, p)) => {
            let v = material_unit(b) * spec_piece_value(p) + spec_pos_value(b, pos_of(b, i));
            if c == player {
                v
            } else {
                -v
            }
        },
        None => 0,
    }
}

pub open spec fn score_upto(b: BoardView, player: Color, n: int) -> int
    decreases n,
{
    if n <= 0 {
        0
    } else {
        score_upto(b, player, n - 1) + square_score(b, player, n - 1)
    }
}

/// The static evaluation for `player`: material and centrality of its pieces
/// less those of the opponent's.
pub open spec fn spec_score(b: BoardView, player: Color) -> int {
    score_upto(b, player, b.squares.len() as int)
}

pub fn mat_pos_score(board: &Board, player: Color) -> (r: i64)
    requires
        board.wf(),
    ensures
        r == spec_score(board@, player),
        -INF < r < INF,
{
    let squares = board.squares();
    let w = board.width();
    let h = board.height();
    let sw: i64 = if w > 1 {
        w as i64 - 1
    } else {
        1
    };
    let sh: i64 = if h > 1 {
        h as i64 - 1
    } else {
        1
    };
    assert(1 <= sw * sh <= MAX_DIM * MAX_DIM) by (nonlinear_arith)
        requires
            1 <= sw <= MAX_DIM,
            1 <= sh <= MAX_DIM,
    ;
    let ss = sw * sh;
    let unit = 2 * ss;
    assert(unit == material_unit(board@)) by (nonlinear_arith)
        requires
            unit == 2 * ss,
            ss == sw * sh,
            sw == span(board@.width),
            sh == span(board@.height),
    ;
    let mut total: i64 = 0;
    let mut i: usize = 0;
    assert(squares@.len() <= MAX_DIM * MAX_DIM) by (nonlinear_arith)
        requires
            squares@.len() == w * h,
            1 <= w <= MAX_DIM,
            1 <= h <= MAX_DIM,
    ;
    while i < squares.len()
        invariant
            board.wf(),
            squares@ == board@.squares,
            w == board@.width,
            h == board@.height,
            unit == material_unit(board@),
            1 <= unit <= 2 * MAX_DIM * MAX_DIM,
            squares@.len() <= MAX_DIM * MAX_DIM,
            i <= squares@.len(),
            total == score_upto(board@, player, i as int),
            -(i as int) * MAX_SQUARE_SCORE <= total <= (i as int) * MAX_SQUARE_SCORE,
        decreases squares@.len() - i,
    {
        if let Some((color, piece)) = squares[i] {
            proof {
                lemma_pos_of_in_bounds(board@, i as int);
            }
            let pos = Pos((i % w) as i32, (i / w) as i32);
            let pv = piece_value(piece);
            let posv = pos_value(board, pos);
            assert(0 <= unit * pv <= 2 * MAX_DIM * MAX_DIM * 2000) by (nonlinear_arith)
                requires
                    1 <= unit <= 2 * MAX_DIM * MAX_DIM,
                    0 <= pv <= 2000,
            ;
            let v = unit * pv + posv;
            if color == player {
                total = total + v;
            } else {
                total = total - v;
            }
        }
        i += 1;
    }
    assert(squares@.len() * MAX_SQUARE_SCORE < INF) by (nonlinear_arith)
        requires
            squares@.len() <= MAX_DIM * MAX_DIM,
    ;
    total
}

/// What one action of a mover of `color` gains, in half pawns: a capture of
/// an opponent counts for, of its own side against.
pub open spec fn action_gain(b: BoardView, color: Color, a: Action) -> int {
    match a {
        Action::Go(t) => match spec_get(b, t) {
            Some(Some((c, p))) => if c == color {
                -spec_piece_value(p)
            } else {
                spec_piece_value(p)
            },
            _ => 0,
        },
        Action::Take(t) => match spec_get(b, t) {
            Some(Some((c, p))) => if c == color {
                -spec_piece_value(p)
            } else {
                spec_piece_value(p)
            },
            _ => 0,
        },
        Action::Promotion(p) => spec_piece_value(p),
    }
}

pub open spec fn gain(b: BoardView, color: Color, acts: Seq<Action>) -> int
    decreases acts.len(),
{
    if acts.len() == 0 {
        0
    } else {
        gain(b, color, acts.drop_last()) + action_gain(b, color, acts.last())
    }
}

/// The material a move wins, counting the mover as lost whenever it wins
/// anything.
pub open spec fn spec_move_value(b: BoardView, pos: Pos, acts: Seq<Action>) -> int {
    match spec_get(b, pos) {
        Some(Some((c, p))) => {
            let g = gain(b, c, acts);
            if g > 0 {
                g - spec_piece_value(p)
            } else {
                g
            }
        },
        _ => 0,
    }
}

pub fn move_value(board: &Board, pos: Pos, actions: &Vec<Action>) -> (r: i128)
    requires
        board.wf(),
        spec_get(board@, pos) matches Some(Some(_)),
    ensures
        r == spec_move_value(board@, pos, actions@),
{
    let (color, piece) = match board.get(pos) {
        Some(Some(s)) => s,
        _ => {
            return 0;
        },
    };
    let mut value: i128 = 0;
    let mut k: usize = 0;
    while k < actions.len()
        invariant
            board.wf(),
            k <= actions@.len(),
            value == gain(board@, color, actions@.take(k as int)),
            -2000 * (k as int) <= value <= 2000 * (k as int),
        decreases actions@.len() - k,
    {
        assert(actions@.take(k as int + 1).drop_last() == actions@.take(k as int));
        let target = match actions[k] {
            Action::Go(t) => Some(t),
            Action::Take(t) => Some(t),
            Action::Promotion(_) => None,
        };
        let d: i128 = match target {
            Some(t) => match board.get(t) {
                Some(Some((o_color, o_piece))) => if o_color == color {
                    -(piece_value(o_piece) as i128)
                } else {
                    piece_value(o_piece) as i128
                },
                _ => 0,
            },
            None => match actions[k] {
                Action::Promotion(p) => piece_value(p) as i128,
                _ => 0,
            },
        };
        value = value + d;
        k += 1;
    }
    assert(actions@.take(actions@.len() as int) == actions@);
    if value > 0 {
        value = value - piece_value(piece) as i128;
    }
    value
}


/// A candidate move: its origin and its actions.
pub open spec fn cands_view(v: Seq<(Pos, Vec<Action>)>) -> Seq<(Pos, Seq<Action>)> {
    v.map_values(|e: (Pos, Vec<Action>)| (e.0, e.1@))
}

pub open spec fn cand_opt_view(r: Option<(Pos, Vec<Action>)>) -> Option<(Pos, Seq<Action>)> {
    match r {
        Some((p, a)) => Some((p, a@)),
        None => None,
    }
}

/// The candidates by origin, one after another.
pub open spec fn flatten(g: Seq<(Pos, Seq<Seq<Action>>)>) -> Seq<(Pos, Seq<Action>)>
    decreases g.len(),
{
    if g.len() == 0 {
        Seq::empty()
    } else {
        flatten(g.drop_last()) + g.last().1.map_values(|m: Seq<Action>| (g.last().0, m))
    }
}

/// Every candidate starts on a piece of `color` and can be played.
pub open spec fn cands_wf(b: BoardView, color: Color, cs: Seq<(Pos, Seq<Action>)>) -> bool {
    forall|k: int|
        0 <= k < cs.len() ==> occupied_by(b, (#[trigger] cs[k]).0, color) && actions_wf(b, cs[k].1)
}

/// The candidates of `color`, one after another, origin by origin.
fn flat_moves(board: &Board, color: Color, check_legality: bool) -> (r: Vec<(Pos, Vec<Action>)>)
    requires
        board.wf(),
    ensures
        cands_view(r@) == flatten(spec_moves(board@, color, check_legality)),
        cands_wf(board@, color, cands_view(r@)),
{
    let groups = board.moves(color, check_legality);
    let ghost g = grouped_view(groups@);
    let mut out: Vec<(Pos, Vec<Action>)> = Vec::new();
    assert(cands_view(out@) =~= flatten(g.take(0)));
    let mut i: usize = 0;
    while i < groups.len()
        invariant
            board.wf(),
            g == grouped_view(groups@),
            grouped_wf(board@, color, g),
            i <= groups@.len(),
            cands_view(out@) == flatten(g.take(i as int)),
            cands_wf(board@, color, cands_view(out@)),
        decreases groups@.len() - i,
    {
        let pos = groups[i].0;
        let ms = &groups[i].1;
        assert(g[i as int] == (pos, seqs_view(ms@)));
        assert(g.take(i as int + 1).drop_last() == g.take(i as int));
        let ghost head = cands_view(out@);
        let mut j: usize = 0;
        assert(cands_view(out@) =~= head + seqs_view(ms@).take(0).map_values(|m: Seq<Action>| (pos, m)));
        while j < ms.len()
            invariant
                board.wf(),
                grouped_wf(board@, color, g),
                i < groups@.len(),
                g.len() == groups@.len(),
                g[i as int] == (pos, seqs_view(ms@)),
                j <= ms@.len(),
                cands_wf(board@, color, head),
                cands_view(out@) == head + seqs_view(ms@).take(j as int).map_values(
                    |m: Seq<Action>| (pos, m),
                ),
                cands_wf(board@, color, cands_view(out@)),
            decreases ms@.len() - j,
        {
            let ghost before = cands_view(out@);
            let a = crate::rules::copy_actions(&ms[j]);
            assert(seqs_view(ms@)[j as int] == a@);
            assert(actions_wf(board@, a@)) by {
                assert(moves_wf(board@, g[i as int].1));
            }
            out.push((pos, a));
            assert(cands_view(out@) =~= before.push((pos, a@)));
            assert(cands_view(out@) =~= head + seqs_view(ms@).take(j as int + 1).map_values(
                |m: Seq<Action>| (pos, m),
            ));
            assert forall|k: int| 0 <= k < cands_view(out@).len() implies occupied_by(
                board@,
                (#[trigger] cands_view(out@)[k]).0,
                color,
            ) && actions_wf(board@, cands_view(out@)[k].1) by {
                if k < before.len() {
                    assert(cands_view(out@)[k] == before[k]);
                } else {
                    assert(cands_view(out@)[k] == (pos, a@));
                    assert(occupied_by(board@, g[i as int].0, color));
                }
            }
            j += 1;
        }
        assert(seqs_view(ms@).take(ms@.len() as int) == seqs_view(ms@));
        i += 1;
    }
    assert(g.take(groups@.len() as int) == g);
    out
}

pub proof fn lemma_filter_keeps<A>(s: Seq<A>, pred: spec_fn(A) -> bool, inv: spec_fn(A) -> bool)
    requires
        forall|i: int| 0 <= i < s.len() ==> inv(#[trigger] s[i]),
    ensures
        forall|i: int| 0 <= i < s.filter(pred).len() ==> inv(#[trigger] s.filter(pred)[i]),
{
    let f = s.filter(pred);
    assert forall|i: int| 0 <= i < f.len() implies inv(#[trigger] f[i]) by {
        assert(f.contains(f[i]));
        s.lemma_filter_contains_rev(pred, f[i]);
        let k = choose|k: int| 0 <= k < s.len() && s[k] == f[i];
    }
}

pub open spec fn cand_key(b: BoardView, c: (Pos, Seq<Action>)) -> int {
    spec_move_value(b, c.0, c.1)
}

/// `x` placed in the list sorted by descending value, after the candidates
/// that are worth as much.
pub open spec fn insert_desc(b: BoardView, s: Seq<(Pos, Seq<Action>)>, x: (Pos, Seq<Action>)) -> Seq<
    (Pos, Seq<Action>),
>
    decreases s.len(),
{
    if s.len() == 0 {
        seq![x]
    } else if cand_key(b, s[0]) < cand_key(b, x) {
        seq![x] + s
    } else {
        seq![s[0]] + insert_desc(b, s.drop_first(), x)
    }
}

/// The candidates in descending order of value; equal ones keep their order.
pub open spec fn sort_desc(b: BoardView, s: Seq<(Pos, Seq<Action>)>) -> Seq<(Pos, Seq<Action>)>
    decreases s.len(),
{
    if s.len() == 0 {
        s
    } else {
        insert_desc(b, sort_desc(b, s.drop_last()), s.last())
    }
}

proof fn lemma_insert_at(b: BoardView, s: Seq<(Pos, Seq<Action>)>, x: (Pos, Seq<Action>), j: int)
    requires
        0 <= j <= s.len(),
        forall|k: int| 0 <= k < j ==> cand_key(b, #[trigger] s[k]) >= cand_key(b, x),
        j == s.len() || cand_key(b, s[j]) < cand_key(b, x),
    ensures
        insert_desc(b, s, x) == s.insert(j, x),
    decreases j,
{
    if s.len() == 0 {
        assert(s.insert(j, x) =~= seq![x]);
    } else if j == 0 {
        assert(s.insert(j, x) =~= seq![x] + s);
    } else {
        assert(cand_key(b, s[0]) >= cand_key(b, x));
        let t = s.drop_first();
        assert forall|k: int| 0 <= k < j - 1 implies cand_key(b, #[trigger] t[k]) >= cand_key(b, x) by {
            assert(t[k] == s[k + 1]);
        }
        if j < s.len() {
            assert(t[j - 1] == s[j]);
        }
        lemma_insert_at(b, t, x, j - 1);
        assert(s.insert(j, x) =~= seq![s[0]] + t.insert(j - 1, x));
    }
}

proof fn lemma_insert_keeps(
    b: BoardView,
    s: Seq<(Pos, Seq<Action>)>,
    x: (Pos, Seq<Action>),
    inv: spec_fn((Pos, Seq<Action>)) -> bool,
)
    requires
        forall|i: int| 0 <= i < s.len() ==> inv(#[trigger] s[i]),
        inv(x),
    ensures
        forall|i: int| 0 <= i < insert_desc(b, s, x).len() ==> inv(#[trigger] insert_desc(b, s, x)[i]),
    decreases s.len(),
{
    if s.len() > 0 && cand_key(b, s[0]) >= cand_key(b, x) {
        let t = s.drop_first();
        assert forall|i: int| 0 <= i < t.len() implies inv(#[trigger] t[i]) by {
            assert(t[i] == s[i + 1]);
        }
        lemma_insert_keeps(b, t, x, inv);
        let r = insert_desc(b, s, x);
        assert forall|i: int| 0 <= i < r.len() implies inv(#[trigger] r[i]) by {
            if i > 0 {
                assert(r[i] == insert_desc(b, t, x)[i - 1]);
            }
        }
    } else if s.len() > 0 {
        let r = insert_desc(b, s, x);
        assert forall|i: int| 0 <= i < r.len() implies inv(#[trigger] r[i]) by {
            if i > 0 {
                assert(r[i] == s[i - 1]);
            }
        }
    }
}

pub proof fn lemma_sort_keeps(b: BoardView, s: Seq<(Pos, Seq<Action>)>, inv: spec_fn((Pos, Seq<Action>)) -> bool)
    requires
        forall|i: int| 0 <= i < s.len() ==> inv(#[trigger] s[i]),
    ensures
        forall|i: int| 0 <= i < sort_desc(b, s).len() ==> inv(#[trigger] sort_desc(b, s)[i]),
    decreases s.len(),
{
    if s.len() > 0 {
        let t = s.drop_last();
        assert forall|i: int| 0 <= i < t.len() implies inv(#[trigger] t[i]) by {
            assert(t[i] == s[i]);
        }
        lemma_sort_keeps(b, t, inv);
        lemma_insert_keeps(b, sort_desc(b, t), s.last(), inv);
    }
}

/// The candidates that a node at `depth` explores, in the order it explores
/// them: at the last ply those that lose material are left out.
pub open spec fn spec_ordered(b: BoardView, color: Color, depth: int) -> Seq<(Pos, Seq<Action>)> {
    let all = flatten(spec_moves(b, color, false));
    let kept = if depth == 1 {
        all.filter(|c: (Pos, Seq<Action>)| cand_key(b, c) >= 0)
    } else {
        all
    };
    sort_desc(b, kept)
}

fn ordered_moves(board: &Board, color: Color, depth: u32) -> (r: Vec<(Pos, Vec<Action>)>)
    requires
        board.wf(),
    ensures
        cands_view(r@) == spec_ordered(board@, color, depth as int),
        cands_wf(board@, color, cands_view(r@)),
{
    let all = flat_moves(board, color, false);
    let ghost b = board@;
    let ghost pred = |c: (Pos, Seq<Action>)| cand_key(b, c) >= 0;
    let ghost inv = |c: (Pos, Seq<Action>)| occupied_by(b, c.0, color) && actions_wf(b, c.1);
    let mut kept: Vec<(Pos, Vec<Action>)> = Vec::new();
    let mut kept_keys: Vec<i128> = Vec::new();
    let mut i: usize = 0;
    let ghost av = cands_view(all@);
    let ghost target = if depth == 1 {
        av.filter(pred)
    } else {
        av
    };
    assert(cands_view(kept@) =~= av.take(0).filter(pred)) by {
        reveal(Seq::filter);
    }
    assert(cands_view(kept@) =~= av.take(0));
    while i < all.len()
        invariant
            board.wf(),
            b == board@,
            av == cands_view(all@),
            cands_wf(b, color, av),
            pred == (|c: (Pos, Seq<Action>)| cand_key(b, c) >= 0),
            i <= all@.len(),
            kept_keys@.len() == kept@.len(),
            forall|t: int| 0 <= t < kept@.len() ==> kept_keys@[t] == cand_key(b, #[trigger] cands_view(kept@)[t]),
            cands_view(kept@) == if depth == 1 {
                av.take(i as int).filter(pred)
            } else {
                av.take(i as int)
            },
        decreases all@.len() - i,
    {
        assert(av[i as int] == (all@[i as int].0, all@[i as int].1@));
        assert(occupied_by(b, av[i as int].0, color));
        let k = move_value(board, all[i].0, &all[i].1);
        proof {
            assert(av.take(i as int + 1).drop_last() == av.take(i as int));
            reveal(Seq::filter);
        }
        if depth != 1 || k >= 0 {
            let ghost before = cands_view(kept@);
            let a = crate::rules::copy_actions(&all[i].1);
            kept.push((all[i].0, a));
            kept_keys.push(k);
            assert(cands_view(kept@) =~= before.push(av[i as int]));
            assert forall|t: int| 0 <= t < kept@.len() implies kept_keys@[t] == cand_key(
                b,
                #[trigger] cands_view(kept@)[t],
            ) by {
                if t < before.len() {
                    assert(cands_view(kept@)[t] == before[t]);
                }
            }
        }
        i += 1;
    }
    assert(av.take(all@.len() as int) == av);
    assert(cands_view(kept@) == target);
    // insertion sort by descending value, stable
    let mut sorted: Vec<(Pos, Vec<Action>)> = Vec::new();
    let mut keys: Vec<i128> = Vec::new();
    let ghost kv = cands_view(kept@);
    assert(cands_view(sorted@) =~= sort_desc(b, kv.take(0)));
    let mut n: usize = 0;
    while n < kept.len()
        invariant
            board.wf(),
            b == board@,
            kv == cands_view(kept@),
            kept_keys@.len() == kept@.len(),
            forall|t: int| 0 <= t < kept@.len() ==> kept_keys@[t] == cand_key(b, #[trigger] kv[t]),
            n <= kept@.len(),
            keys@.len() == sorted@.len(),
            cands_view(sorted@) == sort_desc(b, kv.take(n as int)),
            forall|t: int| 0 <= t < sorted@.len() ==> keys@[t] == cand_key(b, #[trigger] cands_view(sorted@)[t]),
        decreases kept@.len() - n,
    {
        let k = kept_keys[n];
        assert(kv[n as int] == (kept@[n as int].0, kept@[n as int].1@));
        let mut j: usize = 0;
        while j < sorted.len() && keys[j] >= k
            invariant
                j <= sorted@.len(),
                keys@.len() == sorted@.len(),
                forall|t: int| 0 <= t < j ==> keys@[t] >= k,
            decreases sorted@.len() - j,
        {
            j += 1;
        }
        let ghost before = cands_view(sorted@);
        proof {
            assert(kv.take(n as int + 1).drop_last() == kv.take(n as int));
            assert(kv.take(n as int + 1).last() == kv[n as int]);
            assert forall|t: int| 0 <= t < j implies cand_key(b, #[trigger] before[t]) >= cand_key(b, kv[n as int]) by {
                assert(keys@[t] == cand_key(b, before[t]));
            }
            if j < before.len() {
                assert(keys@[j as int] == cand_key(b, before[j as int]));
            }
            lemma_insert_at(b, before, kv[n as int], j as int);
        }
        let a = crate::rules::copy_actions(&kept[n].1);
        sorted.insert(j, (kept[n].0, a));
        keys.insert(j, k);
        assert(cands_view(sorted@) =~= before.insert(j as int, kv[n as int]));
        assert forall|t: int| 0 <= t < sorted@.len() implies keys@[t] == cand_key(b, #[trigger] cands_view(sorted@)[t]) by {
            if t < j {
                assert(cands_view(sorted@)[t] == before[t]);
            } else if t > j {
                assert(cands_view(sorted@)[t] == before[t - 1]);
            }
        }
        n += 1;
    }
    assert(kv.take(kept@.len() as int) == kv);
    proof {
        assert(forall|t: int| 0 <= t < av.len() ==> inv(#[trigger] av[t]));
        if depth == 1 {
            lemma_filter_keeps(av, pred, inv);
        }
        lemma_sort_keeps(b, kv, inv);
        assert forall|t: int| 0 <= t < cands_view(sorted@).len() implies occupied_by(
            b,
            (#[trigger] cands_view(sorted@)[t]).0,
            color,
        ) && actions_wf(b, cands_view(sorted@)[t].1) by {
            assert(inv(sort_desc(b, kv)[t]));
        }
    }
    sorted
}


pub open spec fn max(a: int, b: int) -> int {
    if a >= b {
        a
    } else {
        b
    }
}

/// The children of a node, from the `i`-th candidate on, with the best score
/// found so far and the lower bound `alpha`: each raises both, and the scan
/// stops as soon as `alpha` reaches `beta`.
pub open spec fn scan(
    b: BoardView,
    depth: nat,
    alpha: int,
    beta: int,
    color: Color,
    ms: Seq<(Pos, Seq<Action>)>,
    i: int,
    best: int,
) -> int
    decreases depth, 0nat, ms.len() - i,
{
    if depth == 0 || i < 0 || i >= ms.len() {
        best
    } else {
        let child = spec_play(b, color, ms[i].0, ms[i].1);
        let score = -spec_negamax(child, (depth - 1) as nat, -beta, -alpha, color.spec_next());
        let best2 = max(best, score);
        let alpha2 = max(alpha, best2);
        if alpha2 >= beta {
            best2
        } else {
            scan(b, depth, alpha2, beta, color, ms, i + 1, best2)
        }
    }
}

/// Negamax with alpha-beta pruning: the evaluation at depth zero, otherwise
/// the best of the children's negated scores over the ordered candidates.
pub open spec fn spec_negamax(b: BoardView, depth: nat, alpha: int, beta: int, color: Color) -> int
    decreases depth, 1nat, 0int,
{
    if depth == 0 {
        spec_score(b, color)
    } else {
        scan(b, depth, alpha, beta, color, spec_ordered(b, color, depth as int), 0, -INF)
    }
}

fn negamax(board: &Board, depth: u32, alpha: i64, beta: i64, color: Color) -> (r: i64)
    requires
        board.wf(),
        -INF <= alpha <= INF,
        -INF <= beta <= INF,
    ensures
        r == spec_negamax(board@, depth as nat, alpha as int, beta as int, color),
        -INF <= r <= INF,
    decreases depth,
{
    if depth == 0 {
        return mat_pos_score(board, color);
    }
    let ordered = ordered_moves(board, color, depth);
    let ghost ov = cands_view(ordered@);
    let ghost b = board@;
    let ghost alpha0 = alpha as int;
    let mut lower = alpha;
    let mut best: i64 = -INF;
    let mut i: usize = 0;
    while i < ordered.len()
        invariant
            board.wf(),
            b == board@,
            depth >= 1,
            ov == cands_view(ordered@),
            ov == spec_ordered(b, color, depth as int),
            cands_wf(b, color, ov),
            -INF <= lower <= INF,
            -INF <= beta <= INF,
            alpha0 == alpha,
            -INF <= best <= INF,
            i <= ordered@.len(),
            scan(b, depth as nat, alpha0, beta as int, color, ov, 0, -INF) == scan(
                b,
                depth as nat,
                lower as int,
                beta as int,
                color,
                ov,
                i as int,
                best as int,
            ),
        decreases ordered@.len() - i,
    {
        assert(ov[i as int] == (ordered@[i as int].0, ordered@[i as int].1@));
        let ghost a_pre = lower as int;
        let ghost b_pre = best as int;
        let child = board.play(color, ordered[i].0, &ordered[i].1);
        let score = -negamax(&child, depth - 1, -beta, -lower, color.next());
        if score > best {
            best = score;
        }
        if best > lower {
            lower = best;
        }
        if lower >= beta {
            assert(scan(b, depth as nat, a_pre, beta as int, color, ov, i as int, b_pre) == best);
            return best;
        }
        assert(scan(b, depth as nat, a_pre, beta as int, color, ov, i as int, b_pre) == scan(
            b,
            depth as nat,
            lower as int,
            beta as int,
            color,
            ov,
            i + 1,
            best as int,
        ));
        i += 1;
    }
    best
}

/// The best of the negated children's values from the `i`-th candidate on,
/// without pruning; `-INF` when there is none.
pub open spec fn plain_best(b: BoardView, depth: nat, color: Color, ms: Seq<(Pos, Seq<Action>)>, i: int) -> int
    decreases depth, 0nat, ms.len() - i,
{
    if depth == 0 || i < 0 || i >= ms.len() {
        -INF
    } else {
        let child = spec_play(b, color, ms[i].0, ms[i].1);
        max(-plain_negamax(child, (depth - 1) as nat, color.spec_next()), plain_best(b, depth, color, ms, i + 1))
    }
}

/// Negamax without pruning, over the same candidates.
pub open spec fn plain_negamax(b: BoardView, depth: nat, color: Color) -> int
    decreases depth, 1nat, 0int,
{
    if depth == 0 {
        spec_score(b, color)
    } else {
        plain_best(b, depth, color, spec_ordered(b, color, depth as int), 0)
    }
}

pub open spec fn clamp(x: int, lo: int, hi: int) -> int {
    if x < lo {
        lo
    } else if x > hi {
        hi
    } else {
        x
    }
}

proof fn lemma_scan_window(
    b: BoardView,
    depth: nat,
    alpha0: int,
    alpha: int,
    beta: int,
    color: Color,
    ms: Seq<(Pos, Seq<Action>)>,
    i: int,
    best: int,
)
    requires
        -INF <= alpha0,
        alpha == max(alpha0, best),
        alpha < beta,
        beta <= INF,
        best >= -INF,
    ensures
        clamp(scan(b, depth, alpha, beta, color, ms, i, best), alpha0, beta) == clamp(
            max(best, plain_best(b, depth, color, ms, i)),
            alpha0,
            beta,
        ),
    decreases depth, 0nat, ms.len() - i,
{
    if !(depth == 0 || i < 0 || i >= ms.len()) {
        let child = spec_play(b, color, ms[i].0, ms[i].1);
        lemma_window(child, (depth - 1) as nat, -beta, -alpha, color.spec_next());
        let r = spec_negamax(child, (depth - 1) as nat, -beta, -alpha, color.spec_next());
        let v = plain_negamax(child, (depth - 1) as nat, color.spec_next());
        let s = -r;
        let best2 = max(best, s);
        let alpha2 = max(alpha, best2);
        let p = plain_best(b, depth, color, ms, i + 1);
        assert(clamp(s, alpha, beta) == clamp(-v, alpha, beta));
        assert(clamp(best2, alpha0, beta) == clamp(max(best, -v), alpha0, beta));
        if alpha2 < beta {
            lemma_scan_window(b, depth, alpha0, alpha2, beta, color, ms, i + 1, best2);
        }
    }
}

proof fn lemma_window(b: BoardView, depth: nat, alpha: int, beta: int, color: Color)
    requires
        -INF <= alpha < beta <= INF,
    ensures
        clamp(spec_negamax(b, depth, alpha, beta, color), alpha, beta) == clamp(
            plain_negamax(b, depth, color),
            alpha,
            beta,
        ),
    decreases depth, 1nat, 0int,
{
    if depth > 0 {
        lemma_scan_window(b, depth, alpha, alpha, beta, color, spec_ordered(b, color, depth as int), 0, -INF);
    }
}

/// Pruning never changes the value: with the full window, the search's
/// value is that of negamax without pruning, both read within `[-INF, INF]`.
pub proof fn lemma_pruning_keeps_value(b: BoardView, depth: nat, color: Color)
    ensures
        clamp(spec_negamax(b, depth, -INF, INF as int, color), -INF, INF as int) == clamp(
            plain_negamax(b, depth, color),
            -INF,
            INF as int,
        ),
{
    lemma_window(b, depth, -INF, INF as int, color);
}

proof fn lemma_score_bound(b: BoardView, c: Color, n: int)
    requires
        board_wf(b),
        0 <= n <= b.squares.len(),
    ensures
        -n * MAX_SQUARE_SCORE <= score_upto(b, c, n) <= n * MAX_SQUARE_SCORE,
    decreases n,
{
    if n > 0 {
        lemma_score_bound(b, c, n - 1);
        let i = n - 1;
        match b.squares[i] {
            Some((c2, p)) => {
                lemma_pos_of_in_bounds(b, i);
                let q = pos_of(b, i);
                let (sw, sh) = (span(b.width), span(b.height));
                let (ax, ay) = (spec_axis_value(q.0 as int, b.width), spec_axis_value(q.1 as int, b.height));
                assert(0 <= ax <= MAX_DIM && 0 <= ay <= MAX_DIM);
                assert(0 <= ax * ay <= MAX_DIM * MAX_DIM) by (nonlinear_arith)
                    requires
                        0 <= ax <= MAX_DIM,
                        0 <= ay <= MAX_DIM,
                ;
                let v = spec_piece_value(p);
                assert(0 <= 2 * sw * sh * v <= 2 * MAX_DIM * MAX_DIM * 2000) by (nonlinear_arith)
                    requires
                        1 <= sw <= MAX_DIM,
                        1 <= sh <= MAX_DIM,
                        0 <= v <= 2000,
                ;
            },
            None => {},
        }
    }
}

/// The evaluation of a well-formed board lies strictly within `(-INF, INF)`.
pub proof fn lemma_score_within(b: BoardView, c: Color)
    requires
        board_wf(b),
    ensures
        -INF < spec_score(b, c) < INF,
{
    let n = b.squares.len() as int;
    lemma_score_bound(b, c, n);
    let (w, h) = (b.width, b.height);
    assert(n <= MAX_DIM * MAX_DIM) by (nonlinear_arith)
        requires
            n == w * h,
            1 <= w <= MAX_DIM,
            1 <= h <= MAX_DIM,
    ;
    assert(n * MAX_SQUARE_SCORE < INF) by (nonlinear_arith)
        requires
            0 <= n <= MAX_DIM * MAX_DIM,
    ;
}

proof fn lemma_plain_best_within(b: BoardView, depth: nat, color: Color, ms: Seq<(Pos, Seq<Action>)>, i: int)
    requires
        board_wf(b),
        cands_wf(b, color, ms),
    ensures
        -INF <= plain_best(b, depth, color, ms, i) <= INF,
    decreases depth, 0nat, ms.len() - i,
{
    if !(depth == 0 || i < 0 || i >= ms.len()) {
        assert(occupied_by(b, ms[i].0, color) && actions_wf(b, ms[i].1));
        crate::symmetry::lemma_play_wf(b, color, ms[i].0, ms[i].1);
        lemma_plain_within(spec_play(b, color, ms[i].0, ms[i].1), (depth - 1) as nat, color.spec_next());
        lemma_plain_best_within(b, depth, color, ms, i + 1);
    }
}

proof fn lemma_plain_within(b: BoardView, depth: nat, color: Color)
    requires
        board_wf(b),
    ensures
        -INF <= plain_negamax(b, depth, color) <= INF,
    decreases depth, 1nat, 0int,
{
    if depth == 0 {
        lemma_score_within(b, color);
    } else {
        crate::symmetry::lemma_ordered_wf(b, color, depth as int);
        lemma_plain_best_within(b, depth, color, spec_ordered(b, color, depth as int), 0);
    }
}

proof fn lemma_scan_within(
    b: BoardView,
    depth: nat,
    alpha: int,
    beta: int,
    color: Color,
    ms: Seq<(Pos, Seq<Action>)>,
    i: int,
    best: int,
)
    requires
        board_wf(b),
        cands_wf(b, color, ms),
        -INF <= best <= INF,
    ensures
        -INF <= scan(b, depth, alpha, beta, color, ms, i, best) <= INF,
    decreases depth, 0nat, ms.len() - i,
{
    if !(depth == 0 || i < 0 || i >= ms.len()) {
        assert(occupied_by(b, ms[i].0, color) && actions_wf(b, ms[i].1));
        crate::symmetry::lemma_play_wf(b, color, ms[i].0, ms[i].1);
        let child = spec_play(b, color, ms[i].0, ms[i].1);
        lemma_negamax_within(child, (depth - 1) as nat, -beta, -alpha, color.spec_next());
        let s = -spec_negamax(child, (depth - 1) as nat, -beta, -alpha, color.spec_next());
        let best2 = max(best, s);
        lemma_scan_within(b, depth, max(alpha, best2), beta, color, ms, i + 1, best2);
    }
}

proof fn lemma_negamax_within(b: BoardView, depth: nat, alpha: int, beta: int, color: Color)
    requires
        board_wf(b),
    ensures
        -INF <= spec_negamax(b, depth, alpha, beta, color) <= INF,
    decreases depth, 1nat, 0int,
{
    if depth == 0 {
        lemma_score_within(b, color);
    } else {
        crate::symmetry::lemma_ordered_wf(b, color, depth as int);
        lemma_scan_within(b, depth, alpha, beta, color, spec_ordered(b, color, depth as int), 0, -INF);
    }
}

/// On a well-formed board, the search with the full window has exactly the
/// value of negamax without pruning.
pub proof fn lemma_pruning_exact(b: BoardView, depth: nat, color: Color)
    requires
        board_wf(b),
    ensures
        spec_negamax(b, depth, -INF, INF as int, color) == plain_negamax(b, depth, color),
{
    lemma_pruning_keeps_value(b, depth, color);
    lemma_negamax_within(b, depth, -INF, INF as int, color);
    lemma_plain_within(b, depth, color);
}

/// The score of a candidate for the side that plays it, searched to `depth`.
pub open spec fn cand_score(b: BoardView, color: Color, depth: int, c: (Pos, Seq<Action>)) -> int {
    -spec_negamax(spec_play(b, color, c.0, c.1), (depth - 1) as nat, -INF, INF as int, color.spec_next())
}

/// The first candidate among the first `n` with the greatest score, with
/// that score; a later candidate replaces it only when strictly better.
pub open spec fn best_of(b: BoardView, color: Color, depth: int, cs: Seq<(Pos, Seq<Action>)>, n: int) -> (
    Option<(Pos, Seq<Action>)>,
    int,
)
    decreases n,
{
    if n <= 0 {
        (None, -INF)
    } else {
        let (bm, bs) = best_of(b, color, depth, cs, n - 1);
        let s = cand_score(b, color, depth, cs[n - 1]);
        if bm is None || s > bs {
            (Some(cs[n - 1]), s)
        } else {
            (bm, bs)
        }
    }
}

/// The move that the search picks for `color` at `depth`.
pub open spec fn spec_minmax(b: BoardView, color: Color, depth: int) -> Option<(Pos, Seq<Action>)> {
    let cs = flatten(spec_moves(b, color, true));
    best_of(b, color, depth, cs, cs.len() as int).0
}

pub proof fn lemma_best_of_in(b: BoardView, color: Color, depth: int, cs: Seq<(Pos, Seq<Action>)>, n: int)
    requires
        0 <= n <= cs.len(),
    ensures
        best_of(b, color, depth, cs, n).0 is Some ==> exists|k: int|
            0 <= k < n && best_of(b, color, depth, cs, n).0 == Some(#[trigger] cs[k]),
    decreases n,
{
    if n > 0 {
        lemma_best_of_in(b, color, depth, cs, n - 1);
    }
}

/// The best move for `color`, searching `depth` plies with negamax and
/// alpha-beta pruning; among equal scores the first candidate wins. `None`
/// when `color` has no legal candidate.
pub fn minmax(board: &Board, color: Color, depth: u32) -> (r: Option<(Pos, Vec<Action>)>)
    requires
        board.wf(),
        depth >= 1,
    ensures
        cand_opt_view(r) == spec_minmax(board@, color, depth as int),
        r is None <==> flatten(spec_moves(board@, color, true)).len() == 0,
        spec_moves(board@, color, true).len() == 0 ==> r is None,
        r is Some ==> flatten(spec_moves(board@, color, true)).contains(cand_opt_view(r)->Some_0),
        r is Some ==> occupied_by(board@, cand_opt_view(r)->Some_0.0, color) && actions_wf(
            board@,
            cand_opt_view(r)->Some_0.1,
        ),
{
    let all = flat_moves(board, color, true);
    let ghost cs = cands_view(all@);
    let ghost b = board@;
    let mut best_score: i64 = -INF;
    let mut best_index: Option<usize> = None;
    let mut i: usize = 0;
    while i < all.len()
        invariant
            board.wf(),
            b == board@,
            depth >= 1,
            cs == cands_view(all@),
            cs == flatten(spec_moves(b, color, true)),
            cands_wf(b, color, cs),
            i <= all@.len(),
            -INF <= best_score <= INF,
            best_score == best_of(b, color, depth as int, cs, i as int).1,
            match best_index {
                Some(k) => k < i && best_of(b, color, depth as int, cs, i as int).0 == Some(cs[k as int]),
                None => best_of(b, color, depth as int, cs, i as int).0 is None && i == 0,
            },
        decreases all@.len() - i,
    {
        assert(cs[i as int] == (all@[i as int].0, all@[i as int].1@));
        let child = board.play(color, all[i].0, &all[i].1);
        let score = -negamax(&child, depth - 1, -INF, INF, color.next());
        if best_index.is_none() || score > best_score {
            best_index = Some(i);
            best_score = score;
        }
        i += 1;
    }
    match best_index {
        Some(k) => {
            let a = crate::rules::copy_actions(&all[k].1);
            assert(cs[k as int] == (all@[k as int].0, all@[k as int].1@));
            assert(cs.contains(cs[k as int]));
            Some((all[k].0, a))
        },
        None => {
            proof {
                lemma_flatten_empty(spec_moves(b, color, true));
            }
            None
        },
    }
}


/// Relies on rand's `thread_rng` and `Rng::gen_range`, which for a non-empty
/// range `0..n` returns a value in it.
#[verifier::external_body]
fn random_index(n: usize) -> (r: usize)
    requires
        n > 0,
    ensures
        r < n,
{
    rand::thread_rng().gen_range(0..n)
}

/// The `j`-th candidate of the `i`-th origin.
pub fn pick_move(groups: &Vec<(Pos, Vec<Vec<Action>>)>, i: usize, j: usize) -> (r: (Pos, Vec<Action>))
    requires
        i < groups@.len(),
        j < groups@[i as int].1@.len(),
    ensures
        r.0 == grouped_view(groups@)[i as int].0,
        r.1@ == grouped_view(groups@)[i as int].1[j as int],
{
    (groups[i].0, crate::rules::copy_actions(&groups[i].1[j]))
}

/// A random legal candidate of `color`: an origin drawn uniformly among
/// those with candidates, then one of its candidates drawn uniformly. `None`
/// when there is none.
pub fn random_move(board: &Board, color: Color) -> (r: Option<(Pos, Vec<Action>)>)
    requires
        board.wf(),
    ensures
        r is None <==> flatten(spec_moves(board@, color, true)).len() == 0,
        r is Some ==> exists|i: int, j: int|
            0 <= i < spec_moves(board@, color, true).len() && 0 <= j < spec_moves(
                board@,
                color,
                true,
            )[i].1.len() && cand_opt_view(r) == Some(
                (spec_moves(board@, color, true)[i].0, #[trigger] spec_moves(board@, color, true)[i].1[j]),
            ),
        r is Some ==> flatten(spec_moves(board@, color, true)).contains(cand_opt_view(r)->Some_0),
        flatten(spec_moves(board@, color, true)).len() == 1 ==> cand_opt_view(r) == Some(
            flatten(spec_moves(board@, color, true))[0],
        ),
{
    let groups = board.moves(color, true);
    let ghost g = grouped_view(groups@);
    // the origins that have at least one candidate
    let mut live: Vec<usize> = Vec::new();
    let mut k: usize = 0;
    while k < groups.len()
        invariant
            g == grouped_view(groups@),
            k <= groups@.len(),
            forall|t: int| 0 <= t < live@.len() ==> (#[trigger] live@[t]) < groups@.len() && g[live@[t] as int].1.len() > 0,
            live@.len() == 0 ==> forall|t: int| 0 <= t < k ==> (#[trigger] g[t]).1.len() == 0,
        decreases groups@.len() - k,
    {
        assert(g[k as int].1.len() == groups@[k as int].1@.len());
        if groups[k].1.len() > 0 {
            live.push(k);
        }
        k += 1;
    }
    if live.len() == 0 {
        proof {
            lemma_flatten_empty(g);
        }
        return None;
    }
    let i = live[random_index(live.len())];
    let j = random_index(groups[i].1.len());
    let (p, a) = pick_move(&groups, i, j);
    proof {
        lemma_flatten_member(g, i as int, j as int);
        if flatten(g).len() == 1 {
            let f = flatten(g);
            let t = choose|t: int| 0 <= t < f.len() && f[t] == (p, a@);
        }
    }
    Some((p, a))
}

/// The candidates are all empty exactly when there is nothing to flatten.
pub proof fn lemma_flatten_empty(g: Seq<(Pos, Seq<Seq<Action>>)>)
    ensures
        flatten(g).len() == 0 <==> forall|t: int| 0 <= t < g.len() ==> (#[trigger] g[t]).1.len() == 0,
    decreases g.len(),
{
    if g.len() > 0 {
        lemma_flatten_empty(g.drop_last());
        let t = g.drop_last();
        if flatten(g).len() == 0 {
            assert forall|x: int| 0 <= x < g.len() implies (#[trigger] g[x]).1.len() == 0 by {
                if x < t.len() {
                    assert(g[x] == t[x]);
                }
            }
        } else {
            if forall|x: int| 0 <= x < g.len() ==> (#[trigger] g[x]).1.len() == 0 {
                assert forall|x: int| 0 <= x < t.len() implies (#[trigger] t[x]).1.len() == 0 by {
                    assert(g[x] == t[x]);
                }
                assert(g[g.len() - 1].1.len() == 0);
            }
        }
    }
}

/// Every candidate of every origin stands in the flattened list.
pub proof fn lemma_flatten_member(g: Seq<(Pos, Seq<Seq<Action>>)>, i: int, j: int)
    requires
        0 <= i < g.len(),
        0 <= j < g[i].1.len(),
    ensures
        flatten(g).contains((g[i].0, g[i].1[j])),
    decreases g.len(),
{
    let t = g.drop_last();
    let head = flatten(t);
    let f = flatten(g);
    if i < g.len() - 1 {
        assert(t[i] == g[i]);
        lemma_flatten_member(t, i, j);
        let k = choose|k: int| 0 <= k < head.len() && head[k] == (t[i].0, t[i].1[j]);
        assert(f[k] == head[k]);
    } else {
        assert(f[head.len() + j] == (g[i].0, g[i].1[j]));
    }
}

/// The game that the search plays against itself from `b`, `player` moving
/// first: each move is the search's choice at `depth` on the board reached so
/// far, until the side to move has none or `n` moves are made.
pub open spec fn spec_play_out(b: BoardView, player: Color, depth: int, n: nat) -> Seq<(Pos, Seq<Action>)>
    decreases n,
{
    if n == 0 {
        Seq::empty()
    } else {
        match spec_minmax(b, player, depth) {
            None => Seq::empty(),
            Some(m) => seq![m] + spec_play_out(
                spec_play(b, player, m.0, m.1),
                player.spec_next(),
                depth,
                (n - 1) as nat,
            ),
        }
    }
}

/// Plays the search against itself, at most `max_plies` moves, and returns
/// the moves made.
pub fn play_out(start: Board, first: Color, depth: u32, max_plies: usize) -> (r: Vec<(Pos, Vec<Action>)>)
    requires
        start.wf(),
        depth >= 1,
    ensures
        cands_view(r@) == spec_play_out(start@, first, depth as int, max_plies as nat),
{
    let ghost b0 = start@;
    let ghost p0 = first;
    let mut board = start;
    let mut player = first;
    let mut moves: Vec<(Pos, Vec<Action>)> = Vec::new();
    let mut turn: usize = 0;
    assert(cands_view(moves@) =~= Seq::empty());
    while turn < max_plies
        invariant
            board.wf(),
            depth >= 1,
            turn <= max_plies,
            b0 == start@,
            p0 == first,
            cands_view(moves@) + spec_play_out(board@, player, depth as int, (max_plies - turn) as nat)
                == spec_play_out(b0, p0, depth as int, max_plies as nat),
        decreases max_plies - turn,
    {
        let ghost before = cands_view(moves@);
        match minmax(&board, player, depth) {
            None => {
                assert(cands_view(moves@) =~= before + Seq::empty());
                return moves;
            },
            Some((pos, actions)) => {
                let next = board.play(player, pos, &actions);
                let ghost m = (pos, actions@);
                moves.push((pos, actions));
                assert(cands_view(moves@) =~= before.push(m));
                assert(before + spec_play_out(board@, player, depth as int, (max_plies - turn) as nat) =~= before.push(m)
                    + spec_play_out(next@, player.spec_next(), depth as int, (max_plies - turn - 1) as nat));
                board = next;
                player = player.next();
                turn += 1;
            },
        }
    }
    assert(cands_view(moves@) =~= cands_view(moves@) + Seq::empty());
    moves
}

} // verus!
