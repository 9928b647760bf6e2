//! Stronger engine: iterative deepening + alpha-beta (PVS) with a
//! transposition table, quiescence search, MVV-LVA + killer move ordering,
//! Xiangqi piece-square evaluation, and repetition awareness.
use vstd::prelude::*;
use vstd::string::StringExecFns;
use std::collections::HashMap;
use std::time::{Duration, Instant, SystemTime};

use crate::board::{
    file_of, file_spec, made, rank_of, rank_spec, Board, Color, Move, Piece, PieceKind, CELLS,
};
use crate::board::{lemma_unmake_make};
use crate::game::{
    count_eq, has_legal_move, history_in_range, kind_code, last_before, lemma_side_after_step, replay, rewind,
    side_after, GameState,
};
use crate::moves::{
    from_sorted, in_check, in_check_spec, lemma_pseudo_move_distinct, legal_move, legal_moves, piece_value,
    piece_value_spec, pseudo_move, pseudo_moves,
};

verus! {

// ----------------------------------------------------------------------------
// Evaluation.
// ----------------------------------------------------------------------------
// Piece-square tables in Red orientation: index [rank][file], rank 9 is Red's
// home edge, rank 0 is Black's. Black pieces read the rank-mirrored entry.
pub open spec fn pst_soldier_table() -> Seq<Seq<int>> {
    seq![
        seq![9, 9, 9, 11, 13, 11, 9, 9, 9],
        seq![19, 24, 34, 42, 44, 42, 34, 24, 19],
        seq![19, 24, 32, 37, 37, 37, 32, 24, 19],
        seq![19, 23, 27, 29, 30, 29, 27, 23, 19],
        seq![14, 18, 20, 27, 29, 27, 20, 18, 14],
        seq![7, 0, 13, 0, 16, 0, 13, 0, 7],
        seq![7, 0, 7, 0, 15, 0, 7, 0, 7],
        seq![0, 0, 0, 0, 0, 0, 0, 0, 0],
        seq![0, 0, 0, 0, 0, 0, 0, 0, 0],
        seq![0, 0, 0, 0, 0, 0, 0, 0, 0],
    ]
}

fn pst_soldier(rr: usize, f: usize) -> (v: i32)
    requires
        rr < 10,
        f < 9,
    ensures
        v == pst_soldier_table()[rr as int][f as int],
        -6 <= v <= 44,
{
    let t: [[i32; 9]; 10] = [
        [9, 9, 9, 11, 13, 11, 9, 9, 9],
        [19, 24, 34, 42, 44, 42, 34, 24, 19],
        [19, 24, 32, 37, 37, 37, 32, 24, 19],
        [19, 23, 27, 29, 30, 29, 27, 23, 19],
        [14, 18, 20, 27, 29, 27, 20, 18, 14],
        [7, 0, 13, 0, 16, 0, 13, 0, 7],
        [7, 0, 7, 0, 15, 0, 7, 0, 7],
        [0, 0, 0, 0, 0, 0, 0, 0, 0],
        [0, 0, 0, 0, 0, 0, 0, 0, 0],
        [0, 0, 0, 0, 0, 0, 0, 0, 0],
    ];
    t[rr][f]
}

pub open spec fn pst_horse_table() -> Seq<Seq<int>> {
    seq![
        seq![0, 2, 4, 6, 6, 6, 4, 2, 0],
        seq![2, 6, 10, 12, 12, 12, 10, 6, 2],
        seq![4, 10, 14, 16, 18, 16, 14, 10, 4],
        seq![6, 12, 16, 20, 22, 20, 16, 12, 6],
        seq![6, 14, 18, 22, 24, 22, 18, 14, 6],
        seq![6, 14, 18, 22, 24, 22, 18, 14, 6],
        seq![6, 12, 16, 20, 22, 20, 16, 12, 6],
        seq![4, 10, 14, 16, 18, 16, 14, 10, 4],
        seq![2, 6, 10, 12, 12, 12, 10, 6, 2],
        seq![0, 2, 4, 6, 6, 6, 4, 2, 0],
    ]
}

fn pst_horse(rr: usize, f: usize) -> (v: i32)
    requires
        rr < 10,
        f < 9,
    ensures
        v == pst_horse_table()[rr as int][f as int],
        -6 <= v <= 44,
{
    let t: [[i32; 9]; 10] = [
        [0, 2, 4, 6, 6, 6, 4, 2, 0],
        [2, 6, 10, 12, 12, 12, 10, 6, 2],
        [4, 10, 14, 16, 18, 16, 14, 10, 4],
        [6, 12, 16, 20, 22, 20, 16, 12, 6],
        [6, 14, 18, 22, 24, 22, 18, 14, 6],
        [6, 14, 18, 22, 24, 22, 18, 14, 6],
        [6, 12, 16, 20, 22, 20, 16, 12, 6],
        [4, 10, 14, 16, 18, 16, 14, 10, 4],
        [2, 6, 10, 12, 12, 12, 10, 6, 2],
        [0, 2, 4, 6, 6, 6, 4, 2, 0],
    ];
    t[rr][f]
}

pub open spec fn pst_cannon_table() -> Seq<Seq<int>> {
    seq![
        seq![6, 4, 0, -2, -4, -2, 0, 4, 6],
        seq![2, 2, 0, -4, -6, -4, 0, 2, 2],
        seq![2, 2, 0, -2, -4, -2, 0, 2, 2],
        seq![0, 4, 6, 6, 8, 6, 6, 4, 0],
        seq![0, 2, 6, 8, 10, 8, 6, 2, 0],
        seq![0, 2, 6, 8, 10, 8, 6, 2, 0],
        seq![0, 4, 8, 10, 12, 10, 8, 4, 0],
        seq![2, 4, 6, 8, 8, 8, 6, 4, 2],
        seq![2, 2, 4, 6, 6, 6, 4, 2, 2],
        seq![4, 4, 4, 6, 8, 6, 4, 4, 4],
    ]
}

fn pst_cannon(rr: usize, f: usize) -> (v: i32)
    requires
        rr < 10,
        f < 9,
    ensures
        v == pst_cannon_table()[rr as int][f as int],
        -6 <= v <= 44,
{
    let t: [[i32; 9]; 10] = [
        [6, 4, 0, -2, -4, -2, 0, 4, 6],
        [2, 2, 0, -4, -6, -4, 0, 2, 2],
        [2, 2, 0, -2, -4, -2, 0, 2, 2],
        [0, 4, 6, 6, 8, 6, 6, 4, 0],
        [0, 2, 6, 8, 10, 8, 6, 2, 0],
        [0, 2, 6, 8, 10, 8, 6, 2, 0],
        [0, 4, 8, 10, 12, 10, 8, 4, 0],
        [2, 4, 6, 8, 8, 8, 6, 4, 2],
        [2, 2, 4, 6, 6, 6, 4, 2, 2],
        [4, 4, 4, 6, 8, 6, 4, 4, 4],
    ];
    t[rr][f]
}

pub open spec fn pst_chariot_table() -> Seq<Seq<int>> {
    seq![
        seq![12, 14, 14, 16, 16, 16, 14, 14, 12],
        seq![14, 16, 16, 20, 22, 20, 16, 16, 14],
        seq![12, 14, 14, 18, 20, 18, 14, 14, 12],
        seq![12, 16, 16, 20, 22, 20, 16, 16, 12],
        seq![12, 14, 14, 18, 20, 18, 14, 14, 12],
        seq![12, 16, 16, 18, 20, 18, 16, 16, 12],
        seq![10, 14, 14, 16, 18, 16, 14, 14, 10],
        seq![10, 12, 12, 16, 18, 16, 12, 12, 10],
        seq![8, 10, 12, 16, 16, 16, 12, 10, 8],
        seq![10, 12, 12, 16, 16, 16, 12, 12, 10],
    ]
}

fn pst_chariot(rr: usize, f: usize) -> (v: i32)
    requires
        rr < 10,
        f < 9,
    ensures
        v == pst_chariot_table()[rr as int][f as int],
        -6 <= v <= 44,
{
    let t: [[i32; 9]; 10] = [
        [12, 14, 14, 16, 16, 16, 14, 14, 12],
        [14, 16, 16, 20, 22, 20, 16, 16, 14],
        [12, 14, 14, 18, 20, 18, 14, 14, 12],
        [12, 16, 16, 20, 22, 20, 16, 16, 12],
        [12, 14, 14, 18, 20, 18, 14, 14, 12],
        [12, 16, 16, 18, 20, 18, 16, 16, 12],
        [10, 14, 14, 16, 18, 16, 14, 14, 10],
        [10, 12, 12, 16, 18, 16, 12, 12, 10],
        [8, 10, 12, 16, 16, 16, 12, 10, 8],
        [10, 12, 12, 16, 16, 16, 12, 12, 10],
    ];
    t[rr][f]
}

/// Positional bonus of a piece of `kind` and `color` on `sq`: the kind's table
/// read in the piece's own orientation; confined pieces (advisor, elephant,
/// general) have none.
pub open spec fn pst_spec(kind: PieceKind, color: Color, sq: int) -> int {
    let f = file_spec(sq);
    let r = rank_spec(sq);
    let rr = if color == Color::Red {
        r
    } else {
        9 - r
    };
    match kind {
        PieceKind::Soldier => pst_soldier_table()[rr][f],
        PieceKind::Horse => pst_horse_table()[rr][f],
        PieceKind::Cannon => pst_cannon_table()[rr][f],
        PieceKind::Chariot => pst_chariot_table()[rr][f],
        _ => 0,
    }
}

fn pst(kind: PieceKind, color: Color, sq: usize) -> (v: i32)
    requires
        sq < 90,
    ensures
        v == pst_spec(kind, color, sq as int),
        -6 <= v <= 44,
{
    let f = file_of(sq) as usize;
    let r = rank_of(sq) as usize;
    let rr = if color == Color::Red {
        r
    } else {
        9 - r
    };
    match kind {
        PieceKind::Soldier => pst_soldier(rr, f),
        PieceKind::Horse => pst_horse(rr, f),
        PieceKind::Cannon => pst_cannon(rr, f),
        PieceKind::Chariot => pst_chariot(rr, f),
        _ => 0,  // advisor / elephant / general: confined; base value only
    }
}

/// Material plus position of one piece.
pub open spec fn piece_score(p: Piece, sq: int) -> int {
    piece_value_spec(p.kind) + pst_spec(p.kind, p.color, sq)
}

/// The evaluation summed over the first `n` cells.
pub open spec fn eval_upto(cells: Seq<Option<Piece>>, side: Color, n: int) -> int
    decreases n,
{
    if n <= 0 {
        0
    } else {
        eval_upto(cells, side, n - 1) + match cells[n - 1] {
            Some(p) => if p.color == side {
                piece_score(p, n - 1)
            } else {
                -piece_score(p, n - 1)
            },
            None => 0,
        }
    }
}

/// Static evaluation from the perspective of `side`: its pieces' material and
/// position minus the opponent's.
pub open spec fn evaluate_spec(cells: Seq<Option<Piece>>, side: Color) -> int {
    eval_upto(cells, side, 90)
}

/// Largest magnitude of a static evaluation (90 cells at most 10044 each).
pub const EVAL_BOUND: i32 = 904_000;

/// Static evaluation from the perspective of `side` (higher = better).
fn evaluate(board: &Board, side: Color) -> (v: i32)
    ensures
        v == evaluate_spec(board.cells@, side),
        -EVAL_BOUND <= v <= EVAL_BOUND,
{
    let mut score: i32 = 0;
    let mut sq: usize = 0;
    while sq < CELLS
        invariant
            0 <= sq <= 90,
            score == eval_upto(board.cells@, side, sq as int),
            -10044 * sq <= score <= 10044 * sq,
        decreases 90 - sq,
    {
        match board.cells[sq] {
            Some(p) => {
                let v = piece_value(p.kind) + pst(p.kind, p.color, sq);
                score = if p.color == side {
                    score + v
                } else {
                    score - v
                };
            },
            None => {},
        }
        sq = sq + 1;
    }
    score
}


// ----------------------------------------------------------------------------
// Search constants and score arithmetic.
// ----------------------------------------------------------------------------
pub const INF: i32 = 32_001;

pub const MATE: i32 = 30_000;

pub const MATE_THRESHOLD: i32 = 29_744;

pub const MAX_PLY: usize = 64;

/// Butterfly-history saturation bound. The gravity update keeps every entry
/// strictly inside (-HISTORY_MAX, HISTORY_MAX), so quiet ordering scores never
/// collide with the killer / countermove / capture bands.
pub const HISTORY_MAX: i32 = 1_048_576;

/// Reverse-futility: prune when `eval - RFP_MARGIN*depth >= beta`.
pub const RFP_MARGIN: i32 = 80;

pub const RFP_MAX_DEPTH: i16 = 6;

/// Razoring: at depth ≤ 2, if `eval + RAZOR_MARGIN < alpha`, verify by qsearch.
pub const RAZOR_MARGIN: i32 = 320;

pub const RAZOR_MAX_DEPTH: i16 = 2;

/// Late move pruning applies at `depth ≤ LMP_MAX_DEPTH`.
pub const LMP_MAX_DEPTH: i16 = 3;

/// Plies into the game that still count as "opening": while the history is
/// shorter, the root widens its equal-best pool so games vary.
pub const OPENING_PLIES: usize = 8;

/// In the opening, any root move scoring within this many centipawns of the
/// best joins the random-pick pool (a soldier is worth 100).
pub const OPENING_MARGIN: i32 = 80;

/// Nodes after which a search stops as if its time had run out. Far beyond
/// what any time budget reaches; it keeps every ply count and score small
/// enough for 32-bit arithmetic.
pub const NODE_CAP: u64 = 268_435_456;

/// Scores stay within ±SCORE_LIMIT, so negating one never overflows.
pub const SCORE_LIMIT: i32 = 536_870_912;

/// Transposition-table scores stay within ±TT_LIMIT.
pub const TT_LIMIT: i32 = 805_306_369;

/// MVV-LVA score of a move: the victim's value sixteen-fold minus the
/// attacker's (an empty square counts as 0).
pub open spec fn mvv_lva_spec(cells: Seq<Option<Piece>>, m: Move) -> int {
    let victim = match cells[m.to as int] {
        Some(p) => piece_value_spec(p.kind) as int,
        None => 0,
    };
    let attacker = match cells[m.from as int] {
        Some(p) => piece_value_spec(p.kind) as int,
        None => 0,
    };
    victim * 16 - attacker
}

/// MVV-LVA score for a capture (victim heavily outweighs attacker).
fn mvv_lva(board: &Board, m: Move) -> (v: i32)
    requires
        m.in_range(),
    ensures
        v == mvv_lva_spec(board.cells@, m),
        -10_000 <= v <= 160_000,
{
    let victim = match board.get(m.to) {
        Some(p) => piece_value(p.kind),
        None => 0,
    };
    let attacker = match board.get(m.from) {
        Some(p) => piece_value(p.kind),
        None => 0,
    };
    victim * 16 - attacker
}

/// `x / HISTORY_MAX` rounded toward zero.
pub open spec fn div_toward_zero(x: int) -> int {
    if x >= 0 {
        x / (HISTORY_MAX as int)
    } else {
        -((-x) / (HISTORY_MAX as int))
    }
}

/// The raw gravity step: the entry moves by `bonus` less its proportional
/// share `h * |bonus| / HISTORY_MAX`.
pub open spec fn hist_gravity(h: int, bonus: int) -> int {
    let mag = if bonus < 0 {
        -bonus
    } else {
        bonus
    };
    h + bonus - div_toward_zero(h * mag)
}

/// History "gravity" update: the raw step, held one step inside the open band
/// (-HISTORY_MAX, HISTORY_MAX) where it would reach an end of it.
pub open spec fn hist_bump_spec(h: int, bonus: int) -> int {
    let raw = hist_gravity(h, bonus);
    if raw >= HISTORY_MAX {
        HISTORY_MAX - 1
    } else if raw <= -HISTORY_MAX {
        1 - HISTORY_MAX
    } else {
        raw
    }
}

/// The raw gravity step keeps an entry within [-HISTORY_MAX, HISTORY_MAX]
/// for any bonus of at most HISTORY_MAX in size.
pub proof fn lemma_hist_bump_bounded(h: int, bonus: int)
    requires
        -HISTORY_MAX <= h <= HISTORY_MAX,
        -HISTORY_MAX <= bonus <= HISTORY_MAX,
    ensures
        -HISTORY_MAX <= hist_gravity(h, bonus) <= HISTORY_MAX,
{
    let m = HISTORY_MAX as int;
    let mag = if bonus < 0 {
        -bonus
    } else {
        bonus
    };
    let p = h * mag;
    if h >= 0 {
        assert(0 <= p <= h * m) by (nonlinear_arith)
            requires
                0 <= h,
                0 <= mag <= m,
                p == h * mag,
        ;
        let q = p / m;
        assert(q * m <= p < q * m + m) by (nonlinear_arith)
            requires
                m > 0,
                q == p / m,
                p >= 0,
        ;
        assert(0 <= q <= h) by (nonlinear_arith)
            requires
                m > 0,
                q * m <= p,
                p <= h * m,
                p < q * m + m,
                p >= 0,
        ;
        // h + bonus - q with q ≈ h * mag / m.
        if bonus >= 0 {
            assert(h + bonus - q <= m) by (nonlinear_arith)
                requires
                    p == h * bonus,
                    p < q * m + m,
                    0 <= h <= m,
                    0 <= bonus <= m,
                    m > 0,
            ;
        } else {
            assert(h + bonus - q >= -m) by (nonlinear_arith)
                requires
                    p == h * (-bonus),
                    p < q * m + m,
                    0 <= h <= m,
                    -m <= bonus < 0,
                    m > 0,
                    q * m <= p,
            ;
        }
    } else {
        let np = -p;
        assert(np == (-h) * mag) by (nonlinear_arith)
            requires
                np == -(h * mag),
        ;
        assert(0 <= np <= (-h) * m) by (nonlinear_arith)
            requires
                h < 0,
                0 <= mag <= m,
                np == -(h * mag),
        ;
        let q = np / m;
        assert(q * m <= np < q * m + m) by (nonlinear_arith)
            requires
                m > 0,
                q == np / m,
                np >= 0,
        ;
        assert(0 <= q <= -h) by (nonlinear_arith)
            requires
                m > 0,
                q * m <= np,
                np <= (-h) * m,
                np < q * m + m,
                np >= 0,
        ;
        if bonus >= 0 {
            assert(h + bonus + q <= m) by (nonlinear_arith)
                requires
                    np == (-h) * bonus,
                    np < q * m + m,
                    q * m <= np,
                    -m <= h < 0,
                    0 <= bonus <= m,
                    m > 0,
            ;
        } else {
            assert(h + bonus + q >= -m) by (nonlinear_arith)
                requires
                    np == (-h) * (-bonus),
                    np < q * m + m,
                    -m <= h < 0,
                    -m <= bonus < 0,
                    m > 0,
            ;
        }
    }
}

/// Every history entry stays strictly inside (-HISTORY_MAX, HISTORY_MAX):
/// the gravity update of an entry inside the band, by a bonus of at most
/// HISTORY_MAX in size, stays inside it.
pub proof fn lemma_history_stays_in_band(h: int, bonus: int)
    requires
        -HISTORY_MAX < h < HISTORY_MAX,
        -HISTORY_MAX <= bonus <= HISTORY_MAX,
    ensures
        -HISTORY_MAX < hist_bump_spec(h, bonus) < HISTORY_MAX,
{
}

/// History "gravity" update: pulls the entry toward ±HISTORY_MAX by `bonus`
/// (positive on a cutoff, negative as a malus) while staying bounded, so no
/// periodic rescale is needed.
fn hist_bump(h: i32, bonus: i32) -> (r: i32)
    requires
        -HISTORY_MAX < h < HISTORY_MAX,
        -HISTORY_MAX <= bonus <= HISTORY_MAX,
    ensures
        r == hist_bump_spec(h as int, bonus as int),
        -HISTORY_MAX < r < HISTORY_MAX,
{
    proof {
        lemma_hist_bump_bounded(h as int, bonus as int);
    }
    let mag: i64 = if bonus < 0 {
        -(bonus as i64)
    } else {
        bonus as i64
    };
    let habs: i64 = if h < 0 {
        -(h as i64)
    } else {
        h as i64
    };
    assert(0 <= habs * mag <= 1_099_511_627_776) by (nonlinear_arith)
        requires
            0 <= habs <= 1_048_576,
            0 <= mag <= 1_048_576,
    ;
    let q: i64 = (habs * mag) / (HISTORY_MAX as i64);
    let share: i64 = if h < 0 {
        -q
    } else {
        q
    };
    proof {
        if h < 0 {
            assert(-((h as int) * mag) == habs * mag) by (nonlinear_arith)
                requires
                    habs == -(h as int),
            ;
        } else {
            assert((h as int) * mag == habs * mag);
        }
    }
    let raw: i64 = h as i64 + bonus as i64 - share;
    if raw >= HISTORY_MAX as i64 {
        HISTORY_MAX - 1
    } else if raw <= -(HISTORY_MAX as i64) {
        1 - HISTORY_MAX
    } else {
        raw as i32
    }
}

/// LMR reduction (in plies) for a late quiet move: one ply, one more from
/// depth 6, one more from the sixth move and another from the twelfth; PV
/// nodes reduce one ply less, never below one.
pub open spec fn lmr_reduction_spec(depth: int, move_idx: int, is_pv: bool) -> int {
    let r = 1 + (if depth >= 6 {
        1int
    } else {
        0
    }) + (if move_idx >= 6 {
        1int
    } else {
        0
    }) + (if move_idx >= 12 {
        1int
    } else {
        0
    }) - (if is_pv {
        1int
    } else {
        0
    });
    if r < 1 {
        1
    } else {
        r
    }
}

/// LMR reduction (in plies) for a late quiet move. Grows with depth and move
/// index; PV nodes reduce one ply less.
fn lmr_reduction(depth: i16, move_idx: usize, is_pv: bool) -> (r: i16)
    ensures
        r == lmr_reduction_spec(depth as int, move_idx as int, is_pv),
        1 <= r <= 4,
{
    let mut r: i16 = 1;
    if depth >= 6 {
        r += 1;
    }
    if move_idx >= 6 {
        r += 1;
    }
    if move_idx >= 12 {
        r += 1;
    }
    if is_pv {
        r -= 1;
    }
    if r < 1 {
        1
    } else {
        r
    }
}

/// Quiet-move count at a node past which late move pruning kicks in.
fn lmp_count(depth: i16) -> (n: usize)
    requires
        -181 <= depth <= 181,
    ensures
        n == 3 + depth * depth,
{
    assert(0 <= depth * depth <= 32761) by (nonlinear_arith)
        requires
            -181 <= depth <= 181,
    ;
    (3 + depth * depth) as usize
}

/// A mate score (beyond the threshold) stored relative to the node rather
/// than the root.
pub open spec fn adjust_to_tt_spec(score: int, ply: int) -> int {
    if score > MATE_THRESHOLD {
        score + ply
    } else if score < -MATE_THRESHOLD {
        score - ply
    } else {
        score
    }
}

/// Clamp to ±SCORE_LIMIT.
pub open spec fn clamp_score(s: int) -> int {
    if s > SCORE_LIMIT {
        SCORE_LIMIT as int
    } else if s < -SCORE_LIMIT {
        -SCORE_LIMIT as int
    } else {
        s
    }
}

/// A stored mate score brought back relative to the root, kept within
/// ±SCORE_LIMIT.
pub open spec fn adjust_from_tt_spec(score: int, ply: int) -> int {
    clamp_score(
        if score > MATE_THRESHOLD {
            score - ply
        } else if score < -MATE_THRESHOLD {
            score + ply
        } else {
            score
        },
    )
}

// Mate scores must be stored relative to the node, not the root.
fn adjust_to_tt(score: i32, ply: usize) -> (r: i32)
    requires
        -SCORE_LIMIT <= score <= SCORE_LIMIT,
        ply <= NODE_CAP + 1,
    ensures
        r == adjust_to_tt_spec(score as int, ply as int),
        -TT_LIMIT <= r <= TT_LIMIT,
{
    if score > MATE_THRESHOLD {
        score + ply as i32
    } else if score < -MATE_THRESHOLD {
        score - ply as i32
    } else {
        score
    }
}

fn adjust_from_tt(score: i32, ply: usize) -> (r: i32)
    requires
        -TT_LIMIT <= score <= TT_LIMIT,
        ply <= NODE_CAP + 1,
    ensures
        r == adjust_from_tt_spec(score as int, ply as int),
        -SCORE_LIMIT <= r <= SCORE_LIMIT,
{
    let s = if score > MATE_THRESHOLD {
        score - ply as i32
    } else if score < -MATE_THRESHOLD {
        score + ply as i32
    } else {
        score
    };
    if s > SCORE_LIMIT {
        SCORE_LIMIT
    } else if s < -SCORE_LIMIT {
        -SCORE_LIMIT
    } else {
        s
    }
}

/// A chariot, cannon or horse of `side`.
pub open spec fn attacking_piece(c: Option<Piece>, side: Color) -> bool {
    match c {
        Some(p) => p.color == side && (p.kind == PieceKind::Chariot || p.kind == PieceKind::Cannon
            || p.kind == PieceKind::Horse),
        None => false,
    }
}

/// `side` still has a chariot, cannon, or horse.
pub open spec fn has_attacking_material_spec(cells: Seq<Option<Piece>>, side: Color) -> bool {
    exists|i: int| 0 <= i < 90 && #[trigger] attacking_piece(cells[i], side)
}

/// True if `side` still has a chariot, cannon, or horse — i.e. real attacking
/// power, so a null move cannot be a zugzwang trap. (Bare K+A/E has none.)
fn has_attacking_material(board: &Board, side: Color) -> (b: bool)
    ensures
        b == has_attacking_material_spec(board.cells@, side),
{
    let mut i: usize = 0;
    while i < CELLS
        invariant
            0 <= i <= 90,
            forall|j: int| 0 <= j < i ==> !#[trigger] attacking_piece(board.cells@[j], side),
        decreases 90 - i,
    {
        match board.cells[i] {
            Some(p) => {
                if p.color == side && (p.kind == PieceKind::Chariot || p.kind == PieceKind::Cannon
                    || p.kind == PieceKind::Horse) {
                    assert(attacking_piece(board.cells@[i as int], side));
                    return true;
                }
            },
            None => {},
        }
        i = i + 1;
    }
    false
}


// ----------------------------------------------------------------------------
// Static exchange evaluation.
// ----------------------------------------------------------------------------
/// Number of occupied cells among the first `n`.
pub open spec fn piece_count(cells: Seq<Option<Piece>>, n: int) -> nat
    decreases n,
{
    if n <= 0 {
        0
    } else {
        piece_count(cells, n - 1) + if cells[n - 1] is Some {
            1nat
        } else {
            0nat
        }
    }
}

proof fn lemma_piece_count_update(cells: Seq<Option<Piece>>, i: int, x: Option<Piece>, n: int)
    requires
        0 <= i < cells.len(),
        0 <= n <= cells.len(),
    ensures
        piece_count(cells.update(i, x), n) + (if i < n && cells[i] is Some {
            1int
        } else {
            0
        }) == piece_count(cells, n) + (if i < n && x is Some {
            1int
        } else {
            0
        }),
    decreases n,
{
    if n > 0 {
        lemma_piece_count_update(cells, i, x, n - 1);
    }
}

/// A capture removes one piece from the board.
proof fn lemma_capture_count(cells: Seq<Option<Piece>>, m: Move)
    requires
        cells.len() == 90,
        m.in_range(),
        m.from != m.to,
        cells[m.from as int] is Some,
        cells[m.to as int] is Some,
    ensures
        piece_count(made(cells, m), 90) + 1 == piece_count(cells, 90),
{
    let c1 = cells.update(m.to as int, cells[m.from as int]);
    lemma_piece_count_update(cells, m.to as int, cells[m.from as int], 90);
    lemma_piece_count_update(c1, m.from as int, None, 90);
}

/// `m` brings a piece of `side` onto `t`.
pub open spec fn is_capture_of(cells: Seq<Option<Piece>>, side: Color, t: int, m: Move) -> bool {
    pseudo_move(cells, side, m) && m.to == t
}

/// The value of the piece on `m`'s origin.
pub open spec fn mover_value(cells: Seq<Option<Piece>>, m: Move) -> int {
    match cells[m.from as int] {
        Some(p) => piece_value_spec(p.kind) as int,
        None => 0,
    }
}

/// `m` is a least valuable capture onto `t`, the lowest origin square
/// among equally valuable ones.
pub open spec fn is_lva(cells: Seq<Option<Piece>>, side: Color, t: int, m: Move) -> bool {
    &&& is_capture_of(cells, side, t, m)
    &&& forall|m2: Move|
        #[trigger] is_capture_of(cells, side, t, m2) ==> mover_value(cells, m) < mover_value(
            cells,
            m2,
        ) || (mover_value(cells, m) == mover_value(cells, m2) && m.from <= m2.from)
}

/// The least valuable attacker of `t` for `side`, as the capture move.
pub open spec fn lva_spec(cells: Seq<Option<Piece>>, t: int, side: Color) -> Option<Move> {
    if exists|m: Move| is_lva(cells, side, t, m) {
        Some(choose|m: Move| is_lva(cells, side, t, m))
    } else {
        None
    }
}

proof fn lemma_lva_unique(cells: Seq<Option<Piece>>, side: Color, t: int, m1: Move, m2: Move)
    requires
        is_lva(cells, side, t, m1),
        is_lva(cells, side, t, m2),
    ensures
        m1 == m2,
{
    assert(is_capture_of(cells, side, t, m2));
    assert(is_capture_of(cells, side, t, m1));
}

/// From any capture onto `t`, a least valuable one is reached.
proof fn lemma_lva_exists(cells: Seq<Option<Piece>>, side: Color, t: int, m: Move)
    requires
        pseudo_move(cells, side, m),
        m.to == t,
    ensures
        exists|l: Move| is_lva(cells, side, t, l),
    decreases mover_value(cells, m) * 90 + m.from,
{
    if !is_lva(cells, side, t, m) {
        let m2 = choose|m2: Move|
            #[trigger] is_capture_of(cells, side, t, m2) && !(mover_value(cells, m) < mover_value(
                cells,
                m2,
            ) || (mover_value(cells, m) == mover_value(cells, m2) && m.from <= m2.from));
        assert(m2.from < 90 && m.from < 90);
        assert(mover_value(cells, m2) >= 0);
        lemma_lva_exists(cells, side, t, m2);
    }
}

/// SEE recaptures with the cheapest piece: the attacker it picks for `t` is
/// a pseudo-legal capture onto `t` whose piece is worth no more than the
/// piece of any other capture onto `t`; it picks none exactly when no piece
/// of `side` can move onto `t`.
pub proof fn lemma_lva_is_cheapest(cells: Seq<Option<Piece>>, t: int, side: Color)
    ensures
        lva_spec(cells, t, side) matches Some(m) ==> {
            &&& pseudo_move(cells, side, m)
            &&& m.to == t
            &&& forall|m2: Move|
                pseudo_move(cells, side, m2) && m2.to == t ==> piece_value_spec(
                    cells[m.from as int]->0.kind,
                ) <= piece_value_spec(#[trigger] cells[m2.from as int]->0.kind)
        },
        lva_spec(cells, t, side) is None <==> !exists|m: Move| pseudo_move(cells, side, m) && m.to == t,
{
    if exists|m: Move| pseudo_move(cells, side, m) && m.to == t {
        let m = choose|m: Move| pseudo_move(cells, side, m) && m.to == t;
        lemma_lva_exists(cells, side, t, m);
    }
    match lva_spec(cells, t, side) {
        Some(m) => {
            assert(is_lva(cells, side, t, m));
            assert forall|m2: Move| pseudo_move(cells, side, m2) && m2.to == t implies piece_value_spec(
                cells[m.from as int]->0.kind,
            ) <= piece_value_spec(#[trigger] cells[m2.from as int]->0.kind) by {
                assert(is_capture_of(cells, side, t, m2));
                assert(cells[m.from as int] is Some && cells[m2.from as int] is Some);
            }
        },
        None => {},
    }
}

/// The value of the piece standing on `t` (0 if none).
pub open spec fn value_at(cells: Seq<Option<Piece>>, t: int) -> int {
    match cells[t] {
        Some(p) => piece_value_spec(p.kind) as int,
        None => 0,
    }
}

/// The recapture half of SEE: `side` may take the piece on `t` with its least
/// valuable attacker, or decline (never worse than 0).
pub open spec fn see_rec_spec(cells: Seq<Option<Piece>>, t: int, side: Color) -> int
    decreases piece_count(cells, 90),
{
    match lva_spec(cells, t, side) {
        None => 0,
        Some(m) => if piece_count(made(cells, m), 90) < piece_count(cells, 90) {
            let v = value_at(cells, t) - see_rec_spec(made(cells, m), t, side.other());
            if v > 0 {
                v
            } else {
                0
            }
        } else {
            0
        },
    }
}

/// Static exchange value of `mv`: the victim's value less what the opponent
/// then wins on that square (0 for a move that captures nothing).
pub open spec fn see_spec(cells: Seq<Option<Piece>>, mv: Move) -> int {
    match (cells[mv.to as int], cells[mv.from as int]) {
        (Some(v), Some(p)) => piece_value_spec(v.kind) - see_rec_spec(
            made(cells, mv),
            mv.to as int,
            p.color.other(),
        ),
        _ => 0,
    }
}

/// Least-valuable pseudo attacker of `target` for `side`, as the capture move
/// that brings it there. Uses the authoritative `pseudo_moves` generator so
/// Xiangqi-specific reachability (horse legs, cannon screens, blocked sliders)
/// is exact and there is no second, divergent attack table to maintain.
fn least_valuable_attacker(board: &Board, target: usize, side: Color) -> (r: Option<Move>)
    requires
        target < 90,
    ensures
        r == lva_spec(board.cells@, target as int, side),
{
    let ghost cells = board.cells@;
    let ghost t = target as int;
    let moves = pseudo_moves(board, side);
    let mut best: Option<(i32, Move)> = None;
    let mut i: usize = 0;
    while i < moves.len()
        invariant
            0 <= i <= moves@.len(),
            cells == board.cells@,
            t == target,
            forall|k: int| 0 <= k < moves@.len() ==> pseudo_move(cells, side, #[trigger] moves@[k]),
            from_sorted(moves@),
            moves@.no_duplicates(),
            best is None ==> forall|k: int| 0 <= k < i ==> (#[trigger] moves@[k]).to != target,
            best matches Some(b) ==> {
                &&& exists|k0: int| 0 <= k0 < i && #[trigger] moves@[k0] == b.1
                &&& is_capture_of(cells, side, t, b.1)
                &&& b.0 == mover_value(cells, b.1)
                &&& forall|k: int|
                    0 <= k < i && (#[trigger] moves@[k]).to == target ==> b.0 < mover_value(
                        cells,
                        moves@[k],
                    ) || (b.0 == mover_value(cells, moves@[k]) && b.1.from <= moves@[k].from)
            },
        decreases moves@.len() - i,
    {
        let m = moves[i];
        proof {
            assert(pseudo_move(cells, side, moves@[i as int]));
        }
        if m.to == target {
            match board.get(m.from) {
                Some(p) => {
                    let v = piece_value(p.kind);
                    let better = match best {
                        None => true,
                        Some(b) => v < b.0,
                    };
                    if better {
                        proof {
                            if let Some(b) = best {
                                let k0 = choose|k0: int| 0 <= k0 < i && #[trigger] moves@[k0] == b.1;
                                assert(moves@[k0].from <= moves@[i as int].from);
                            }
                        }
                        best = Some((v, m));
                    } else {
                        proof {
                            let b = best.unwrap();
                            let k0 = choose|k0: int| 0 <= k0 < i && #[trigger] moves@[k0] == b.1;
                            assert(moves@[k0].from <= moves@[i as int].from);
                        }
                    }
                },
                None => {},
            }
        }
        i = i + 1;
    }
    match best {
        None => {
            proof {
                assert forall|m: Move| !is_lva(cells, side, t, m) by {
                    if is_capture_of(cells, side, t, m) {
                        assert(moves@.contains(m));
                    }
                }
            }
            None
        },
        Some(b) => {
            proof {
                assert forall|m2: Move| #[trigger] is_capture_of(cells, side, t, m2) implies mover_value(
                    cells,
                    b.1,
                ) < mover_value(cells, m2) || (mover_value(cells, b.1) == mover_value(cells, m2)
                    && b.1.from <= m2.from) by {
                    assert(moves@.contains(m2));
                    let k = choose|k: int| 0 <= k < moves@.len() && moves@[k] == m2;
                }
                assert(is_lva(cells, side, t, b.1));
                let c = choose|m: Move| is_lva(cells, side, t, m);
                lemma_lva_unique(cells, side, t, c, b.1);
            }
            Some(b.1)
        },
    }
}


/// Recursive half of SEE: `side` is on move and may capture the piece now
/// standing on `target` with its least valuable attacker, or decline (max 0).
/// Restores the board exactly (every `make` is paired with an `unmake`).
fn see_recapture(board: &mut Board, target: usize, side: Color) -> (v: i32)
    requires
        target < 90,
        old(board).cells@[target as int] is Some || lva_spec(old(board).cells@, target as int, side)
            is None,
    ensures
        final(board).cells@ == old(board).cells@,
        v == see_rec_spec(old(board).cells@, target as int, side),
        0 <= v <= 10_000,
    decreases piece_count(old(board).cells@, 90),
{
    let ghost cells = board.cells@;
    let mv = match least_valuable_attacker(board, target, side) {
        Some(m) => m,
        None => {
            return 0;
        },
    };
    proof {
        let c = choose|m: Move| is_lva(cells, side, target as int, m);
        assert(is_lva(cells, side, target as int, mv));
        lemma_pseudo_move_distinct(cells, side, mv);
        lemma_capture_count(cells, mv);
    }
    let victim = piece_value(board.get(target).unwrap().kind);
    let cap = board.make(mv);
    let r = see_recapture(board, target, side.opposite());
    let d = victim - r;
    let val = if d > 0 {
        d
    } else {
        0
    };
    board.unmake(mv, cap);
    proof {
        lemma_unmake_make(cells, mv);
    }
    val
}

/// Static Exchange Evaluation of a capture: material the mover nets if the
/// full capture sequence on `mv.to` is played out with least-valuable
/// attackers, each side free to stop. Pins/self-check are ignored (standard
/// SEE); piece values come from `piece_value` (single source of truth). A
/// "move" from a square to itself empties that square; it is taken only
/// where no opposing piece could then step onto it.
pub fn see(board: &mut Board, mv: Move) -> (v: i32)
    requires
        mv.in_range(),
        mv.from == mv.to && old(board).cells@[mv.from as int] is Some ==> lva_spec(
            made(old(board).cells@, mv),
            mv.to as int,
            old(board).cells@[mv.from as int]->0.color.other(),
        ) is None,
    ensures
        final(board).cells@ == old(board).cells@,
        v == see_spec(old(board).cells@, mv),
        -10_000 <= v <= 10_000,
{
    let ghost cells = board.cells@;
    let victim = match board.get(mv.to) {
        Some(p) => p,
        None => {
            return 0;  // not a capture
        },
    };
    let mover = match board.get(mv.from) {
        Some(p) => p.color,
        None => {
            return 0;
        },
    };
    let vval = piece_value(victim.kind);
    let cap = board.make(mv);
    let s = vval - see_recapture(board, mv.to, mover.opposite());
    board.unmake(mv, cap);
    proof {
        lemma_unmake_make(cells, mv);
    }
    s
}


// ----------------------------------------------------------------------------
// Heuristic switches.
// ----------------------------------------------------------------------------
/// Feature toggles for the search heuristics. Real play uses [`Tuning::full`];
/// the A/B self-play harness pits it against [`Tuning::baseline`] (the
/// pre-upgrade behaviour) to measure each phase before it is accepted.
#[derive(Clone, Copy)]
pub struct Tuning {
    /// Order quiet moves by butterfly history (else a flat 0, generation order).
    pub history: bool,
    /// Use the countermove reply band in ordering.
    pub countermove: bool,
    /// Classify captures winning/losing by SEE (else all captures rank ahead
    /// of quiets by MVV-LVA, as the pre-upgrade engine did).
    pub see_order: bool,
    /// Drop SEE-losing captures in quiescence.
    pub see_qprune: bool,
    /// Reverse futility / static null-move pruning at shallow non-PV nodes.
    pub rfp: bool,
    /// Razoring: shallow nodes far below alpha drop straight to quiescence.
    pub razor: bool,
    /// Null-move pruning.
    pub nmp: bool,
    /// Late move reductions.
    pub lmr: bool,
    /// Late move pruning (skip the ordered-last quiets at shallow depth).
    pub lmp: bool,
    /// Extend the search one ply on checking moves.
    pub check_ext: bool,
    /// Widen the opening root pool for move variety. Off in the harness so a
    /// match is deterministic and measures true-best play.
    pub variety: bool,
}

impl Tuning {
    /// Everything the upgraded engine knows (production default).
    pub fn full() -> (t: Self)
        ensures
            t.history && t.countermove && t.see_order && t.see_qprune && t.rfp && t.razor && t.nmp
                && t.lmr && t.lmp && t.check_ext && t.variety,
    {
        Tuning {
            history: true,
            countermove: true,
            see_order: true,
            see_qprune: true,
            rfp: true,
            razor: true,
            nmp: true,
            lmr: true,
            lmp: true,
            check_ext: true,
            variety: true,
        }
    }

    /// The pre-upgrade engine: TT move + MVV-LVA captures + killers only, all
    /// captures searched in quiescence. The fixed reference opponent.
    pub fn baseline() -> (t: Self)
        ensures
            !t.history && !t.countermove && !t.see_order && !t.see_qprune && !t.rfp && !t.razor
                && !t.nmp && !t.lmr && !t.lmp && !t.check_ext && t.variety,
    {
        Tuning {
            history: false,
            countermove: false,
            see_order: false,
            see_qprune: false,
            rfp: false,
            razor: false,
            nmp: false,
            lmr: false,
            lmp: false,
            check_ext: false,
            variety: true,
        }
    }
}

// ----------------------------------------------------------------------------
// Zobrist hashing (full recompute per node: O(90), simple and bug-free).
// ----------------------------------------------------------------------------
pub const ZOBRIST_SEED: u64 = 0x1234_5678_9ABC_DEF0;

pub const SPLITMIX_GAMMA: u64 = 0x9E37_79B9_7F4A_7C15;

/// The splitmix64 state after `n` steps from the fixed seed.
pub open spec fn splitmix_state(n: nat) -> u64
    decreases n,
{
    if n == 0 {
        ZOBRIST_SEED
    } else {
        splitmix_state((n - 1) as nat).wrapping_add(SPLITMIX_GAMMA)
    }
}

/// The splitmix64 output function.
pub open spec fn splitmix_mix(s: u64) -> u64 {
    let z1 = (s ^ (s >> 30u64)).wrapping_mul(0xBF58_476D_1CE4_E5B9u64);
    let z2 = (z1 ^ (z1 >> 27u64)).wrapping_mul(0x94D0_49BB_1331_11EBu64);
    z2 ^ (z2 >> 31u64)
}

/// The `n`-th word (from 0) of the deterministic splitmix64 stream: words
/// `14 * 90` cover every (piece, square) pair, the next one is the
/// side-to-move key.
pub open spec fn zobrist_word(n: nat) -> u64 {
    splitmix_mix(splitmix_state(n + 1))
}

fn splitmix_out(s: u64) -> (z: u64)
    ensures
        z == splitmix_mix(s),
{
    let z1 = (s ^ (s >> 30u64)).wrapping_mul(0xBF58_476D_1CE4_E5B9u64);
    let z2 = (z1 ^ (z1 >> 27u64)).wrapping_mul(0x94D0_49BB_1331_11EBu64);
    z2 ^ (z2 >> 31u64)
}

/// Deterministic splitmix64 fill so runs are reproducible: one key per
/// (piece, square) pair and one for the side to move.
fn zobrist_table() -> (t: (Vec<u64>, u64))
    ensures
        t.0@.len() == 1260,
        forall|k: int| 0 <= k < 1260 ==> t.0@[k] == zobrist_word(k as nat),
        t.1 == zobrist_word(1260),
{
    let mut s: u64 = ZOBRIST_SEED;
    let mut table: Vec<u64> = Vec::new();
    let mut i: usize = 0;
    while i < 1260
        invariant
            0 <= i <= 1260,
            table@.len() == i,
            s == splitmix_state(i as nat),
            forall|k: int| 0 <= k < i ==> table@[k] == zobrist_word(k as nat),
        decreases 1260 - i,
    {
        s = s.wrapping_add(SPLITMIX_GAMMA);
        table.push(splitmix_out(s));
        i = i + 1;
    }
    s = s.wrapping_add(SPLITMIX_GAMMA);
    (table, splitmix_out(s))
}

/// Index of a piece in the key table: kind-major, Red before Black.
pub open spec fn piece_index_spec(p: Piece) -> int {
    kind_code(p.kind) * 2 + if p.color == Color::Red {
        0int
    } else {
        1int
    }
}

fn piece_index(p: Piece) -> (i: usize)
    ensures
        i == piece_index_spec(p),
        i < 14,
{
    let k: usize = match p.kind {
        PieceKind::General => 0,
        PieceKind::Advisor => 1,
        PieceKind::Elephant => 2,
        PieceKind::Horse => 3,
        PieceKind::Chariot => 4,
        PieceKind::Cannon => 5,
        PieceKind::Soldier => 6,
    };
    k * 2 + if p.color == Color::Red {
        0
    } else {
        1
    }
}

/// XOR of the keys of the pieces on the first `n` cells.
pub open spec fn zfold(cells: Seq<Option<Piece>>, n: int) -> u64
    decreases n,
{
    if n <= 0 {
        0
    } else {
        match cells[n - 1] {
            Some(p) => zfold(cells, n - 1) ^ zobrist_word((piece_index_spec(p) * 90 + n - 1) as nat),
            None => zfold(cells, n - 1),
        }
    }
}

/// Zobrist key of a position: the XOR of its pieces' keys, and the side key
/// when Black is to move.
pub open spec fn zkey_spec(cells: Seq<Option<Piece>>, side: Color) -> u64 {
    if side == Color::Black {
        zfold(cells, 90) ^ zobrist_word(1260)
    } else {
        zfold(cells, 90)
    }
}

fn zkey(table: &Vec<u64>, side_key: u64, board: &Board, side: Color) -> (k: u64)
    requires
        table@.len() == 1260,
        forall|j: int| 0 <= j < 1260 ==> table@[j] == zobrist_word(j as nat),
        side_key == zobrist_word(1260),
    ensures
        k == zkey_spec(board.cells@, side),
{
    let mut k: u64 = 0;
    let mut sq: usize = 0;
    while sq < CELLS
        invariant
            0 <= sq <= 90,
            table@.len() == 1260,
            forall|j: int| 0 <= j < 1260 ==> table@[j] == zobrist_word(j as nat),
            k == zfold(board.cells@, sq as int),
        decreases 90 - sq,
    {
        match board.cells[sq] {
            Some(p) => {
                k = k ^ table[piece_index(p) * 90 + sq];
            },
            None => {},
        }
        sq = sq + 1;
    }
    if side == Color::Black {
        k = k ^ side_key;
    }
    k
}


// ----------------------------------------------------------------------------
// Transposition table.
// ----------------------------------------------------------------------------
#[derive(Clone, Copy, PartialEq, Eq, Structural)]
pub enum Bound {
    Exact,
    Lower,
    Upper,
}

#[derive(Clone, Copy)]
pub struct TtEntry {
    pub key: u64,
    pub depth: i16,
    pub score: i32,
    pub bound: Bound,
    pub best: Option<Move>,
}

/// A direct-mapped table of search results, indexed by the low bits of the
/// position key.
pub struct Tt {
    slots: Vec<Option<TtEntry>>,
    mask: usize,
}

/// A stored score stays within ±TT_LIMIT.
pub open spec fn entry_ok(s: Option<TtEntry>) -> bool {
    match s {
        Some(e) => -TT_LIMIT <= e.score <= TT_LIMIT,
        None => true,
    }
}

impl Tt {
    pub closed spec fn slots_view(&self) -> Seq<Option<TtEntry>> {
        self.slots@
    }

    /// One slot per mask value; every stored score in range.
    pub closed spec fn wf(&self) -> bool {
        &&& self.slots@.len() == self.mask + 1
        &&& forall|i: int| 0 <= i < self.slots@.len() ==> entry_ok(#[trigger] self.slots@[i])
    }

    /// The slot that holds `key`.
    pub closed spec fn slot_of(&self, key: u64) -> int {
        ((key as usize) & self.mask) as int
    }

    proof fn lemma_slot_in_range(&self, key: u64)
        requires
            self.wf(),
        ensures
            0 <= self.slot_of(key) < self.slots_view().len(),
    {
        let x = key as usize;
        let m = self.mask;
        assert(x & m <= m) by (bit_vector);
    }

    /// The entry stored for `key`, if its slot holds that key.
    pub closed spec fn lookup(&self, key: u64) -> Option<TtEntry> {
        match self.slots@[self.slot_of(key)] {
            Some(e) => if e.key == key {
                Some(e)
            } else {
                None
            },
            None => None,
        }
    }

    fn new(bits: u32) -> (t: Self)
        requires
            bits <= 30,
        ensures
            t.wf(),
            forall|k: u64| #[trigger] t.lookup(k) is None,
    {
        let size: usize = 1usize << bits;
        assert(size >= 1) by (bit_vector)
            requires
                size == 1usize << bits,
                bits <= 30,
        ;
        let mut slots: Vec<Option<TtEntry>> = Vec::new();
        let mut i: usize = 0;
        while i < size
            invariant
                0 <= i <= size,
                slots@.len() == i,
                forall|j: int| 0 <= j < i ==> slots@[j] is None,
            decreases size - i,
        {
            slots.push(None);
            i = i + 1;
        }
        let t = Tt { slots, mask: size - 1 };
        proof {
            assert forall|k: u64| #[trigger] t.lookup(k) is None by {
                t.lemma_slot_in_range(k);
            }
        }
        t
    }

    fn probe(&self, key: u64) -> (r: Option<TtEntry>)
        requires
            self.wf(),
        ensures
            r == self.lookup(key),
            entry_ok(r),
    {
        proof {
            self.lemma_slot_in_range(key);
        }
        match self.slots[(key as usize) & self.mask] {
            Some(e) => if e.key == key {
                Some(e)
            } else {
                None
            },
            None => None,
        }
    }

    /// `self` is `old` after storing an entry for `key` with depth-preferred
    /// replacement.
    pub closed spec fn stored_from(
        &self,
        old: &Tt,
        key: u64,
        depth: i16,
        score: i32,
        bound: Bound,
        best: Option<Move>,
    ) -> bool {
        &&& self.mask == old.mask
        &&& self.slots@ == (if (old.slots@[old.slot_of(key)] matches Some(e) && e.key == key
            && e.depth > depth) {
            old.slots@
        } else {
            old.slots@.update(old.slot_of(key), Some(TtEntry { key, depth, score, bound, best }))
        })
    }

    /// A probe right after a store finds the stored entry, unless an entry
    /// for the same key from a deeper search was kept; a key in another slot
    /// reads as before.
    pub proof fn lemma_store_then_probe(
        &self,
        old: &Tt,
        key: u64,
        depth: i16,
        score: i32,
        bound: Bound,
        best: Option<Move>,
        other: u64,
    )
        requires
            old.wf(),
            self.stored_from(old, key, depth, score, bound, best),
        ensures
            self.lookup(key) == (if (old.lookup(key) matches Some(e) && e.depth > depth) {
                old.lookup(key)
            } else {
                Some(TtEntry { key, depth, score, bound, best })
            }),
            old.slot_of(other) != old.slot_of(key) ==> self.lookup(other) == old.lookup(other),
    {
        old.lemma_slot_in_range(key);
        old.lemma_slot_in_range(other);
    }

    /// Depth-preferred replacement: an entry for the same key searched deeper
    /// is kept, anything else is overwritten.
    fn store(&mut self, key: u64, depth: i16, score: i32, bound: Bound, best: Option<Move>)
        requires
            old(self).wf(),
            -TT_LIMIT <= score <= TT_LIMIT,
        ensures
            final(self).wf(),
            final(self).stored_from(old(self), key, depth, score, bound, best),
    {
        proof {
            self.lemma_slot_in_range(key);
        }
        let i = (key as usize) & self.mask;
        match self.slots[i] {
            Some(e) => {
                if e.key == key && e.depth > depth {
                    return;
                }
            },
            None => {},
        }
        self.slots.set(i, Some(TtEntry { key, depth, score, bound, best }));
    }
}


// ----------------------------------------------------------------------------
// The clock.
// ----------------------------------------------------------------------------
#[verifier::external_type_specification]
#[verifier::external_body]
pub struct ExInstant(std::time::Instant);

#[verifier::external_type_specification]
#[verifier::external_body]
pub struct ExSystemTime(std::time::SystemTime);

/// `std::time::Instant::now`: a reading of the monotonic clock. Nothing is
/// claimed of the reading.
#[verifier::external_body]
fn clock_now() -> Instant {
    Instant::now()
}

/// `Instant::checked_add`: the instant `budget` after `t`, or `None` where
/// that is not representable. Nothing is claimed of which.
#[verifier::external_body]
fn instant_after(t: Instant, budget: Duration) -> Option<Instant> {
    t.checked_add(budget)
}

/// Whether `now` is at or past `deadline` (`>=` on `Instant`). Nothing is
/// claimed of the answer.
#[verifier::external_body]
fn instant_reached(now: Instant, deadline: Instant) -> bool {
    now >= deadline
}

/// `std::time::SystemTime::now`: the wall clock. Nothing is claimed of it.
#[verifier::external_body]
fn system_now() -> SystemTime {
    SystemTime::now()
}

/// `SystemTime::duration_since(UNIX_EPOCH)`, `None` for a time before the
/// epoch. Nothing is claimed of the result.
#[verifier::external_body]
fn since_epoch(t: SystemTime) -> Option<Duration> {
    t.duration_since(std::time::UNIX_EPOCH).ok()
}

/// `Duration::as_nanos`. Nothing is claimed of the count.
#[verifier::external_body]
fn duration_nanos(d: Duration) -> u128 {
    d.as_nanos()
}

/// The span `Duration::from_millis(ms)`.
pub uninterp spec fn duration_from_millis(ms: u64) -> Duration;

/// The span `Duration::from_secs(secs)`.
pub uninterp spec fn duration_from_secs(secs: u64) -> Duration;

/// The text `Duration`'s `Debug` writes for `d`.
pub uninterp spec fn duration_debug(d: Duration) -> Seq<char>;

/// `Duration::from_millis`: a span of `ms` milliseconds. The span is opaque
/// here; the claim is only that it is a function of `ms` alone.
#[verifier::external_body]
pub(crate) fn millis(ms: u64) -> (d: Duration)
    ensures
        d == duration_from_millis(ms),
{
    Duration::from_millis(ms)
}

/// `Duration::from_secs`: a span of `secs` seconds. The span is opaque here;
/// the claim is only that it is a function of `secs` alone.
#[verifier::external_body]
pub(crate) fn seconds(secs: u64) -> (d: Duration)
    ensures
        d == duration_from_secs(secs),
{
    Duration::from_secs(secs)
}

/// `Duration`'s `Debug` text (such as `350ms`), written with `format!`. The
/// standard library does not document that text; the claim is only that it
/// is a function of the span alone.
#[verifier::external_body]
fn duration_text(d: Duration) -> (s: String)
    ensures
        s@ == duration_debug(d),
{
    format!("{:?}", d)
}

/// The character of the decimal digit `d`.
pub open spec fn digit_char(d: int) -> char {
    if d == 0 {
        '0'
    } else if d == 1 {
        '1'
    } else if d == 2 {
        '2'
    } else if d == 3 {
        '3'
    } else if d == 4 {
        '4'
    } else if d == 5 {
        '5'
    } else if d == 6 {
        '6'
    } else if d == 7 {
        '7'
    } else if d == 8 {
        '8'
    } else {
        '9'
    }
}

/// The decimal digits of `n`, most significant first, without leading zeros.
pub open spec fn decimal(n: nat) -> Seq<char>
    decreases n,
{
    if n < 10 {
        seq![digit_char(n as int)]
    } else {
        decimal(n / 10).push(digit_char((n % 10) as int))
    }
}

/// The one-character text of the decimal digit `d`.
fn digit_str(d: u32) -> (s: &'static str)
    requires
        d < 10,
    ensures
        s@ == seq![digit_char(d as int)],
{
    proof {
        reveal_strlit("0");
        reveal_strlit("1");
        reveal_strlit("2");
        reveal_strlit("3");
        reveal_strlit("4");
        reveal_strlit("5");
        reveal_strlit("6");
        reveal_strlit("7");
        reveal_strlit("8");
        reveal_strlit("9");
    }
    match d {
        0 => "0",
        1 => "1",
        2 => "2",
        3 => "3",
        4 => "4",
        5 => "5",
        6 => "6",
        7 => "7",
        8 => "8",
        _ => "9",
    }
}

/// Append the decimal digits of `n` to `out`.
pub fn push_decimal(out: &mut String, n: u32)
    ensures
        final(out)@ == old(out)@ + decimal(n as nat),
    decreases n,
{
    if n >= 10 {
        push_decimal(out, n / 10);
    }
    out.append(digit_str(n % 10));
    proof {
        if n >= 10 {
            assert(final(out)@ =~= old(out)@ + decimal(n as nat));
        } else {
            assert(final(out)@ =~= old(out)@ + decimal(n as nat));
        }
    }
}

/// The searcher's label, `AlphaBeta (depth≤N, <budget>)`: `depth` in decimal,
/// then the `Debug` text of the time budget.
pub open spec fn alphabeta_label(depth: u8, budget: Duration) -> Seq<char> {
    "AlphaBeta (depth≤"@ + decimal(depth as nat) + ", "@ + duration_debug(budget) + ")"@
}

// ----------------------------------------------------------------------------
// Engine.
// ----------------------------------------------------------------------------
pub const DEFAULT_RNG: u64 = 0x9E37_79B9_7F4A_7C15;

/// The xorshift64* step: the next state, and the output drawn from it.
pub open spec fn xorshift_next(x0: u64) -> u64 {
    let x1 = x0 ^ (x0 >> 12u64);
    let x2 = x1 ^ (x1 << 25u64);
    x2 ^ (x2 >> 27u64)
}

pub open spec fn xorshift_out(x: u64) -> u64 {
    x.wrapping_mul(0x2545_F491_4F6C_DD1Du64)
}

/// Every position reached in a game, by its Zobrist key, oldest first: the
/// start is recovered by taking the whole history back, then each ply is
/// replayed.
pub open spec fn game_keys(cells: Seq<Option<Piece>>, side: Color, hist: Seq<(Move, Option<Piece>)>) -> Seq<u64> {
    let n = hist.len() as int;
    let start_side = side_after(side, n);
    Seq::new(
        (n + 1) as nat,
        |i: int| zkey_spec(replay(rewind(cells, hist, 0), hist, 0, i), side_after(start_side, i)),
    )
}

/// `m` counts how often each key occurs in `keys`.
pub open spec fn counts_match(m: Map<u64, u32>, keys: Seq<u64>) -> bool {
    forall|k: u64|
        (#[trigger] m.contains_key(k) <==> keys.contains(k)) && (m.contains_key(k) ==> m[k]
            == count_eq(keys, k))
}

/// The check flag of move `j` of a cycle of `k` plies starting at path index
/// `p`: recorded on the path, except the last move, which is `here`.
pub open spec fn cycle_check(path_check: Seq<bool>, p: int, k: int, here: bool, j: int) -> bool {
    if j < k - 1 {
        path_check[p + 1 + j]
    } else {
        here
    }
}

/// Every move of the given parity (0: the side to move, 1: the opponent) in
/// the cycle gave check.
pub open spec fn cycle_all(path_check: Seq<bool>, p: int, k: int, here: bool, parity: int) -> bool {
    forall|j: int| 0 <= j < k && j % 2 == parity ==> #[trigger] cycle_check(path_check, p, k, here, j)
}

/// The score of a repetition reached at `ply` with the key `key`: a one-sided
/// perpetual check over the cycle since the key's last occurrence on the path
/// loses for the checking side; anything else (including a cycle that is not
/// on the path) is a draw.
pub open spec fn repetition_score_spec(
    path: Seq<u64>,
    path_check: Seq<bool>,
    key: u64,
    ply: int,
    here: bool,
) -> int {
    match last_before(path, path.len() as int, key) {
        None => 0,
        Some(p) => {
            let k = path.len() - p;
            let all_self = cycle_all(path_check, p, k, here, 0);
            let all_opp = cycle_all(path_check, p, k, here, 1);
            if all_self && all_opp {
                0
            } else if all_self {
                ply - MATE
            } else if all_opp {
                MATE - ply
            } else {
                0
            }
        },
    }
}

pub struct SearchEngine {
    max_depth: u8,
    budget: Duration,
    tt: Tt,
    killers: Vec<[Option<Move>; 2]>,
    /// Butterfly history: quiet-move cutoff counters indexed [from * 90 + to].
    history: Vec<i32>,
    /// Countermove table: indexed by the opponent's previous move
    /// [from * 90 + to], the quiet reply that last produced a cutoff against it.
    counter: Vec<Option<Move>>,
    tuning: Tuning,
    rng: u64,
    /// Search threads requested; the search itself runs on the calling thread.
    threads: usize,
    zobrist: Vec<u64>,
    side_key: u64,
    // Set per search:
    deadline: Option<Instant>,
    nodes: u64,
    aborted: bool,
    /// How many times each position occurred in the actual game so far.
    game_counts: HashMap<u64, u32>,
    path: Vec<u64>,
    /// Parallel to `path`: did the move that produced that position give
    /// check? Used to score a repetition reached by perpetual check (长将)
    /// as a loss for the checking side, instead of a flat draw.
    path_check: Vec<bool>,
    /// Set by `search` on return to signal that the value just produced
    /// depended on the *path* (a repetition score), not the position alone.
    /// Such values must not be cached in the position-keyed TT.
    path_dep: bool,
    /// What the last search call did.
    trace: Ghost<SearchTrace>,
    /// The root scores of the last completed iteration of the last
    /// `best_move`, and the trace of the search behind each.
    root_scores: Ghost<Seq<(Move, i32)>>,
    root_traces: Ghost<Seq<SearchTrace>>,
}

impl SearchEngine {
    /// The engine's tables have their sizes and contents in range.
    pub closed spec fn wf(&self) -> bool {
        &&& self.tt.wf()
        &&& self.killers@.len() == MAX_PLY
        &&& self.history@.len() == 8100
        &&& forall|i: int|
            0 <= i < 8100 ==> -HISTORY_MAX < #[trigger] self.history@[i] < HISTORY_MAX
        &&& self.counter@.len() == 8100
        &&& self.zobrist@.len() == 1260
        &&& forall|j: int| 0 <= j < 1260 ==> self.zobrist@[j] == zobrist_word(j as nat)
        &&& self.side_key == zobrist_word(1260)
        &&& self.path@.len() <= self.path_check@.len()
        &&& self.nodes <= NODE_CAP
        &&& 1 <= self.max_depth
    }

    pub closed spec fn max_depth_view(&self) -> u8 {
        self.max_depth
    }

    pub closed spec fn rng_view(&self) -> u64 {
        self.rng
    }

    /// No transposition-table entry is stored.
    pub closed spec fn tt_empty(&self) -> bool {
        forall|k: u64| #[trigger] self.tt.lookup(k) is None
    }

    pub closed spec fn root_scores_view(&self) -> Seq<(Move, i32)> {
        self.root_scores@
    }

    pub closed spec fn root_traces_view(&self) -> Seq<SearchTrace> {
        self.root_traces@
    }

    pub closed spec fn budget_view(&self) -> Duration {
        self.budget
    }

    pub closed spec fn nodes_view(&self) -> u64 {
        self.nodes
    }

    pub closed spec fn threads_view(&self) -> usize {
        self.threads
    }

    pub fn new(max_depth: u8, budget: Duration) -> (e: Self)
        ensures
            e.wf(),
            e.max_depth_view() == (if max_depth < 1 {
                1
            } else {
                max_depth
            }),
            e.budget_view() == budget,
            e.nodes_view() == 0,
            e.next_node_free(),
            e.tt_empty(),
            e.counts_view() == Map::<u64, u32>::empty(),
            e.path_view() == Seq::<u64>::empty(),
            e.path_check_view() == Seq::<bool>::empty(),
    {
        SearchEngine::new_tuned(max_depth, budget, Tuning::full(), 19)
    }

    /// Like [`Self::new`] but with explicit heuristic toggles and a table of
    /// `2^tt_bits` slots (A/B harness).
    pub fn new_tuned(max_depth: u8, budget: Duration, tuning: Tuning, tt_bits: u32) -> (e: Self)
        requires
            tt_bits <= 30,
        ensures
            e.wf(),
            e.max_depth_view() == (if max_depth < 1 {
                1
            } else {
                max_depth
            }),
            e.rng_view() != 0,
            e.threads_view() == 1,
            e.budget_view() == budget,
            e.nodes_view() == 0,
            e.next_node_free(),
            e.tt_empty(),
            e.counts_view() == Map::<u64, u32>::empty(),
            e.path_view() == Seq::<u64>::empty(),
            e.path_check_view() == Seq::<bool>::empty(),
    {
        let nanos: u64 = match since_epoch(system_now()) {
            Some(d) => duration_nanos(d) as u64,
            None => 0,
        };
        let seed = nanos ^ DEFAULT_RNG;
        let (zobrist, side_key) = zobrist_table();
        let mut killers: Vec<[Option<Move>; 2]> = Vec::new();
        let mut i: usize = 0;
        while i < MAX_PLY
            invariant
                0 <= i <= MAX_PLY,
                killers@.len() == i,
            decreases MAX_PLY - i,
        {
            killers.push([None, None]);
            i = i + 1;
        }
        let mut history: Vec<i32> = Vec::new();
        let mut counter: Vec<Option<Move>> = Vec::new();
        let mut j: usize = 0;
        while j < 8100
            invariant
                0 <= j <= 8100,
                history@.len() == j,
                counter@.len() == j,
                forall|k: int| 0 <= k < j ==> #[trigger] history@[k] == 0,
            decreases 8100 - j,
        {
            history.push(0);
            counter.push(None);
            j = j + 1;
        }
        SearchEngine {
            max_depth: if max_depth < 1 {
                1
            } else {
                max_depth
            },
            budget,
            tt: Tt::new(tt_bits),
            killers,
            history,
            counter,
            tuning,
            rng: if seed == 0 {
                DEFAULT_RNG
            } else {
                seed
            },
            threads: 1,
            zobrist,
            side_key,
            deadline: None,
            nodes: 0,
            aborted: false,
            game_counts: HashMap::new(),
            path: Vec::new(),
            path_check: Vec::new(),
            path_dep: false,
            trace: Ghost(SearchTrace::Exit { value: 0 }),
            root_scores: Ghost(Seq::empty()),
            root_traces: Ghost(Seq::empty()),
        }
    }

    /// Depth-bounded engine with an effectively unlimited clock.
    pub fn fixed_depth(depth: u8) -> (e: Self)
        ensures
            e.wf(),
            e.max_depth_view() == (if depth < 1 {
                1
            } else {
                depth
            }),
            e.budget_view() == duration_from_secs(3600),
            e.nodes_view() == 0,
            e.next_node_free(),
            e.tt_empty(),
            e.counts_view() == Map::<u64, u32>::empty(),
            e.path_view() == Seq::<u64>::empty(),
            e.path_check_view() == Seq::<bool>::empty(),
    {
        SearchEngine::new(depth, seconds(3600))
    }

    /// Ask for `n` search threads (at least one). The count is recorded; the
    /// search itself runs on the calling thread.
    pub fn with_threads(self, n: usize) -> (e: Self)
        requires
            self.wf(),
        ensures
            e.wf(),
            e.threads_view() == (if n < 1 {
                1
            } else {
                n
            }),
            e.max_depth_view() == self.max_depth_view(),
    {
        let mut e = self;
        e.threads = if n < 1 {
            1
        } else {
            n
        };
        e
    }

    /// Pin the variety RNG so an A/B match is byte-for-byte reproducible.
    pub fn set_seed(&mut self, s: u64)
        requires
            old(self).wf(),
        ensures
            final(self).wf(),
            final(self).rng_view() == (if s == 0 {
                DEFAULT_RNG
            } else {
                s
            }),
            final(self).max_depth_view() == old(self).max_depth_view(),
    {
        self.rng = if s == 0 {
            DEFAULT_RNG
        } else {
            s
        };
    }

    /// The engine's label, `AlphaBeta (depth≤N, <budget>)`.
    pub fn label(&self) -> (s: String)
        ensures
            s@ == alphabeta_label(self.max_depth_view(), self.budget_view()),
    {
        let mut s = String::from_str("AlphaBeta (depth≤");
        push_decimal(&mut s, self.max_depth as u32);
        s.append(", ");
        let budget = duration_text(self.budget);
        s.append(budget.as_str());
        s.append(")");
        proof {
            assert(s@ =~= "AlphaBeta (depth≤"@ + decimal(self.max_depth as nat) + ", "@ + budget@
                + ")"@);
        }
        s
    }

    /// Nodes visited by the last `best_move` (benchmarking).
    pub fn nodes_searched(&self) -> (n: u64)
        ensures
            n == self.nodes_view(),
    {
        self.nodes
    }

    fn next_rand(&mut self) -> (r: u64)
        ensures
            final(self).rng_view() == xorshift_next(old(self).rng_view()),
            r == xorshift_out(final(self).rng_view()),
            final(self).wf() == old(self).wf(),
            final(self).max_depth_view() == old(self).max_depth_view(),
    {
        let mut x = self.rng;
        x = x ^ (x >> 12u64);
        x = x ^ (x << 25u64);
        x = x ^ (x >> 27u64);
        self.rng = x;
        x.wrapping_mul(0x2545_F491_4F6C_DD1Du64)
    }
}


impl SearchEngine {
    pub closed spec fn path_view(&self) -> Seq<u64> {
        self.path@
    }

    pub closed spec fn path_check_view(&self) -> Seq<bool> {
        self.path_check@
    }

    pub closed spec fn counts_view(&self) -> Map<u64, u32> {
        self.game_counts@
    }

    pub closed spec fn aborted_view(&self) -> bool {
        self.aborted
    }

    /// `self` was reached from `before` by counting nodes, and if the search
    /// stopped in between, the count crossed a 2048-node boundary (where the
    /// clock is read) or reached the node cap.
    pub closed spec fn abort_explained(&self, before: &SearchEngine) -> bool {
        &&& before.nodes <= self.nodes
        &&& self.aborted && !before.aborted ==> count_crossed(before.nodes as int, self.nodes as int)
    }

    proof fn lemma_abort_explained_trans(x: &SearchEngine, y: &SearchEngine, z: &SearchEngine)
        requires
            y.abort_explained(x),
            z.abort_explained(y),
        ensures
            z.abort_explained(x),
    {
        reveal(count_crossed);
        assert(y.nodes / 2048 <= z.nodes / 2048) by (nonlinear_arith)
            requires
                y.nodes <= z.nodes,
        ;
        assert(x.nodes / 2048 <= y.nodes / 2048) by (nonlinear_arith)
            requires
                x.nodes <= y.nodes,
        ;
    }

    /// The next node counted is below the node cap and off the 2048-node
    /// boundary at which the clock is read, and no abort is pending: counting
    /// it cannot stop the search.
    pub closed spec fn next_node_free(&self) -> bool {
        &&& !self.aborted
        &&& self.nodes < NODE_CAP
        &&& (self.nodes + 1) % 2048 != 0
    }

    /// Count one more node. Stops the search once the clock has run out (the
    /// clock is read only every 2048 nodes) or the node cap is reached.
    fn time_up(&mut self) -> (up: bool)
        requires
            old(self).wf(),
        ensures
            final(self).wf(),
            up == final(self).aborted_view(),
            old(self).aborted_view() ==> up,
            !up ==> final(self).nodes_view() == old(self).nodes_view() + 1,
            final(self).nodes_view() >= old(self).nodes_view(),
            final(self).path_view() == old(self).path_view(),
            final(self).path_check_view() == old(self).path_check_view(),
            final(self).counts_view() == old(self).counts_view(),
            final(self).max_depth_view() == old(self).max_depth_view(),
            final(self).tt == old(self).tt,
            final(self).tuning == old(self).tuning,
            old(self).nodes >= NODE_CAP ==> up,
            final(self).abort_explained(old(self)),
            up && !old(self).aborted_view() && old(self).nodes < NODE_CAP ==> (old(self).nodes + 1)
                % 2048 == 0 && old(self).deadline is Some,
    {
        proof {
            reveal(count_crossed);
        }
        if self.nodes >= NODE_CAP {
            self.aborted = true;
            return true;
        }
        self.nodes = self.nodes + 1;
        if self.aborted {
            return true;
        }
        // Check the clock only occasionally; it is relatively expensive.
        let n = self.nodes;
        assert(n & 2047 == 0 <==> n % 2048 == 0) by (bit_vector);
        assert(n % 2048 == 0 ==> n / 2048 > (n - 1) / 2048) by (nonlinear_arith)
            requires
                n >= 1,
        ;
        if self.nodes & 2047 == 0 {
            match self.deadline {
                Some(d) => {
                    if instant_reached(clock_now(), d) {
                        self.aborted = true;
                    }
                },
                None => {},
            }
        }
        self.aborted
    }

    /// Count how many times every position occurred in the actual game, so
    /// the search can detect a *threefold* repetition (rather than treating
    /// any transient transposition as an immediate draw).
    #[verifier::spinoff_prover]
    fn build_repetition(&mut self, state: &GameState)
        requires
            old(self).wf(),
            history_in_range(state.history@),
            state.history@.len() < u32::MAX,
        ensures
            final(self).wf(),
            counts_match(
                final(self).counts_view(),
                game_keys(state.board.cells@, state.side_to_move, state.history@),
            ),
            final(self).max_depth_view() == old(self).max_depth_view(),
            final(self).nodes_view() == old(self).nodes_view(),
    {
        let ghost cells = state.board.cells@;
        let ghost hist = state.history@;
        let ghost keys = game_keys(cells, state.side_to_move, hist);
        self.game_counts.clear();
        let mut b = state.board;
        let n = state.history.len();
        let mut t = n;
        while t > 0
            invariant
                t <= n,
                n == hist.len(),
                hist == state.history@,
                history_in_range(hist),
                b.cells@ == rewind(cells, hist, t as int),
            decreases t,
        {
            t = t - 1;
            let (mv, captured) = state.history[t];
            proof {
                assert(hist[t as int].0.in_range());
            }
            b.unmake(mv, captured);
        }
        let ghost start = b.cells@;
        let start_side = if n % 2 == 0 {
            state.side_to_move
        } else {
            state.side_to_move.opposite()
        };
        let mut side = start_side;
        let k0 = zkey(&self.zobrist, self.side_key, &b, side);
        proof {
            assert(keys[0] == k0);
            lemma_counts_push(self.game_counts@, Seq::<u64>::empty(), k0);
            assert(keys.subrange(0, 1) =~= Seq::<u64>::empty().push(k0));
        }
        self.game_counts.insert(k0, 1);
        let mut i: usize = 0;
        while i < n
            invariant
                i <= n,
                n == hist.len(),
                n < u32::MAX,
                hist == state.history@,
                history_in_range(hist),
                start == rewind(cells, hist, 0),
                start_side == side_after(state.side_to_move, n as int),
                keys == game_keys(cells, state.side_to_move, hist),
                b.cells@ == replay(start, hist, 0, i as int),
                side == side_after(start_side, i as int),
                counts_match(self.game_counts@, keys.subrange(0, i + 1)),
                self.wf(),
                self.max_depth_view() == old(self).max_depth_view(),
                self.nodes_view() == old(self).nodes_view(),
            decreases n - i,
        {
            let (mv, _) = state.history[i];
            proof {
                assert(hist[i as int].0.in_range());
                lemma_side_after_step(start_side, i as int);
            }
            b.make(mv);
            side = side.opposite();
            let key = zkey(&self.zobrist, self.side_key, &b, side);
            let ghost before = keys.subrange(0, i + 1);
            proof {
                assert(keys[i + 1] == key);
                assert(keys.subrange(0, i + 2) =~= before.push(key));
                lemma_count_eq_le(before, key);
                lemma_counts_push(self.game_counts@, before, key);
            }
            let c: u32 = match self.game_counts.get(&key) {
                Some(v) => *v,
                None => 0,
            };
            self.game_counts.insert(key, c + 1);
            i = i + 1;
        }
        proof {
            assert(keys.subrange(0, n + 1) =~= keys);
        }
    }

    /// Score a just-detected threefold repetition. If the repeating cycle
    /// (taken from the most recent identical position on the search path) was
    /// a one-sided *perpetual check*, the checking side loses (CCA rule);
    /// otherwise — mutual perpetual check, or anything not all-checks — it is
    /// a draw (0). `here_check` is whether the move into this node checked.
    ///
    /// Only cycles wholly within the search path are classified; a repetition
    /// formed against pre-root game history falls back to a draw here (the
    /// authoritative ruling is `GameState::status`).
    fn repetition_score(&self, key: u64, ply: usize, here_check: bool) -> (v: i32)
        requires
            self.path_view().len() <= self.path_check_view().len(),
            ply + MATE <= i32::MAX,
        ensures
            v == repetition_score_spec(
                self.path_view(),
                self.path_check_view(),
                key,
                ply as int,
                here_check,
            ),
    {
        let m = self.path.len();
        let mut t = m;
        while t > 0 && self.path[t - 1] != key
            invariant
                t <= m,
                m == self.path@.len(),
                last_before(self.path@, m as int, key) == last_before(self.path@, t as int, key),
            decreases t,
        {
            t = t - 1;
        }
        if t == 0 {
            return 0;  // repetition via game history only: treat as draw
        }
        let p = t - 1;
        assert(last_before(self.path@, m as int, key) == Some(p as int));
        let k = m - p;  // cycle length in plies
        let ghost pc = self.path_check@;
        // Cycle move j (0..k) is by `side` when j is even, else the opponent.
        let mut all_self = true;
        let mut all_opp = true;
        let mut j: usize = 0;
        while j < k
            invariant
                0 <= j <= k,
                k == m - p,
                p < m,
                m == self.path@.len(),
                pc == self.path_check@,
                pc.len() >= m,
                all_self == forall|x: int|
                    0 <= x < j && x % 2 == 0 ==> #[trigger] cycle_check(pc, p as int, k as int, here_check, x),
                all_opp == forall|x: int|
                    0 <= x < j && x % 2 == 1 ==> #[trigger] cycle_check(pc, p as int, k as int, here_check, x),
            decreases k - j,
        {
            let checks = if j < k - 1 {
                self.path_check[p + 1 + j]
            } else {
                here_check
            };
            assert(checks == cycle_check(pc, p as int, k as int, here_check, j as int));
            if j % 2 == 0 {
                all_self = all_self && checks;
            } else {
                all_opp = all_opp && checks;
            }
            j = j + 1;
        }
        assert(all_self == cycle_all(pc, p as int, k as int, here_check, 0));
        assert(all_opp == cycle_all(pc, p as int, k as int, here_check, 1));
        if all_self && all_opp {
            0  // mutual perpetual check
        } else if all_self {
            -MATE + ply as i32  // `side` perpetually checks: loses
        } else if all_opp {
            MATE - ply as i32  // opponent perpetually checks: loses
        } else {
            0  // not perpetual check
        }
    }

    /// Drive [`Self::repetition_score`] with a synthetic search path so the
    /// cycle parity logic can be checked deterministically without reaching a
    /// real perpetual inside the search.
    pub fn repetition_score_probe(
        &mut self,
        path: &[u64],
        path_check: &[bool],
        key: u64,
        ply: usize,
        here_check: bool,
    ) -> (v: i32)
        requires
            old(self).wf(),
            path@.len() <= path_check@.len(),
            ply + MATE <= i32::MAX,
        ensures
            final(self).wf(),
            final(self).path_view() == path@,
            final(self).path_check_view() == path_check@,
            v == repetition_score_spec(path@, path_check@, key, ply as int, here_check),
    {
        let mut p: Vec<u64> = Vec::new();
        let mut i: usize = 0;
        while i < path.len()
            invariant
                0 <= i <= path@.len(),
                p@ == path@.subrange(0, i as int),
            decreases path@.len() - i,
        {
            p.push(path[i]);
            i = i + 1;
            proof {
                assert(p@ =~= path@.subrange(0, i as int));
            }
        }
        let mut c: Vec<bool> = Vec::new();
        let mut j: usize = 0;
        while j < path_check.len()
            invariant
                0 <= j <= path_check@.len(),
                c@ == path_check@.subrange(0, j as int),
            decreases path_check@.len() - j,
        {
            c.push(path_check[j]);
            j = j + 1;
            proof {
                assert(c@ =~= path_check@.subrange(0, j as int));
            }
        }
        proof {
            assert(p@ =~= path@);
            assert(c@ =~= path_check@);
        }
        self.path = p;
        self.path_check = c;
        self.repetition_score(key, ply, here_check)
    }
}

/// Counting one more occurrence of `key` keeps a count map in step.
proof fn lemma_counts_push(m: Map<u64, u32>, keys: Seq<u64>, key: u64)
    requires
        counts_match(m, keys),
    ensures
        (m.contains_key(key) ==> m[key] == count_eq(keys, key)),
        (!m.contains_key(key) ==> count_eq(keys, key) == 0),
        forall|c: u32|
            c == (if m.contains_key(key) {
                m[key] as int
            } else {
                0
            }) + 1 ==> counts_match(#[trigger] m.insert(key, c), keys.push(key)),
{
    let after = keys.push(key);
    assert(after.drop_last() =~= keys);
    if !m.contains_key(key) {
        lemma_count_eq_absent(keys, key);
    }
    assert forall|c: u32|
        c == (if m.contains_key(key) {
            m[key] as int
        } else {
            0
        }) + 1 implies counts_match(#[trigger] m.insert(key, c), after) by {
        let m2 = m.insert(key, c);
        assert forall|k: u64|
            (#[trigger] m2.contains_key(k) <==> after.contains(k)) && (m2.contains_key(k)
                ==> m2[k] == count_eq(after, k)) by {
            if after.contains(k) && k != key {
                let j = choose|j: int| 0 <= j < after.len() && after[j] == k;
                assert(keys[j] == k);
            }
            if keys.contains(k) {
                let j = choose|j: int| 0 <= j < keys.len() && keys[j] == k;
                assert(after[j] == k);
            }
            if k == key {
                assert(after[keys.len() as int] == k);
            }
        }
    }
}

proof fn lemma_count_eq_absent(s: Seq<u64>, h: u64)
    requires
        !s.contains(h),
    ensures
        count_eq(s, h) == 0,
    decreases s.len(),
{
    if s.len() > 0 {
        assert(s.last() == s[s.len() - 1]);
        assert(!s.drop_last().contains(h)) by {
            if s.drop_last().contains(h) {
                let j = choose|j: int| 0 <= j < s.drop_last().len() && s.drop_last()[j] == h;
                assert(s[j] == h);
            }
        }
        lemma_count_eq_absent(s.drop_last(), h);
    }
}

proof fn lemma_count_eq_le(s: Seq<u64>, h: u64)
    ensures
        count_eq(s, h) <= s.len(),
    decreases s.len(),
{
    if s.len() > 0 {
        lemma_count_eq_le(s.drop_last(), h);
    }
}


// ----------------------------------------------------------------------------
// Move ordering.
// ----------------------------------------------------------------------------
/// `out` holds the same moves as `inp`, each once.
pub open spec fn same_moves(out: Seq<Move>, inp: Seq<Move>) -> bool {
    &&& out.len() == inp.len()
    &&& out.no_duplicates()
    &&& forall|m: Move| out.contains(m) <==> inp.contains(m)
}

/// The moves of a keyed list.
pub open spec fn keyed_moves(s: Seq<(i32, Move)>) -> Seq<Move> {
    Seq::new(s.len(), |j: int| s[j].1)
}

/// Keys in nondecreasing order.
pub open spec fn keys_sorted(s: Seq<(i32, Move)>) -> bool {
    forall|a: int, b: int| 0 <= a < b < s.len() ==> (#[trigger] s[a]).0 <= (#[trigger] s[b]).0
}

/// Entries of `out` with equal keys come in the order of their first `n`
/// places in `inp`: ties keep their input order.
pub open spec fn stable_from(out: Seq<(i32, Move)>, inp: Seq<(i32, Move)>, n: int) -> bool {
    forall|a: int, b: int|
        0 <= a < b < out.len() && (#[trigger] out[a]).0 == (#[trigger] out[b]).0 ==> exists|
            ia: int,
            ib: int,
        | 0 <= ia < ib < n && inp[ia] == out[a] && inp[ib] == out[b]
}

/// Stable insertion sort of keyed moves by key.
fn sort_keyed(keyed: &Vec<(i32, Move)>) -> (out: Vec<(i32, Move)>)
    requires
        keyed_moves(keyed@).no_duplicates(),
    ensures
        out@.len() == keyed@.len(),
        keys_sorted(out@),
        forall|x: (i32, Move)| out@.contains(x) <==> keyed@.contains(x),
        keyed_moves(out@).no_duplicates(),
        stable_from(out@, keyed@, keyed@.len() as int),
{
    let mut out: Vec<(i32, Move)> = Vec::new();
    let mut i: usize = 0;
    while i < keyed.len()
        invariant
            0 <= i <= keyed@.len(),
            keyed_moves(keyed@).no_duplicates(),
            out@.len() == i,
            keys_sorted(out@),
            forall|x: (i32, Move)| out@.contains(x) <==> keyed@.subrange(0, i as int).contains(x),
            keyed_moves(out@).no_duplicates(),
            stable_from(out@, keyed@, i as int),
        decreases keyed@.len() - i,
    {
        let x = keyed[i];
        let mut pos: usize = out.len();
        // Insert after every entry with a key not above `x`'s (stable).
        while pos > 0 && out[pos - 1].0 > x.0
            invariant
                0 <= pos <= out@.len(),
                forall|j: int| pos <= j < out@.len() ==> (#[trigger] out@[j]).0 > x.0,
            decreases pos,
        {
            pos = pos - 1;
        }
        let ghost before = out@;
        proof {
            assert forall|j: int| 0 <= j < pos implies (#[trigger] before[j]).0 <= x.0 by {
                if pos > 0 {
                    assert(before[pos - 1].0 <= x.0);
                }
            }
        }
        out.insert(pos, x);
        i = i + 1;
        proof {
            let sub = keyed@.subrange(0, i as int);
            let prev = keyed@.subrange(0, i - 1);
            assert(sub =~= prev.push(x));
            assert(out@ =~= before.insert(pos as int, x));
            assert forall|y: (i32, Move)| out@.contains(y) <==> sub.contains(y) by {
                if out@.contains(y) {
                    let j = choose|j: int| 0 <= j < out@.len() && out@[j] == y;
                    if j < pos {
                        assert(before[j] == y);
                    } else if j > pos {
                        assert(before[j - 1] == y);
                    }
                    if y != x {
                        assert(before.contains(y));
                        assert(prev.contains(y));
                        let k = choose|k: int| 0 <= k < prev.len() && prev[k] == y;
                        assert(sub[k] == y);
                    } else {
                        assert(sub[i - 1] == y);
                    }
                }
                if sub.contains(y) {
                    let k = choose|k: int| 0 <= k < sub.len() && sub[k] == y;
                    if k < i - 1 {
                        assert(prev[k] == y);
                        assert(before.contains(y));
                        let j = choose|j: int| 0 <= j < before.len() && before[j] == y;
                        if j < pos {
                            assert(out@[j] == y);
                        } else {
                            assert(out@[j + 1] == y);
                        }
                    } else {
                        assert(out@[pos as int] == y);
                    }
                }
            }
            assert forall|a: int, b: int| 0 <= a < b < out@.len() implies (#[trigger] out@[a]).0
                <= (#[trigger] out@[b]).0 by {
                if b < pos {
                    assert(out@[a] == before[a] && out@[b] == before[b]);
                } else if b == pos {
                    assert(out@[a] == before[a]);
                } else if a == pos {
                    assert(out@[b] == before[b - 1]);
                } else if a < pos {
                    assert(out@[a] == before[a] && out@[b] == before[b - 1]);
                    assert(before[b - 1].0 > x.0);
                } else {
                    assert(out@[a] == before[a - 1] && out@[b] == before[b - 1]);
                }
            }
            // `x`'s move is not already placed: it comes from a later index
            // of a list with distinct moves.
            assert forall|j: int| 0 <= j < before.len() implies (#[trigger] before[j]).1 != x.1 by {
                assert(before.contains(before[j]));
                assert(prev.contains(before[j]));
                let k = choose|k: int| 0 <= k < prev.len() && prev[k] == before[j];
                assert(keyed_moves(keyed@)[k] == before[j].1);
                assert(keyed_moves(keyed@)[i - 1] == x.1);
            }
            assert forall|a: int, b: int|
                0 <= a < b < out@.len() && (#[trigger] out@[a]).0 == (#[trigger] out@[b]).0 implies exists|
                ia: int,
                ib: int,
            | 0 <= ia < ib < i && keyed@[ia] == out@[a] && keyed@[ib] == out@[b] by {
                if b < pos {
                    assert(out@[a] == before[a] && out@[b] == before[b]);
                } else if b == pos {
                    assert(out@[a] == before[a]);
                    assert(before.contains(before[a]));
                    assert(prev.contains(before[a]));
                    let k = choose|k: int| 0 <= k < prev.len() && prev[k] == before[a];
                    assert(keyed@[k] == out@[a]);
                    assert(keyed@[i - 1] == out@[b]);
                } else if a == pos {
                    assert(out@[b] == before[b - 1]);
                } else if a < pos {
                    assert(out@[a] == before[a] && out@[b] == before[b - 1]);
                    assert(before[b - 1].0 > x.0);
                } else {
                    assert(out@[a] == before[a - 1] && out@[b] == before[b - 1]);
                }
            }
            let om = keyed_moves(out@);
            let bm = keyed_moves(before);
            assert forall|a: int, b: int| 0 <= a < om.len() && 0 <= b < om.len() && a != b implies om[a]
                != om[b] by {
                let aa = if a < pos {
                    a
                } else {
                    a - 1
                };
                let bb = if b < pos {
                    b
                } else {
                    b - 1
                };
                if a != pos && b != pos {
                    assert(om[a] == bm[aa]);
                    assert(om[b] == bm[bb]);
                } else if a == pos {
                    assert(om[b] == before[bb].1);
                } else {
                    assert(om[a] == before[aa].1);
                }
            }
        }
    }
    proof {
        assert(keyed@.subrange(0, keyed@.len() as int) =~= keyed@);
    }
    out
}


proof fn lemma_keyed_same_moves(out: Seq<(i32, Move)>, inp: Seq<(i32, Move)>)
    requires
        out.len() == inp.len(),
        forall|x: (i32, Move)| out.contains(x) <==> inp.contains(x),
        keyed_moves(out).no_duplicates(),
    ensures
        same_moves(keyed_moves(out), keyed_moves(inp)),
{
    let om = keyed_moves(out);
    let im = keyed_moves(inp);
    assert forall|m: Move| om.contains(m) <==> im.contains(m) by {
        if om.contains(m) {
            let j = choose|j: int| 0 <= j < om.len() && om[j] == m;
            assert(out.contains(out[j]));
            let k = choose|k: int| 0 <= k < inp.len() && inp[k] == out[j];
            assert(im[k] == m);
        }
        if im.contains(m) {
            let k = choose|k: int| 0 <= k < im.len() && im[k] == m;
            assert(inp.contains(inp[k]));
            let j = choose|j: int| 0 <= j < out.len() && out[j] == inp[k];
            assert(om[j] == m);
        }
    }
}

/// Every move lies on the board and goes somewhere.
pub open spec fn moves_ok(s: Seq<Move>) -> bool {
    forall|k: int| 0 <= k < s.len() ==> (#[trigger] s[k]).in_range() && s[k].from != s[k].to
}

/// The captures of `s` (moves onto an occupied square), in order.
pub open spec fn captures_of(cells: Seq<Option<Piece>>, s: Seq<Move>) -> Seq<Move>
    decreases s.len(),
{
    if s.len() == 0 {
        s
    } else if cells[s.last().to as int] is Some {
        captures_of(cells, s.drop_last()).push(s.last())
    } else {
        captures_of(cells, s.drop_last())
    }
}

proof fn lemma_captures_of(cells: Seq<Option<Piece>>, s: Seq<Move>)
    requires
        s.no_duplicates(),
    ensures
        captures_of(cells, s).no_duplicates(),
        forall|m: Move|
            captures_of(cells, s).contains(m) <==> s.contains(m) && cells[m.to as int] is Some,
        captures_of(cells, s).len() <= s.len(),
    decreases s.len(),
{
    if s.len() > 0 {
        let t = s.drop_last();
        assert(t.no_duplicates());
        lemma_captures_of(cells, t);
        assert forall|m: Move| s.contains(m) <==> t.contains(m) || m == s.last() by {
            if s.contains(m) && m != s.last() {
                let j = choose|j: int| 0 <= j < s.len() && s[j] == m;
                assert(t[j] == m);
            }
            if t.contains(m) {
                let j = choose|j: int| 0 <= j < t.len() && t[j] == m;
                assert(s[j] == m);
            }
            if m == s.last() {
                assert(s[s.len() - 1] == m);
            }
        }
        assert(!t.contains(s.last())) by {
            if t.contains(s.last()) {
                let j = choose|j: int| 0 <= j < t.len() && t[j] == s.last();
                assert(s[j] == s[s.len() - 1]);
            }
        }
        let c = captures_of(cells, t);
        if cells[s.last().to as int] is Some {
            let c2 = c.push(s.last());
            assert forall|m: Move| c2.contains(m) <==> c.contains(m) || m == s.last() by {
                if c2.contains(m) && m != s.last() {
                    let j = choose|j: int| 0 <= j < c2.len() && c2[j] == m;
                    assert(c[j] == m);
                }
                if c.contains(m) {
                    let j = choose|j: int| 0 <= j < c.len() && c[j] == m;
                    assert(c2[j] == m);
                }
                if m == s.last() {
                    assert(c2[c.len() as int] == m);
                }
            }
            assert(captures_of(cells, s) == c2);
            assert forall|m: Move|
                captures_of(cells, s).contains(m) <==> s.contains(m) && cells[m.to as int] is Some by {
                if m == s.last() {
                    assert(c2.contains(m));
                }
            }
        } else {
            assert(captures_of(cells, s) == c);
            assert forall|m: Move|
                captures_of(cells, s).contains(m) <==> s.contains(m) && cells[m.to as int] is Some by {
                if c.contains(m) {
                    assert(t.contains(m));
                }
            }
        }
    }
}

/// Keep only the captures.
fn captures_only(board: &Board, moves: Vec<Move>) -> (out: Vec<Move>)
    requires
        moves_ok(moves@),
    ensures
        out@ == captures_of(board.cells@, moves@),
        moves_ok(out@),
{
    let mut out: Vec<Move> = Vec::new();
    let mut i: usize = 0;
    while i < moves.len()
        invariant
            0 <= i <= moves@.len(),
            moves_ok(moves@),
            out@ == captures_of(board.cells@, moves@.subrange(0, i as int)),
            moves_ok(out@),
        decreases moves@.len() - i,
    {
        let m = moves[i];
        proof {
            assert(moves@.subrange(0, i + 1).drop_last() =~= moves@.subrange(0, i as int));
            assert(moves@.subrange(0, i + 1).last() == m);
        }
        if board.get(m.to).is_some() {
            out.push(m);
        }
        i = i + 1;
    }
    proof {
        assert(moves@.subrange(0, moves@.len() as int) =~= moves@);
    }
    out
}

/// Order quiescence captures by MVV-LVA, most valuable victim first.
fn order_captures(board: &Board, moves: Vec<Move>) -> (out: Vec<Move>)
    requires
        moves_ok(moves@),
        moves@.no_duplicates(),
    ensures
        same_moves(out@, moves@),
        moves_ok(out@),
        forall|a: int, b: int|
            0 <= a < b < out@.len() ==> mvv_lva_spec(board.cells@, #[trigger] out@[a])
                >= mvv_lva_spec(board.cells@, #[trigger] out@[b]),
{
    let ghost cells = board.cells@;
    let mut keyed: Vec<(i32, Move)> = Vec::new();
    let mut i: usize = 0;
    while i < moves.len()
        invariant
            0 <= i <= moves@.len(),
            moves_ok(moves@),
            keyed@.len() == i,
            forall|j: int|
                0 <= j < i ==> #[trigger] keyed@[j] == (
                -mvv_lva_spec(cells, moves@[j]) as i32,
                moves@[j],
            ),
            forall|j: int| 0 <= j < i ==> -160_000 <= -mvv_lva_spec(cells, #[trigger] moves@[j]) <= 10_000,
            cells == board.cells@,
        decreases moves@.len() - i,
    {
        let m = moves[i];
        let v = mvv_lva(board, m);
        keyed.push((-v, m));
        i = i + 1;
    }
    proof {
        assert(keyed_moves(keyed@) =~= moves@);
    }
    let sorted = sort_keyed(&keyed);
    proof {
        lemma_keyed_same_moves(sorted@, keyed@);
        assert(keyed_moves(keyed@) =~= moves@);
    }
    let mut out: Vec<Move> = Vec::new();
    let mut j: usize = 0;
    while j < sorted.len()
        invariant
            0 <= j <= sorted@.len(),
            out@ == keyed_moves(sorted@).subrange(0, j as int),
        decreases sorted@.len() - j,
    {
        out.push(sorted[j].1);
        j = j + 1;
        proof {
            assert(out@ =~= keyed_moves(sorted@).subrange(0, j as int));
        }
    }
    proof {
        assert(out@ =~= keyed_moves(sorted@));
        assert forall|k: int| 0 <= k < sorted@.len() implies (#[trigger] sorted@[k]).0 == -mvv_lva_spec(
            cells,
            sorted@[k].1,
        ) && sorted@[k].1.in_range() && sorted@[k].1.from != sorted@[k].1.to by {
            assert(sorted@.contains(sorted@[k]));
            let q = choose|q: int| 0 <= q < keyed@.len() && keyed@[q] == sorted@[k];
        }
        assert forall|a: int, b: int| 0 <= a < b < out@.len() implies mvv_lva_spec(
            cells,
            #[trigger] out@[a],
        ) >= mvv_lva_spec(cells, #[trigger] out@[b]) by {
            assert(sorted@[a].0 <= sorted@[b].0);
        }
    }
    out
}


impl SearchEngine {
    /// The first killer at `ply` (none beyond the table).
    pub closed spec fn killer(&self, ply: int, slot: int) -> Option<Move> {
        if 0 <= ply < MAX_PLY {
            self.killers@[ply]@[slot]
        } else {
            None
        }
    }

    /// The countermove stored against `prev`, when that band is in use.
    pub closed spec fn countermove_for(&self, prev: Option<Move>) -> Option<Move> {
        if self.tuning.countermove {
            match prev {
                Some(p) => self.counter@[p.from * 90 + p.to],
                None => None,
            }
        } else {
            None
        }
    }

    /// Where `m` sorts at an interior node (lower first): the TT move, then
    /// winning or equal captures by MVV-LVA, the two killers, the
    /// countermove, quiet moves by history, and losing captures last.
    pub closed spec fn order_key(
        &self,
        cells: Seq<Option<Piece>>,
        m: Move,
        tt_move: Option<Move>,
        ply: int,
        prev: Option<Move>,
    ) -> int {
        if Some(m) == tt_move {
            -3_000_000
        } else if cells[m.to as int] is Some {
            let mvv = mvv_lva_spec(cells, m);
            if self.tuning.see_order {
                let sx = see_spec(cells, m);
                if sx >= 0 {
                    -2_000_000 - mvv
                } else {
                    2_000_000 - sx
                }
            } else {
                -2_000_000 - mvv
            }
        } else if Some(m) == self.killer(ply, 0) {
            -1_900_000
        } else if Some(m) == self.killer(ply, 1) {
            -1_800_000
        } else if Some(m) == self.countermove_for(prev) {
            -1_700_000
        } else if self.tuning.history {
            -self.history@[m.from * 90 + m.to]
        } else {
            0
        }
    }

    /// Full move ordering for an interior node: TT move, winning/equal
    /// captures (SEE ≥ 0) by MVV-LVA, the two killers, the countermove for
    /// `prev`, quiet moves by butterfly history, then losing captures last.
    #[verifier::spinoff_prover]
    fn order(
        &self,
        board: &mut Board,
        moves: &mut Vec<Move>,
        tt_move: Option<Move>,
        ply: usize,
        prev: Option<Move>,
    )
        requires
            self.wf(),
            moves_ok(old(moves)@),
            old(moves)@.no_duplicates(),
            prev matches Some(p) ==> p.in_range(),
        ensures
            final(board).cells@ == old(board).cells@,
            same_moves(final(moves)@, old(moves)@),
            moves_ok(final(moves)@),
            forall|a: int, b: int|
                0 <= a < b < final(moves)@.len() ==> self.order_key(
                    old(board).cells@,
                    #[trigger] final(moves)@[a],
                    tt_move,
                    ply as int,
                    prev,
                ) <= self.order_key(old(board).cells@, #[trigger] final(moves)@[b], tt_move, ply as int, prev),
            forall|a: int, b: int|
                0 <= a < b < final(moves)@.len() && self.order_key(
                    old(board).cells@,
                    #[trigger] final(moves)@[a],
                    tt_move,
                    ply as int,
                    prev,
                ) == self.order_key(old(board).cells@, #[trigger] final(moves)@[b], tt_move, ply as int, prev)
                    ==> exists|ia: int, ib: int|
                    0 <= ia < ib < old(moves)@.len() && old(moves)@[ia] == final(moves)@[a] && old(
                        moves,
                    )@[ib] == final(moves)@[b],
    {
        let ghost cells = board.cells@;
        let killers: [Option<Move>; 2] = if ply < MAX_PLY {
            self.killers[ply]
        } else {
            [None, None]
        };
        let cm: Option<Move> = if self.tuning.countermove {
            match prev {
                Some(p) => self.counter[p.from * 90 + p.to],
                None => None,
            }
        } else {
            None
        };
        assert(cm == self.countermove_for(prev));
        let mut keyed: Vec<(i32, Move)> = Vec::new();
        let mut i: usize = 0;
        while i < moves.len()
            invariant
                0 <= i <= moves@.len(),
                self.wf(),
                moves_ok(moves@),
                board.cells@ == cells,
                keyed@.len() == i,
                killers[0] == self.killer(ply as int, 0),
                killers[1] == self.killer(ply as int, 1),
                cm == self.countermove_for(prev),
                forall|j: int|
                    0 <= j < i ==> #[trigger] keyed@[j] == (
                    self.order_key(cells, moves@[j], tt_move, ply as int, prev) as i32,
                    moves@[j],
                ),
                forall|j: int|
                    0 <= j < i ==> -3_000_000 <= self.order_key(
                        cells,
                        #[trigger] moves@[j],
                        tt_move,
                        ply as int,
                        prev,
                    ) <= 3_000_000,
            decreases moves@.len() - i,
        {
            let m = moves[i];
            proof {
                assert(moves@[i as int].in_range());
            }
            let s: i32 = if Some(m) == tt_move {
                -3_000_000
            } else if board.get(m.to).is_some() {
                let mvv = mvv_lva(board, m);
                if self.tuning.see_order {
                    let sx = see(board, m);
                    if sx >= 0 {
                        -2_000_000 - mvv  // winning / equal capture
                    } else {
                        2_000_000 - sx  // losing capture: dead last
                    }
                } else {
                    -2_000_000 - mvv  // all captures ahead of quiets
                }
            } else if Some(m) == killers[0] {
                -1_900_000
            } else if Some(m) == killers[1] {
                -1_800_000
            } else if Some(m) == cm {
                -1_700_000
            } else if self.tuning.history {
                -self.history[m.from * 90 + m.to]
            } else {
                0
            };
            keyed.push((s, m));
            i = i + 1;
        }
        proof {
            assert(keyed_moves(keyed@) =~= moves@);
        }
        let sorted = sort_keyed(&keyed);
        proof {
            lemma_keyed_same_moves(sorted@, keyed@);
        }
        let ghost orig = moves@;
        let mut out: Vec<Move> = Vec::new();
        let mut j: usize = 0;
        while j < sorted.len()
            invariant
                0 <= j <= sorted@.len(),
                out@ == keyed_moves(sorted@).subrange(0, j as int),
            decreases sorted@.len() - j,
        {
            out.push(sorted[j].1);
            j = j + 1;
            proof {
                assert(out@ =~= keyed_moves(sorted@).subrange(0, j as int));
            }
        }
        proof {
            assert(out@ =~= keyed_moves(sorted@));
            assert(keyed_moves(keyed@) =~= orig);
            assert forall|k: int| 0 <= k < sorted@.len() implies (#[trigger] sorted@[k]).0
                == self.order_key(cells, sorted@[k].1, tt_move, ply as int, prev) && sorted@[k].1.in_range()
                && sorted@[k].1.from != sorted@[k].1.to by {
                assert(sorted@.contains(sorted@[k]));
                let q = choose|q: int| 0 <= q < keyed@.len() && keyed@[q] == sorted@[k];
            }
            assert forall|a: int, b: int| 0 <= a < b < out@.len() implies self.order_key(
                cells,
                #[trigger] out@[a],
                tt_move,
                ply as int,
                prev,
            ) <= self.order_key(cells, #[trigger] out@[b], tt_move, ply as int, prev) by {
                assert(sorted@[a].0 <= sorted@[b].0);
            }
            assert forall|a: int, b: int|
                0 <= a < b < out@.len() && self.order_key(
                    cells,
                    #[trigger] out@[a],
                    tt_move,
                    ply as int,
                    prev,
                ) == self.order_key(cells, #[trigger] out@[b], tt_move, ply as int, prev) implies exists|
                ia: int,
                ib: int,
            | 0 <= ia < ib < orig.len() && orig[ia] == out@[a] && orig[ib] == out@[b] by {
                assert(sorted@[a].0 == sorted@[b].0);
                let (ia, ib) = choose|ia: int, ib: int|
                    0 <= ia < ib < keyed@.len() && keyed@[ia] == sorted@[a] && keyed@[ib] == sorted@[b];
                assert(keyed_moves(keyed@)[ia] == orig[ia]);
                assert(keyed_moves(keyed@)[ib] == orig[ib]);
            }
        }
        *moves = out;
    }
}


/// Legal moves lie on the board and go somewhere.
proof fn lemma_legal_moves_ok(cells: Seq<Option<Piece>>, side: Color, s: Seq<Move>)
    requires
        forall|k: int| 0 <= k < s.len() ==> legal_move(cells, side, #[trigger] s[k]),
    ensures
        moves_ok(s),
{
    assert forall|k: int| 0 <= k < s.len() implies (#[trigger] s[k]).in_range() && s[k].from
        != s[k].to by {
        assert(legal_move(cells, side, s[k]));
        lemma_pseudo_move_distinct(cells, side, s[k]);
    }
}

impl SearchEngine {
    /// What a search call leaves as it was: the tables' shape, the search
    /// path, the game's repetition counts and the depth limit; nodes only grow.
    pub closed spec fn kept(&self, old: &SearchEngine) -> bool {
        &&& self.wf()
        &&& self.path@ == old.path@
        &&& self.path_check@ == old.path_check@
        &&& self.game_counts@ == old.game_counts@
        &&& self.max_depth == old.max_depth
        &&& self.nodes >= old.nodes
    }

    fn quiescence(&mut self, board: &mut Board, side: Color, alpha: i32, beta: i32) -> (v: i32)
        requires
            old(self).wf(),
            -SCORE_LIMIT <= alpha < beta <= SCORE_LIMIT,
        ensures
            final(self).kept(old(self)),
            final(board).cells@ == old(board).cells@,
            -SCORE_LIMIT <= v <= SCORE_LIMIT,
            // Fail-hard: a finished search stays within the window and never
            // scores below standing pat.
            !final(self).aborted_view() ==> alpha <= v <= beta && (v == beta || evaluate_spec(
                old(board).cells@,
                side,
            ) <= v),
            final(self).aborted_view() ==> v == 0,
            final(self).abort_explained(old(self)),
        decreases NODE_CAP - old(self).nodes,
    {
        let ghost cells = old(board).cells@;
        if self.time_up() {
            return 0;
        }
        let stand = evaluate(board, side);
        if stand >= beta {
            return beta;
        }
        let ghost alpha_in = alpha;
        let mut alpha = alpha;
        if stand > alpha {
            alpha = stand;
        }
        let pseudo = legal_moves(board, side);
        proof {
            lemma_legal_moves_ok(cells, side, pseudo@);
            lemma_captures_of(cells, pseudo@);
        }
        let caps = captures_only(board, pseudo);
        let caps = order_captures(board, caps);
        let mut i: usize = 0;
        let mut done = false;
        let mut result: i32 = 0;
        while i < caps.len() && !done
            invariant
                0 <= i <= caps@.len(),
                moves_ok(caps@),
                board.cells@ == cells,
                self.kept(old(self)),
                self.nodes >= old(self).nodes + 1,
                -SCORE_LIMIT <= alpha < beta <= SCORE_LIMIT,
                -SCORE_LIMIT <= result <= SCORE_LIMIT,
                alpha_in <= alpha,
                stand <= alpha,
                done ==> result == 0 || result == beta,
                done && result == 0 && result != beta ==> self.aborted,
                !done ==> !self.aborted,
                self.aborted ==> result == 0,
                self.abort_explained(old(self)),
            decreases caps@.len() - i,
        {
            let mv = caps[i];
            proof {
                assert(caps@[i as int].in_range());
            }
            i = i + 1;
            // Skip captures that lose material by static exchange: they cannot
            // raise alpha above the stand-pat and only inflate the q-tree.
            if !(self.tuning.see_qprune && see(board, mv) < 0) {
                let captured = board.make(mv);
                let ghost pre = *self;
                let score = -self.quiescence(board, side.opposite(), -beta, -alpha);
                proof {
                    SearchEngine::lemma_abort_explained_trans(old(self), &pre, self);
                }
                board.unmake(mv, captured);
                proof {
                    lemma_unmake_make(cells, mv);
                }
                if self.aborted {
                    result = 0;
                    done = true;
                } else if score >= beta {
                    result = beta;
                    done = true;
                } else if score > alpha {
                    alpha = score;
                }
            }
        }
        if done {
            result
        } else {
            alpha
        }
    }
}


/// The history slot of a move: `from * 90 + to`.
pub open spec fn move_slot(m: Move) -> int {
    m.from * 90 + m.to
}

/// The killer table after a quiet cutoff by `mv` at `ply`: `mv` becomes the
/// first killer there and the former first killer the second, unless `mv`
/// already was the first; a ply past the table changes nothing.
pub open spec fn killers_after(k: Seq<[Option<Move>; 2]>, ply: int, mv: Move) -> Seq<[Option<Move>; 2]> {
    if 0 <= ply < MAX_PLY && k[ply][0] != Some(mv) {
        k.update(ply, [Some(mv), k[ply][0]])
    } else {
        k
    }
}

/// The history table after lowering, in order, the entry of each of the
/// first `n` quiet moves by `bonus`.
pub open spec fn apply_malus(h: Seq<i32>, quiets: Seq<Move>, bonus: int, n: int) -> Seq<i32>
    decreases n,
{
    if n <= 0 {
        h
    } else {
        let before = apply_malus(h, quiets, bonus, n - 1);
        let i = move_slot(quiets[n - 1]);
        before.update(i, hist_bump_spec(before[i] as int, -bonus) as i32)
    }
}

/// The history table after a quiet cutoff by `mv` at a node searched with
/// `bonus = depth²`: the cutting move's entry rises by `bonus`, then each
/// quiet move tried before it falls by `bonus`.
pub open spec fn history_after_cutoff(h: Seq<i32>, mv: Move, quiets: Seq<Move>, bonus: int) -> Seq<i32> {
    let raised = h.update(move_slot(mv), hist_bump_spec(h[move_slot(mv)] as int, bonus) as i32);
    apply_malus(raised, quiets, bonus, quiets.len() as int)
}

impl SearchEngine {
    /// How many times `key` occurs on the search path.
    fn path_count(&self, key: u64) -> (n: usize)
        ensures
            n == count_eq(self.path@, key),
    {
        let mut n: usize = 0;
        let mut i: usize = 0;
        while i < self.path.len()
            invariant
                0 <= i <= self.path@.len(),
                n == count_eq(self.path@.subrange(0, i as int), key),
                n <= i,
            decreases self.path@.len() - i,
        {
            proof {
                assert(self.path@.subrange(0, i + 1).drop_last() =~= self.path@.subrange(0, i as int));
            }
            if self.path[i] == key {
                n = n + 1;
            }
            i = i + 1;
        }
        proof {
            assert(self.path@.subrange(0, self.path@.len() as int) =~= self.path@);
        }
        n
    }

    /// How often `key` occurred in the actual game.
    fn game_count(&self, key: u64) -> (n: u32)
        ensures
            n == (if self.game_counts@.contains_key(key) {
                self.game_counts@[key]
            } else {
                0
            }),
    {
        match self.game_counts.get(&key) {
            Some(v) => *v,
            None => 0,
        }
    }

    /// Record a quiet move that caused a cutoff: it becomes the first killer
    /// at `ply`, the countermove to `prev`, and its history rises while the
    /// quiet moves tried before it fall.
    fn reward_quiet(&mut self, mv: Move, ply: usize, prev: Option<Move>, depth: i16, quiets: &Vec<Move>)
        requires
            old(self).wf(),
            mv.in_range(),
            1 <= depth <= 255,
            prev matches Some(p) ==> p.in_range(),
            moves_ok(quiets@),
        ensures
            final(self).kept(old(self)),
            final(self).nodes == old(self).nodes,
            final(self).aborted == old(self).aborted,
            final(self).tuning == old(self).tuning,
            final(self).tt == old(self).tt,
            final(self).killers@ == killers_after(old(self).killers@, ply as int, mv),
            final(self).counter@ == (match prev {
                Some(p) => old(self).counter@.update(move_slot(p), Some(mv)),
                None => old(self).counter@,
            }),
            final(self).history@ == history_after_cutoff(
                old(self).history@,
                mv,
                quiets@,
                depth * depth,
            ),
    {
        if ply < MAX_PLY {
            let k = self.killers[ply];
            if k[0] != Some(mv) {
                self.killers.set(ply, [Some(mv), k[0]]);
            }
        }
        match prev {
            Some(p) => {
                self.counter.set(p.from * 90 + p.to, Some(mv));
            },
            None => {},
        }
        assert(0 <= depth * depth <= 65025) by (nonlinear_arith)
            requires
                1 <= depth <= 255,
        ;
        let bonus = (depth as i32) * (depth as i32);
        let hi = mv.from * 90 + mv.to;
        let h = self.history[hi];
        self.history.set(hi, hist_bump(h, bonus));
        let ghost raised = self.history@;
        let ghost killers = self.killers@;
        let ghost counter = self.counter@;
        assert(raised == old(self).history@.update(
            move_slot(mv),
            hist_bump_spec(old(self).history@[move_slot(mv)] as int, bonus as int) as i32,
        ));
        let mut q: usize = 0;
        while q < quiets.len()
            invariant
                0 <= q <= quiets@.len(),
                moves_ok(quiets@),
                0 <= bonus <= 65025,
                self.kept(old(self)),
                self.nodes == old(self).nodes,
                self.aborted == old(self).aborted,
                self.tuning == old(self).tuning,
                self.tt == old(self).tt,
                self.killers@ == killers,
                self.counter@ == counter,
                self.history@ == apply_malus(raised, quiets@, bonus as int, q as int),
            decreases quiets@.len() - q,
        {
            let m = quiets[q];
            proof {
                assert(quiets@[q as int].in_range());
            }
            let qi = m.from * 90 + m.to;
            let hq = self.history[qi];
            self.history.set(qi, hist_bump(hq, -bonus));
            q = q + 1;
        }
    }
}


/// What a search call did, as a ghost record: a node scored from the moves
/// it searched, a node with no legal move, or any other exit (an abort, a
/// repetition, a table cut, quiescence or a pruning exit).
pub ghost enum SearchTrace {
    Exit { value: int },
    Mated { value: int },
    Node { value: int, children: Seq<(Move, SearchTrace)> },
}

/// The value a trace records.
pub open spec fn trace_value(t: SearchTrace) -> int {
    match t {
        SearchTrace::Exit { value } => value,
        SearchTrace::Mated { value } => value,
        SearchTrace::Node { value, .. } => value,
    }
}

/// The best negated child value, starting from `-INF`; a later child must
/// beat an earlier one strictly to count.
#[verifier::opaque]
pub open spec fn best_child(children: Seq<(Move, SearchTrace)>) -> int
    decreases children.len(),
{
    if children.len() == 0 {
        -INF as int
    } else {
        let b = best_child(children.drop_last());
        let s = -trace_value(children.last().1);
        if s > b {
            s
        } else {
            b
        }
    }
}

/// A trace fits the position `cells` with `side` to move at `ply`: a node's
/// value is the best negated value of its searched moves, each legal and
/// each traced on the position it leads to; a node without legal moves is
/// lost at `ply`.
#[verifier::opaque]
pub open spec fn trace_ok(t: SearchTrace, cells: Seq<Option<Piece>>, side: Color, ply: int) -> bool
    decreases t,
{
    match t {
        SearchTrace::Exit { .. } => true,
        SearchTrace::Mated { value } => !has_legal_move(cells, side) && value == ply - MATE,
        SearchTrace::Node { value, children } => {
            &&& value == best_child(children)
            &&& forall|k: int|
                0 <= k < children.len() ==> legal_move(cells, side, (#[trigger] children[k]).0)
                    && trace_ok(children[k].1, made(cells, children[k].0), side.other(), ply + 1)
        },
    }
}

/// Any exit fits every position.
pub proof fn lemma_exit_trace_ok(value: int, cells: Seq<Option<Piece>>, side: Color, ply: int)
    ensures
        trace_ok(SearchTrace::Exit { value }, cells, side, ply),
{
    reveal(trace_ok);
}

/// A node without legal moves, lost at `ply`, fits its position.
pub proof fn lemma_mated_trace_ok(cells: Seq<Option<Piece>>, side: Color, ply: int)
    requires
        !has_legal_move(cells, side),
    ensures
        trace_ok(SearchTrace::Mated { value: ply - MATE }, cells, side, ply),
{
    reveal(trace_ok);
}

/// A node scored as the best of its searched moves fits its position when
/// each move is legal and traced on the position it leads to.
pub proof fn lemma_node_trace_ok(
    children: Seq<(Move, SearchTrace)>,
    cells: Seq<Option<Piece>>,
    side: Color,
    ply: int,
)
    requires
        forall|k: int|
            0 <= k < children.len() ==> legal_move(cells, side, (#[trigger] children[k]).0)
                && trace_ok(children[k].1, made(cells, children[k].0), side.other(), ply + 1),
    ensures
        trace_ok(
            SearchTrace::Node { value: best_child(children), children },
            cells,
            side,
            ply,
        ),
{
    reveal(trace_ok);
}

/// One more searched move: the best value rises to its negated value if
/// that is strictly higher.
pub proof fn lemma_best_child_push(children: Seq<(Move, SearchTrace)>, m: Move, t: SearchTrace)
    ensures
        best_child(children.push((m, t))) == if -trace_value(t) > best_child(children) {
            -trace_value(t)
        } else {
            best_child(children)
        },
{
    reveal(best_child);
    assert(children.push((m, t)).drop_last() =~= children);
}

/// No searched move yet: the best value is `-INF`.
pub proof fn lemma_best_child_empty()
    ensures
        best_child(Seq::<(Move, SearchTrace)>::empty()) == -INF,
{
    reveal(best_child);
}

/// Null-move pruning may end a node: with the pruning enabled, at a
/// null-window node outside the mate zone whose side is not in check and
/// still has attacking material, at least three plies deep, whose static
/// evaluation reaches beta.
pub open spec fn null_move_gate(
    tuning: Tuning,
    cells: Seq<Option<Piece>>,
    side: Color,
    depth: int,
    alpha: int,
    beta: int,
) -> bool {
    &&& tuning.nmp
    &&& beta - alpha <= 1
    &&& !in_check_spec(cells, side)
    &&& -MATE_THRESHOLD < alpha
    &&& beta < MATE_THRESHOLD
    &&& depth >= 3
    &&& evaluate_spec(cells, side) >= beta
    &&& has_attacking_material_spec(cells, side)
}

/// Reverse futility at a node with `side` to move, `depth` plies to go and
/// the window `(alpha, beta)`: with the pruning enabled, at a null-window
/// node outside the mate zone whose side is not in check, shallow enough and
/// so far ahead that the static evaluation less `RFP_MARGIN` per ply still
/// reaches beta, the node is scored by its evaluation.
pub open spec fn reverse_futility(
    tuning: Tuning,
    cells: Seq<Option<Piece>>,
    side: Color,
    depth: int,
    alpha: int,
    beta: int,
) -> bool {
    &&& tuning.rfp
    &&& beta - alpha <= 1
    &&& !in_check_spec(cells, side)
    &&& -MATE_THRESHOLD < alpha
    &&& beta < MATE_THRESHOLD
    &&& depth <= RFP_MAX_DEPTH
    &&& evaluate_spec(cells, side) - RFP_MARGIN * depth >= beta
}

/// Counting from `a` nodes to `b` nodes reached the node cap or passed a
/// multiple of 2048.
#[verifier::opaque]
pub open spec fn count_crossed(a: int, b: int) -> bool {
    b >= NODE_CAP || b / 2048 > a / 2048
}

/// How often `key` occurred in the actual game.
pub open spec fn game_occurrences(counts: Map<u64, u32>, key: u64) -> int {
    if counts.contains_key(key) {
        counts[key] as int
    } else {
        0
    }
}

/// A node with key `key` is a threefold repetition: with its earlier
/// occurrences in the game and on the search path it has occurred three times.
pub open spec fn is_repetition(counts: Map<u64, u32>, path: Seq<u64>, key: u64) -> bool {
    game_occurrences(counts, key) >= 2 || count_eq(path, key) + game_occurrences(counts, key) >= 2
}

/// The score a transposition-table entry settles for a node searched `depth`
/// plies deep in the window `(alpha, beta)` at `ply`: an entry from a search
/// at least as deep gives its score (brought back relative to the root) when
/// it is exact, a lower bound at or above `beta`, or an upper bound at or
/// below `alpha`.
pub open spec fn tt_cutoff(e: Option<TtEntry>, depth: int, alpha: int, beta: int, ply: int) -> Option<int> {
    match e {
        Some(e) => if e.depth >= depth {
            let s = adjust_from_tt_spec(e.score as int, ply);
            match e.bound {
                Bound::Exact => Some(s),
                Bound::Lower => if s >= beta {
                    Some(s)
                } else {
                    None
                },
                Bound::Upper => if s <= alpha {
                    Some(s)
                } else {
                    None
                },
            }
        } else {
            None
        },
        None => None,
    }
}

impl SearchEngine {
    /// Alpha-beta (PVS) search of `board` with `side` to move, `depth` plies
    /// deep, `ply` plies from the root, reached by `prev`. The score is from
    /// `side`'s point of view; a search cut short by the clock returns 0 with
    /// the engine marked aborted.
    #[verifier::spinoff_prover]
    #[verifier::rlimit(100)]
    fn search(
        &mut self,
        board: &mut Board,
        side: Color,
        depth: i16,
        alpha: i32,
        beta: i32,
        ply: usize,
        prev: Option<Move>,
    ) -> (v: i32)
        requires
            old(self).wf(),
            0 <= depth <= 255,
            -SCORE_LIMIT <= alpha < beta <= SCORE_LIMIT,
            1 <= ply <= old(self).nodes + 1,
            prev matches Some(p) ==> p.in_range(),
        ensures
            final(self).kept(old(self)),
            final(board).cells@ == old(board).cells@,
            -SCORE_LIMIT <= v <= SCORE_LIMIT,
            old(self).aborted_view() ==> v == 0 && final(self).aborted_view(),
            final(self).aborted_view() ==> v == 0,
            final(self).abort_explained(old(self)),
            trace_value(final(self).trace@) == v,
            trace_ok(final(self).trace@, old(board).cells@, side, ply as int),
            ({
                let cells = old(board).cells@;
                let key = zkey_spec(cells, side);
                let rep = is_repetition(old(self).game_counts@, old(self).path@, key);
                let cut = tt_cutoff(old(self).tt.lookup(key), depth as int, alpha as int, beta as int, ply as int);
                &&& !final(self).aborted_view() && rep ==> v == repetition_score_spec(
                    old(self).path@,
                    old(self).path_check@,
                    key,
                    ply as int,
                    in_check_spec(cells, side),
                )
                &&& !final(self).aborted_view() && !rep && cut is Some ==> v == cut.unwrap()
                &&& !final(self).aborted_view() && !rep && cut is None && depth == 0 ==> alpha <= v
                    <= beta && (v == beta || evaluate_spec(cells, side) <= v)
                &&& !final(self).aborted_view() && !rep && cut is None && depth > 0 && !has_legal_move(
                    cells,
                    side,
                ) ==> v == ply - MATE
                &&& old(self).next_node_free() && (rep || cut is Some || (depth > 0 && !has_legal_move(
                    cells,
                    side,
                ))) ==> !final(self).aborted_view()
                &&& !rep && cut is None && depth > 0 && has_legal_move(cells, side)
                    && reverse_futility(old(self).tuning, cells, side, depth as int, alpha as int, beta as int)
                    ==> (!final(self).aborted_view() ==> v == evaluate_spec(cells, side)) && (old(
                    self,
                ).next_node_free() ==> !final(self).aborted_view())
                &&& !final(self).aborted_view() && !rep && cut is None && depth > 0 && has_legal_move(
                    cells,
                    side,
                ) && !reverse_futility(old(self).tuning, cells, side, depth as int, alpha as int, beta as int)
                    ==> final(self).trace@ is Node || null_move_gate(
                    old(self).tuning,
                    cells,
                    side,
                    depth as int,
                    alpha as int,
                    beta as int,
                )
            }),
        decreases NODE_CAP - old(self).nodes, 0int,
    {
        let ghost cells = old(board).cells@;
        if self.time_up() {
            self.path_dep = false;
            self.trace = Ghost(SearchTrace::Exit { value: 0 });
            proof {
                lemma_exit_trace_ok(0, cells, side, ply as int);
            }
            return 0;
        }
        let key = zkey(&self.zobrist, self.side_key, board, side);
        // Did the move that led to this node give check (i.e. is the side to
        // move now in check)? Recorded into `path_check` for perpetual-check
        // scoring of repetitions.
        let here_check = ply > 0 && in_check(board, side);

        // Threefold repetition: this position plus two prior occurrences (in
        // the real game and/or on the current search line). Under CCA rules a
        // repetition reached by *perpetual check* is a loss for the checking
        // side, not a draw.
        if ply > 0 {
            if self.repeats(key) {
                self.path_dep = true;  // a repetition score is path-dependent
                let rs = self.repetition_score(key, ply, here_check);
                self.trace = Ghost(SearchTrace::Exit { value: rs as int });
                proof {
                    lemma_exit_trace_ok(rs as int, cells, side, ply as int);
                }
                return rs;
            }
        }
        // Default for every non-repetition return below (TT hit, quiescence,
        // mate). The normal-completion path overwrites this with the
        // subtree's aggregate flag.
        self.path_dep = false;

        let alpha_orig = alpha;
        let mut alpha = alpha;
        match self.tt_cut(key, depth, alpha, beta, ply) {
            Some(s) => {
                self.trace = Ghost(SearchTrace::Exit { value: s as int });
                proof {
                    lemma_exit_trace_ok(s as int, cells, side, ply as int);
                }
                return s;
            },
            None => {},
        }

        if depth <= 0 {
            let ghost pre = *self;
            let q0 = self.quiescence(board, side, alpha, beta);
            proof {
                SearchEngine::lemma_abort_explained_trans(old(self), &pre, self);
            }
            self.trace = Ghost(SearchTrace::Exit { value: q0 as int });
            proof {
                lemma_exit_trace_ok(q0 as int, cells, side, ply as int);
            }
            return q0;
        }

        let mut moves = legal_moves(board, side);
        let ghost legal0 = moves@;
        if moves.len() == 0 {
            // No legal reply: a loss in Xiangqi (mate or stalemate).
            proof {
                assert forall|m: Move| !#[trigger] legal_move(cells, side, m) by {
                    if legal_move(cells, side, m) {
                        assert(moves@.contains(m));
                    }
                }
            }
            self.trace = Ghost(SearchTrace::Mated { value: ply - MATE });
            proof {
                lemma_mated_trace_ok(cells, side, ply as int);
            }
            return -MATE + ply as i32;
        }
        proof {
            lemma_legal_moves_ok(cells, side, moves@);
            assert(legal_move(cells, side, moves@[0]));
            assert(has_legal_move(cells, side));
        }

        // PV vs zero-window node: PVS searches the first child with a full
        // window and the rest with a null window, so `beta - alpha > 1`
        // identifies a PV node. Selective pruning is restricted to non-PV
        // nodes that are not in check and outside the mate zone.
        let is_pv = beta - alpha > 1;
        let mate_zone = alpha <= -MATE_THRESHOLD || beta >= MATE_THRESHOLD;
        let prunable = !is_pv && !here_check && !mate_zone;
        let eval = if prunable {
            evaluate(board, side)
        } else {
            0
        };

        // Reverse futility / static null move: so far ahead that even giving
        // back `RFP_MARGIN` per remaining ply still beats beta.
        if self.tuning.rfp && prunable && depth <= RFP_MAX_DEPTH && eval - RFP_MARGIN * depth as i32
            >= beta {
            self.trace = Ghost(SearchTrace::Exit { value: eval as int });
            proof {
                lemma_exit_trace_ok(eval as int, cells, side, ply as int);
            }
            return eval;
        }
        let ghost no_rfp = !reverse_futility(
            old(self).tuning,
            cells,
            side,
            depth as int,
            alpha_orig as int,
            beta as int,
        );
        assert(no_rfp);

        // Razoring: so far below alpha at shallow depth that only a tactical
        // shot could save it — let quiescence confirm a fail-low.
        if self.tuning.razor && prunable && depth <= RAZOR_MAX_DEPTH && eval + RAZOR_MARGIN < alpha {
            let ghost pre = *self;
            let q = self.quiescence(board, side, alpha, beta);
            proof {
                SearchEngine::lemma_abort_explained_trans(old(self), &pre, self);
            }
            if self.aborted {
                self.path_dep = false;
                self.trace = Ghost(SearchTrace::Exit { value: 0 });
                proof {
                    lemma_exit_trace_ok(0, cells, side, ply as int);
                }
                return 0;
            }
            if q < alpha {
                self.trace = Ghost(SearchTrace::Exit { value: q as int });
                proof {
                    lemma_exit_trace_ok(q as int, cells, side, ply as int);
                }
                return q;
            }
        }

        // Null-move pruning: pass the move; if the opponent still cannot reach
        // beta with a reduced search, this node is a fail-high. The null child
        // pushes its *own* (opponent-to-move) key, so the path stays balanced;
        // a repetition-tainted null result is distrusted via `path_dep` rather
        // than trusted as a cutoff.
        if self.tuning.nmp && prunable && depth >= 3 && eval >= beta && has_attacking_material(
            board,
            side,
        ) {
            let r: i16 = 2 + ((depth as u16) / 4) as i16;
            let nd: i16 = if depth - 1 - r > 0 {
                depth - 1 - r
            } else {
                0
            };
            let ghost pre = *self;
            let nscore = -self.search(board, side.opposite(), nd, -beta, -beta + 1, ply + 1, None);
            proof {
                SearchEngine::lemma_abort_explained_trans(old(self), &pre, self);
            }
            let null_dep = self.path_dep;
            self.path_dep = false;
            if self.aborted {
                self.trace = Ghost(SearchTrace::Exit { value: 0 });
                proof {
                    lemma_exit_trace_ok(0, cells, side, ply as int);
                }
                return 0;
            }
            if !null_dep && nscore >= beta {
                // A null search cannot prove a real mate; clamp to beta there.
                let cut_score = if nscore >= MATE_THRESHOLD {
                    beta
                } else {
                    nscore
                };
                self.trace = Ghost(SearchTrace::Exit { value: cut_score as int });
                proof {
                    lemma_exit_trace_ok(cut_score as int, cells, side, ply as int);
                }
                return cut_score;
            }
        }

        let tt_move = match self.tt.probe(key) {
            Some(e) => e.best,
            None => None,
        };
        self.order(board, &mut moves, tt_move, ply, prev);

        self.path.push(key);
        self.path_check.push(here_check);
        // Legal moves of this node, in the searched order.
        proof {
            assert forall|k: int| 0 <= k < moves@.len() implies legal_move(
                cells,
                side,
                #[trigger] moves@[k],
            ) by {
                assert(moves@.contains(moves@[k]));
                assert(legal0.contains(moves@[k]));
            }
        }
        let ghost pre = *self;
        let (best_score, best_move, subtree_dep, Ghost(children)) = self.search_moves(
            board,
            side,
            depth,
            alpha,
            beta,
            ply,
            prev,
            &moves,
            prunable,
            is_pv,
        );
        proof {
            SearchEngine::lemma_abort_explained_trans(old(self), &pre, self);
        }
        self.path.pop();
        self.path_check.pop();
        proof {
            assert(self.path@ =~= old(self).path@);
            assert(self.path_check@ =~= old(self).path_check@);
        }
        if self.aborted {
            self.path_dep = false;
            self.trace = Ghost(SearchTrace::Exit { value: 0 });
            proof {
                lemma_exit_trace_ok(0, cells, side, ply as int);
            }
            return 0;
        }
        let bound = if best_score <= alpha_orig {
            Bound::Upper
        } else if best_score >= beta {
            Bound::Lower
        } else {
            Bound::Exact
        };
        // A repetition-influenced value is path-dependent: never cache it in
        // the position-keyed TT (it would be served on a different path).
        if !subtree_dep {
            self.tt.store(key, depth, adjust_to_tt(best_score, ply), bound, best_move);
        }
        self.path_dep = subtree_dep;
        self.trace = Ghost(SearchTrace::Node { value: best_score as int, children });
        proof {
            lemma_node_trace_ok(children, cells, side, ply as int);
        }
        best_score
    }
}



impl SearchEngine {
    /// Whether the position with key `key` is a threefold repetition: with
    /// its occurrences in the game and on the search path, the third.
    fn repeats(&self, key: u64) -> (b: bool)
        ensures
            b == is_repetition(self.game_counts@, self.path@, key),
    {
        let in_game = self.game_count(key);
        let in_path = self.path_count(key);
        in_game >= 2 || in_path >= 2 - in_game as usize
    }

    /// The score a stored entry settles for a node searched `depth` plies
    /// deep in the window `(alpha, beta)` at `ply`, if any.
    fn tt_cut(&self, key: u64, depth: i16, alpha: i32, beta: i32, ply: usize) -> (r: Option<i32>)
        requires
            self.wf(),
            ply <= NODE_CAP + 1,
        ensures
            r matches Some(s) ==> Some(s as int) == tt_cutoff(
                self.tt.lookup(key),
                depth as int,
                alpha as int,
                beta as int,
                ply as int,
            ),
            r is None ==> tt_cutoff(self.tt.lookup(key), depth as int, alpha as int, beta as int, ply as int)
                is None,
            r matches Some(s) ==> -SCORE_LIMIT <= s <= SCORE_LIMIT,
    {
        match self.tt.probe(key) {
            Some(e) => {
                if e.depth >= depth {
                    let s = adjust_from_tt(e.score, ply);
                    match e.bound {
                        Bound::Exact => Some(s),
                        Bound::Lower => if s >= beta {
                            Some(s)
                        } else {
                            None
                        },
                        Bound::Upper => if s <= alpha {
                            Some(s)
                        } else {
                            None
                        },
                    }
                } else {
                    None
                }
            },
            None => None,
        }
    }
}

impl SearchEngine {
    /// The move loop of a node: searches the ordered `moves` (PVS with late
    /// move pruning and reductions, check extensions), stopping at a beta
    /// cutoff or an abort. Gives the best score, the move that reached it,
    /// whether any child's value was path-dependent, and the searched moves
    /// with their traces.
    #[verifier::spinoff_prover]
    #[verifier::rlimit(100)]
    fn search_moves(
        &mut self,
        board: &mut Board,
        side: Color,
        depth: i16,
        alpha: i32,
        beta: i32,
        ply: usize,
        prev: Option<Move>,
        moves: &Vec<Move>,
        prunable: bool,
        is_pv: bool,
    ) -> (r: (i32, Option<Move>, bool, Ghost<Seq<(Move, SearchTrace)>>))
        requires
            old(self).wf(),
            1 <= depth <= 255,
            -SCORE_LIMIT <= alpha < beta <= SCORE_LIMIT,
            1 <= ply <= old(self).nodes,
            prev matches Some(p) ==> p.in_range(),
            moves_ok(moves@),
            forall|k: int| 0 <= k < moves@.len() ==> legal_move(old(board).cells@, side, #[trigger] moves@[k]),
            is_pv == (beta - alpha > 1),
        ensures
            final(self).kept(old(self)),
            final(board).cells@ == old(board).cells@,
            final(self).abort_explained(old(self)),
            -SCORE_LIMIT <= r.0 <= SCORE_LIMIT,
            r.0 == best_child(r.3@),
            r.1 matches Some(m) ==> m.in_range(),
            forall|k: int|
                0 <= k < r.3@.len() ==> legal_move(old(board).cells@, side, (#[trigger] r.3@[k]).0)
                    && trace_ok(r.3@[k].1, made(old(board).cells@, r.3@[k].0), side.other(), ply + 1),
        decreases NODE_CAP - old(self).nodes, 1int,
    {
        let mut alpha = alpha;
        let ghost cells = old(board).cells@;
        let ghost mut children: Seq<(Move, SearchTrace)> = Seq::empty();
        proof {
            lemma_best_child_empty();
        }
        let mut best_score: i32 = -INF;
        let mut best_move: Option<Move> = None;
        let mut first = true;
        let mut move_idx: usize = 0;
        // Quiet moves already tried at this node (for the history malus on a
        // later cutoff). Captures are excluded — history is a quiet-move stat.
        let mut quiets: Vec<Move> = Vec::new();
        // OR of every searched child's path-dependence flag. If set, this
        // node's value was influenced by a repetition score and must not be
        // cached in the position-keyed TT.
        let mut subtree_dep = false;
        let mut stopped = false;
        let mut i: usize = 0;
        while i < moves.len() && !stopped
            invariant
                0 <= i <= moves@.len(),
                moves_ok(moves@),
                moves_ok(quiets@),
                board.cells@ == cells,
                self.wf(),
                self.path@ == old(self).path@,
                self.path_check@ == old(self).path_check@,
                self.game_counts@ == old(self).game_counts@,
                self.max_depth == old(self).max_depth,
                self.nodes >= old(self).nodes,
                1 <= ply <= old(self).nodes,
                1 <= depth <= 255,
                -SCORE_LIMIT <= alpha <= SCORE_LIMIT,
                beta <= SCORE_LIMIT,
                !stopped ==> alpha < beta,
                -SCORE_LIMIT <= best_score <= SCORE_LIMIT,
                move_idx <= i,
                self.abort_explained(old(self)),
                prev matches Some(p) ==> p.in_range(),
                forall|k: int| 0 <= k < moves@.len() ==> legal_move(cells, side, #[trigger] moves@[k]),
                best_score == best_child(children),
                best_move matches Some(m) ==> m.in_range(),
                forall|k: int|
                    0 <= k < children.len() ==> legal_move(cells, side, (#[trigger] children[k]).0)
                        && trace_ok(children[k].1, made(cells, children[k].0), side.other(), ply + 1),
            decreases moves@.len() - i,
        {
            let mv = moves[i];
            proof {
                assert(moves@[i as int].in_range() && moves@[i as int].from != moves@[i as int].to);
            }
            i = i + 1;
            // `quiet` is decided before the move is made (a piece on the
            // destination means a capture); history/killers and the LMR/LMP
            // gates are quiet-move stats only.
            let quiet = board.get(mv.to).is_none();

            // Late move pruning: at shallow non-PV nodes, once enough moves
            // have been tried, skip the ordered-last quiets. Never while in
            // check, and not before a non-losing score exists (mate defence).
            if self.tuning.lmp && prunable && quiet && depth <= LMP_MAX_DEPTH && move_idx >= lmp_count(
                depth,
            ) && best_score > -MATE_THRESHOLD {
                move_idx = move_idx + 1;
            } else {
                let captured = board.make(mv);
                let gives_check = in_check(board, side.opposite());
                // Check extension: stay one ply deeper down forcing lines.
                let ext: i16 = if self.tuning.check_ext && gives_check && ply < MAX_PLY {
                    1
                } else {
                    0
                };
                let new_depth = depth - 1 + ext;
                let score = if first {
                    let ghost pre = *self;
                    let s0 = -self.search(
                        board,
                        side.opposite(),
                        new_depth,
                        -beta,
                        -alpha,
                        ply + 1,
                        Some(mv),
                    );
                    proof {
                        SearchEngine::lemma_abort_explained_trans(old(self), &pre, self);
                    }
                    s0
                } else {
                    // LMR: search late quiet (non-check, non-extended) moves
                    // reduced; only re-search at full depth if they beat alpha.
                    let reduce: i16 = if self.tuning.lmr && quiet && !gives_check && ext == 0 && depth
                        >= 3 && move_idx >= 3 {
                        lmr_reduction(depth, move_idx, is_pv)
                    } else {
                        0
                    };
                    let d: i16 = if new_depth - reduce > 1 {
                        new_depth - reduce
                    } else {
                        1
                    };
                    let ghost pre = *self;
                    let mut s = -self.search(
                        board,
                        side.opposite(),
                        d,
                        -alpha - 1,
                        -alpha,
                        ply + 1,
                        Some(mv),
                    );
                    proof {
                        SearchEngine::lemma_abort_explained_trans(old(self), &pre, self);
                    }
                    if reduce > 0 && s > alpha {
                        // Reduced search beat alpha — confirm at full depth.
                        let ghost pre = *self;
                        s = -self.search(
                            board,
                            side.opposite(),
                            new_depth,
                            -alpha - 1,
                            -alpha,
                            ply + 1,
                            Some(mv),
                        );
                        proof {
                            SearchEngine::lemma_abort_explained_trans(old(self), &pre, self);
                        }
                    }
                    if s > alpha && s < beta {
                        // PV: re-search with the full window.
                        let ghost pre = *self;
                        s = -self.search(
                            board,
                            side.opposite(),
                            new_depth,
                            -beta,
                            -alpha,
                            ply + 1,
                            Some(mv),
                        );
                        proof {
                            SearchEngine::lemma_abort_explained_trans(old(self), &pre, self);
                        }
                    }
                    s
                };
                let ghost ct = self.trace@;
                board.unmake(mv, captured);
                proof {
                    lemma_unmake_make(cells, mv);
                }
                first = false;
                move_idx = move_idx + 1;
                // The child set `self.path_dep` on return; fold it in.
                subtree_dep = subtree_dep || self.path_dep;

                if self.aborted {
                    stopped = true;
                } else {
                    proof {
                        assert(legal_move(cells, side, moves@[i - 1]));
                        let before = children;
                        children = children.push((mv, ct));
                        lemma_best_child_push(before, mv, ct);
                        assert(trace_value(ct) == -score);
                    }
                    if score > best_score {
                        best_score = score;
                        best_move = Some(mv);
                    }
                    if score > alpha {
                        alpha = score;
                    }
                    if alpha >= beta {
                        if quiet {
                            self.reward_quiet(mv, ply, prev, depth, &quiets);
                        }
                        stopped = true;
                    } else if quiet {
                        quiets.push(mv);
                    }
                }
            }
        }
        (best_score, best_move, subtree_dep, Ghost(children))
    }
}

/// The best of the root scores, starting from `-INF`.
pub open spec fn root_best(s: Seq<(Move, i32)>) -> int
    decreases s.len(),
{
    if s.len() == 0 {
        -INF as int
    } else {
        let b = root_best(s.drop_last());
        if s.last().1 > b {
            s.last().1 as int
        } else {
            b
        }
    }
}

/// The score a root move needs to join the pool: the best score, or in the
/// opening (`widen`) the best less `OPENING_MARGIN`, unless the best is a mate
/// score.
pub open spec fn root_cutoff(s: Seq<(Move, i32)>, widen: bool) -> int {
    let b = root_best(s);
    if widen && -MATE_THRESHOLD < b && b < MATE_THRESHOLD {
        b - OPENING_MARGIN
    } else {
        b
    }
}

/// The moves scoring at least `cutoff`, in their order.
pub open spec fn root_pool(s: Seq<(Move, i32)>, cutoff: int) -> Seq<Move>
    decreases s.len(),
{
    if s.len() == 0 {
        Seq::empty()
    } else {
        let p = root_pool(s.drop_last(), cutoff);
        if s.last().1 >= cutoff {
            p.push(s.last().0)
        } else {
            p
        }
    }
}

/// The move picked from the scores of the last completed depth with the
/// random word `r`: entry `r % len` of the pool, or the first move where no
/// score reaches the cutoff.
pub open spec fn root_choice(s: Seq<(Move, i32)>, widen: bool, r: u64) -> Move {
    let pool = root_pool(s, root_cutoff(s, widen));
    if pool.len() == 0 {
        s[0].0
    } else {
        pool[(r as int) % (pool.len() as int)]
    }
}

proof fn lemma_root_pool_from(s: Seq<(Move, i32)>, cutoff: int, k: int)
    requires
        0 <= k < root_pool(s, cutoff).len(),
    ensures
        exists|j: int|
            0 <= j < s.len() && (#[trigger] s[j]).0 == root_pool(s, cutoff)[k] && s[j].1 >= cutoff,
    decreases s.len(),
{
    let p = root_pool(s.drop_last(), cutoff);
    if k < p.len() {
        lemma_root_pool_from(s.drop_last(), cutoff, k);
        let j = choose|j: int|
            0 <= j < s.drop_last().len() && (#[trigger] s.drop_last()[j]).0 == p[k] && s.drop_last()[j].1
                >= cutoff;
        assert(s[j] == s.drop_last()[j]);
    } else {
        assert(s[s.len() - 1].0 == root_pool(s, cutoff)[k]);
    }
}

/// A move scoring at least the cutoff makes the pool nonempty.
proof fn lemma_root_pool_nonempty(s: Seq<(Move, i32)>, cutoff: int, j: int)
    requires
        0 <= j < s.len(),
        s[j].1 >= cutoff,
    ensures
        root_pool(s, cutoff).len() > 0,
    decreases s.len(),
{
    if j < s.len() - 1 {
        assert(s.drop_last()[j] == s[j]);
        lemma_root_pool_nonempty(s.drop_last(), cutoff, j);
    }
}

/// The best root score bounds every score, and above `-INF` some move has it.
proof fn lemma_root_best(s: Seq<(Move, i32)>)
    ensures
        forall|j: int| 0 <= j < s.len() ==> (#[trigger] s[j]).1 <= root_best(s),
        root_best(s) > -INF ==> exists|j: int| 0 <= j < s.len() && (#[trigger] s[j]).1 == root_best(s),
    decreases s.len(),
{
    if s.len() > 0 {
        let p = s.drop_last();
        lemma_root_best(p);
        assert forall|j: int| 0 <= j < s.len() implies (#[trigger] s[j]).1 <= root_best(s) by {
            if j < s.len() - 1 {
                assert(s[j] == p[j]);
            }
        }
        if root_best(s) > -INF && root_best(s) == root_best(p) {
            let j = choose|j: int| 0 <= j < p.len() && (#[trigger] p[j]).1 == root_best(p);
            assert(s[j] == p[j]);
        }
    }
}

/// The engine plays the move its search scores best: from root scores of
/// which some beat `-INF`, the pick is a scored move reaching the cutoff (the
/// best score, or in the opening the best less `OPENING_MARGIN` unless that
/// is a mate score), and without widening one with the best score itself.
pub proof fn lemma_root_choice_scores_best(s: Seq<(Move, i32)>, widen: bool, r: u64)
    requires
        root_best(s) > -INF,
    ensures
        exists|j: int|
            0 <= j < s.len() && (#[trigger] s[j]).0 == root_choice(s, widen, r) && s[j].1 >= root_cutoff(
                s,
                widen,
            ),
        !widen ==> exists|j: int|
            0 <= j < s.len() && (#[trigger] s[j]).0 == root_choice(s, widen, r) && s[j].1 == root_best(s),
{
    lemma_root_best(s);
    let c = root_cutoff(s, widen);
    let b = choose|j: int| 0 <= j < s.len() && (#[trigger] s[j]).1 == root_best(s);
    lemma_root_pool_nonempty(s, c, b);
    let pool = root_pool(s, c);
    let k = (r as int) % (pool.len() as int);
    lemma_root_pool_from(s, c, k);
}

/// Pick the root move from the scores of the last completed depth: every
/// move scoring at least the cutoff joins the pool, in order, and the pick is
/// entry `r % len` of it (the first move where the pool is empty).
pub fn choose_root_move(scored: &Vec<(Move, i32)>, widen: bool, r: u64) -> (m: Move)
    requires
        scored@.len() > 0,
    ensures
        m == root_choice(scored@, widen, r),
        exists|j: int| 0 <= j < scored@.len() && (#[trigger] scored@[j]).0 == m,
{
    let mut best: i32 = -INF;
    let mut i: usize = 0;
    while i < scored.len()
        invariant
            0 <= i <= scored@.len(),
            best == root_best(scored@.subrange(0, i as int)),
        decreases scored@.len() - i,
    {
        proof {
            assert(scored@.subrange(0, i + 1).drop_last() =~= scored@.subrange(0, i as int));
        }
        if scored[i].1 > best {
            best = scored[i].1;
        }
        i = i + 1;
    }
    proof {
        assert(scored@.subrange(0, scored@.len() as int) =~= scored@);
    }
    let b: i64 = best as i64;
    let cutoff: i64 = if widen && -(MATE_THRESHOLD as i64) < b && b < MATE_THRESHOLD as i64 {
        b - OPENING_MARGIN as i64
    } else {
        b
    };
    let ghost c = root_cutoff(scored@, widen);
    let mut pool: Vec<Move> = Vec::new();
    let mut j: usize = 0;
    while j < scored.len()
        invariant
            0 <= j <= scored@.len(),
            cutoff == c,
            pool@ == root_pool(scored@.subrange(0, j as int), c),
        decreases scored@.len() - j,
    {
        proof {
            assert(scored@.subrange(0, j + 1).drop_last() =~= scored@.subrange(0, j as int));
        }
        let (mv, sc) = scored[j];
        if sc as i64 >= cutoff {
            pool.push(mv);
        }
        j = j + 1;
    }
    proof {
        assert(scored@.subrange(0, scored@.len() as int) =~= scored@);
    }
    if pool.len() == 0 {
        return scored[0].0;
    }
    let pick = (r % (pool.len() as u64)) as usize;
    proof {
        lemma_root_pool_from(scored@, c, pick as int);
    }
    pool[pick]
}

/// Root scores fit the position: each scored move is legal, its score is
/// the negated value of the search traced on the position it leads to, and a
/// nonempty list scores every legal move.
pub open spec fn root_fits(
    cells: Seq<Option<Piece>>,
    side: Color,
    scores: Seq<(Move, i32)>,
    traces: Seq<SearchTrace>,
) -> bool {
    &&& scores.len() == traces.len()
    &&& forall|k: int|
        0 <= k < scores.len() ==> legal_move(cells, side, (#[trigger] scores[k]).0) && trace_ok(
            traces[k],
            made(cells, scores[k].0),
            side.other(),
            1,
        ) && scores[k].1 == -trace_value(traces[k])
    &&& scores.len() > 0 ==> forall|m: Move|
        #[trigger] legal_move(cells, side, m) ==> exists|k: int| 0 <= k < scores.len() && scores[k].0 == m
}

/// `m` is the one legal move of `side`.
pub open spec fn only_legal_move(cells: Seq<Option<Piece>>, side: Color, m: Move) -> bool {
    &&& legal_move(cells, side, m)
    &&& forall|m2: Move| #[trigger] legal_move(cells, side, m2) ==> m2 == m
}

/// A copy of a move list.
fn copy_moves(v: &Vec<Move>) -> (out: Vec<Move>)
    ensures
        out@ == v@,
{
    let mut out: Vec<Move> = Vec::new();
    let mut i: usize = 0;
    while i < v.len()
        invariant
            0 <= i <= v@.len(),
            out@ == v@.subrange(0, i as int),
        decreases v@.len() - i,
    {
        out.push(v[i]);
        i = i + 1;
        proof {
            assert(out@ =~= v@.subrange(0, i as int));
        }
    }
    proof {
        assert(out@ =~= v@);
    }
    out
}

impl SearchEngine {
    /// Best move for `state.side_to_move`, or `None` if there is no legal
    /// move: iterative deepening up to the depth limit within the time budget,
    /// each depth searching every root move with a full window, then a random
    /// pick among the equally best (in the opening, near-best) moves of the
    /// last completed depth.
    #[verifier::spinoff_prover]
    pub fn best_move(&mut self, state: &GameState) -> (r: Option<Move>)
        requires
            old(self).wf(),
            history_in_range(state.history@),
            state.history@.len() < u32::MAX,
        ensures
            final(self).wf(),
            final(self).max_depth_view() == old(self).max_depth_view(),
            r is None <==> !exists|m: Move|
                #[trigger] legal_move(state.board.cells@, state.side_to_move, m),
            r matches Some(m) ==> legal_move(state.board.cells@, state.side_to_move, m),
            forall|m: Move| #[trigger] only_legal_move(state.board.cells@, state.side_to_move, m) ==> r
                == Some(m),
            root_fits(
                state.board.cells@,
                state.side_to_move,
                final(self).root_scores_view(),
                final(self).root_traces_view(),
            ),
            final(self).root_scores_view().len() > 0 ==> r == Some(
                root_choice(
                    final(self).root_scores_view(),
                    old(self).tuning_view().variety && state.history@.len() < OPENING_PLIES,
                    xorshift_out(final(self).rng_view()),
                ),
            ),
    {
        let widen = self.tuning.variety && state.history.len() < OPENING_PLIES;
        self.root_scores = Ghost(Seq::empty());
        self.root_traces = Ghost(Seq::empty());
        let side = state.side_to_move;
        let ghost cells = state.board.cells@;
        let mut root_board = state.board;
        let root_moves = legal_moves(&mut root_board, side);
        if root_moves.len() == 0 {
            proof {
                assert forall|m: Move| !#[trigger] legal_move(cells, side, m) by {
                    if legal_move(cells, side, m) {
                        assert(root_moves@.contains(m));
                    }
                }
            }
            return None;
        }
        proof {
            assert(legal_move(cells, side, root_moves@[0]));
            lemma_legal_moves_ok(cells, side, root_moves@);
        }
        if root_moves.len() == 1 {
            proof {
                assert forall|m: Move| #[trigger] only_legal_move(cells, side, m) implies root_moves@[0]
                    == m by {
                    assert(root_moves@.contains(m));
                }
            }
            return Some(root_moves[0]);
        }
        assert(forall|m: Move| !#[trigger] only_legal_move(cells, side, m)) by {
            assert(legal_move(cells, side, root_moves@[0]));
            assert(legal_move(cells, side, root_moves@[1]));
        }

        self.build_repetition(state);
        self.path.clear();
        self.path_check.clear();
        self.deadline = instant_after(clock_now(), self.budget);
        self.nodes = 0;
        self.aborted = false;
        // Quiet-move ordering stats start fresh each move so play stays
        // deterministic given the position (no carry-over between turns).
        let mut k: usize = 0;
        while k < MAX_PLY
            invariant
                0 <= k <= MAX_PLY,
                self.wf(),
                self.max_depth == old(self).max_depth,
                self.nodes == 0,
            decreases MAX_PLY - k,
        {
            self.killers.set(k, [None, None]);
            k = k + 1;
        }
        let mut h: usize = 0;
        while h < 8100
            invariant
                0 <= h <= 8100,
                self.wf(),
                self.max_depth == old(self).max_depth,
                self.nodes == 0,
            decreases 8100 - h,
        {
            self.history.set(h, 0);
            self.counter.set(h, None);
            h = h + 1;
        }

        let mut best = root_moves[0];
        // Scores of the last completed depth (none completed yet).
        let mut last: Vec<(Move, i32)> = Vec::new();
        let ghost mut last_traces: Seq<SearchTrace> = Seq::empty();
        let max_depth = self.max_depth as i16;
        // Iterative deepening: each completed depth refines the move and
        // seeds the next iteration's ordering via the transposition table.
        let mut depth: i16 = 1;
        let mut finished = false;
        while depth <= max_depth && !finished
            invariant
                1 <= depth <= 256,
                max_depth <= 255,
                self.wf(),
                self.max_depth == old(self).max_depth,
                root_board.cells@ == cells,
                moves_ok(root_moves@),
                root_moves@.len() >= 2,
                root_moves@.no_duplicates(),
                forall|j: int| 0 <= j < root_moves@.len() ==> legal_move(cells, side, #[trigger] root_moves@[j]),
                legal_move(cells, side, best),
                forall|j: int| 0 <= j < last@.len() ==> legal_move(cells, side, (#[trigger] last@[j]).0),
                root_fits(cells, side, last@, last_traces),
                forall|m: Move| #[trigger] legal_move(cells, side, m) ==> root_moves@.contains(m),
                widen == (old(self).tuning.variety && state.history@.len() < OPENING_PLIES),
            decreases 257 - depth - (if finished {
                1int
            } else {
                0int
            }),
        {
            let key = zkey(&self.zobrist, self.side_key, &root_board, side);
            let tt_move = match self.tt.probe(key) {
                Some(e) => e.best,
                None => None,
            };
            let mut moves = copy_moves(&root_moves);
            let hint = match tt_move {
                Some(m) => Some(m),
                None => Some(best),
            };
            self.order(&mut root_board, &mut moves, hint, 0, None);
            proof {
                assert forall|j: int| 0 <= j < moves@.len() implies legal_move(
                    cells,
                    side,
                    #[trigger] moves@[j],
                ) by {
                    assert(moves@.contains(moves@[j]));
                    assert(root_moves@.contains(moves@[j]));
                }
            }

            // Root is searched with a full window per move so the scores are
            // exact: this keeps the equal-best pool honest (a null-window /
            // PVS probe returns fail-low bounds that spuriously look "equal").
            let mut best_score: i32 = -INF;
            let mut local_best = moves[0];
            let mut scored: Vec<(Move, i32)> = Vec::new();
            let mut completed = true;
            let mut root_dep = false;  // any root line influenced by repetition?
            let ghost mut traced: Seq<SearchTrace> = Seq::empty();
            let mut i: usize = 0;
            while i < moves.len() && completed
                invariant
                    0 <= i <= moves@.len(),
                    moves@.len() == root_moves@.len(),
                    moves_ok(moves@),
                    forall|j: int| 0 <= j < moves@.len() ==> legal_move(cells, side, #[trigger] moves@[j]),
                    self.wf(),
                    self.max_depth == old(self).max_depth,
                    root_board.cells@ == cells,
                    1 <= depth <= 255,
                    legal_move(cells, side, local_best),
                    -SCORE_LIMIT <= best_score <= SCORE_LIMIT,
                    forall|j: int| 0 <= j < scored@.len() ==> legal_move(cells, side, (#[trigger] scored@[j]).0),
                    scored@.len() == traced.len(),
                    completed ==> scored@.len() == i,
                    forall|j: int| 0 <= j < scored@.len() ==> (#[trigger] scored@[j]).0 == moves@[j],
                    forall|j: int|
                        0 <= j < scored@.len() ==> trace_ok(
                            #[trigger] traced[j],
                            made(cells, scored@[j].0),
                            side.other(),
                            1,
                        ) && scored@[j].1 == -trace_value(traced[j]),
                decreases moves@.len() - i,
            {
                let mv = moves[i];
                proof {
                    assert(moves@[i as int].in_range());
                    assert(legal_move(cells, side, moves@[i as int]));
                }
                i = i + 1;
                let captured = root_board.make(mv);
                let score = -self.search(&mut root_board, side.opposite(), depth - 1, -INF, INF, 1, Some(mv));
                let ghost ct = self.trace@;
                root_board.unmake(mv, captured);
                proof {
                    lemma_unmake_make(cells, mv);
                }
                root_dep = root_dep || self.path_dep;
                if self.aborted {
                    completed = false;
                } else {
                    if score > best_score {
                        best_score = score;
                        local_best = mv;
                    }
                    scored.push((mv, score));
                    proof {
                        traced = traced.push(ct);
                    }
                }
            }

            if completed {
                best = local_best;
                // Equally-best moves give natural variety; the pool is picked
                // from these scores once the deepening ends.
                proof {
                    assert forall|m: Move| #[trigger] legal_move(cells, side, m) implies exists|k: int|
                        0 <= k < scored@.len() && scored@[k].0 == m by {
                        assert(root_moves@.contains(m));
                        assert(moves@.contains(m));
                        let k = choose|k: int| 0 <= k < moves@.len() && moves@[k] == m;
                        assert(scored@[k].0 == m);
                    }
                    last_traces = traced;
                }
                last = scored;
                if !root_dep {
                    self.tt.store(key, depth, best_score, Bound::Exact, Some(local_best));
                }
                depth = depth + 1;
            } else {
                finished = true;  // ran out of time; keep the last completed depth
            }
        }

        // Vary play among equally-best moves. In the opening the pool widens
        // to every move within `OPENING_MARGIN` of the best (near-best, so
        // still sound) so games don't always start identically; afterwards it
        // takes exact ties. A mate score is no centipawn value: a found mate
        // is never diluted with slower ones.
        let r = self.next_rand();
        self.root_scores = Ghost(last@);
        self.root_traces = Ghost(last_traces);
        if last.len() == 0 {
            return Some(root_moves[0]);
        }
        let m = choose_root_move(&last, widen, r);
        proof {
            let j = choose|j: int| 0 <= j < last@.len() && (#[trigger] last@[j]).0 == m;
            assert(legal_move(cells, side, last@[j].0));
        }
        Some(m)
    }
}


proof fn lemma_see_rec_bounds(cells: Seq<Option<Piece>>, t: int, side: Color)
    requires
        0 <= t < 90,
        cells.len() == 90,
    ensures
        0 <= see_rec_spec(cells, t, side) <= 10_000,
    decreases piece_count(cells, 90),
{
    match lva_spec(cells, t, side) {
        None => {},
        Some(m) => {
            assert(is_lva(cells, side, t, m));
            if piece_count(made(cells, m), 90) < piece_count(cells, 90) {
                lemma_see_rec_bounds(made(cells, m), t, side.other());
            }
        },
    }
}

impl SearchEngine {
    pub closed spec fn tuning_view(&self) -> Tuning {
        self.tuning
    }

    /// The ordering bands never collide: the TT move sorts first, then
    /// winning or equal captures, the first and second killer, the
    /// countermove, the other quiet moves by history (whose entries stay
    /// within ±HISTORY_MAX), and losing captures last.
    pub proof fn lemma_order_bands(
        &self,
        cells: Seq<Option<Piece>>,
        m: Move,
        tt_move: Option<Move>,
        ply: int,
        prev: Option<Move>,
    )
        requires
            self.wf(),
            cells.len() == 90,
            m.in_range(),
            prev matches Some(p) ==> p.in_range(),
        ensures
            Some(m) == tt_move ==> self.order_key(cells, m, tt_move, ply, prev) == -3_000_000,
            Some(m) != tt_move && cells[m.to as int] is Some && (!self.tuning_view().see_order
                || see_spec(cells, m) >= 0) ==> -2_160_000 <= self.order_key(
                cells,
                m,
                tt_move,
                ply,
                prev,
            ) <= -1_990_000,
            Some(m) != tt_move && cells[m.to as int] is Some && self.tuning_view().see_order
                && see_spec(cells, m) < 0 ==> 2_000_001 <= self.order_key(cells, m, tt_move, ply, prev)
                <= 2_010_000,
            Some(m) != tt_move && cells[m.to as int] is None && Some(m) == self.killer(ply, 0)
                ==> self.order_key(cells, m, tt_move, ply, prev) == -1_900_000,
            Some(m) != tt_move && cells[m.to as int] is None && Some(m) != self.killer(ply, 0)
                && Some(m) == self.killer(ply, 1) ==> self.order_key(cells, m, tt_move, ply, prev)
                == -1_800_000,
            Some(m) != tt_move && cells[m.to as int] is None && Some(m) != self.killer(ply, 0)
                && Some(m) != self.killer(ply, 1) && Some(m) == self.countermove_for(prev)
                ==> self.order_key(cells, m, tt_move, ply, prev) == -1_700_000,
            Some(m) != tt_move && cells[m.to as int] is None && Some(m) != self.killer(ply, 0)
                && Some(m) != self.killer(ply, 1) && Some(m) != self.countermove_for(prev)
                ==> -HISTORY_MAX <= self.order_key(cells, m, tt_move, ply, prev) <= HISTORY_MAX,
    {
        lemma_see_rec_bounds(made(cells, m), m.to as int, Color::Red);
        lemma_see_rec_bounds(made(cells, m), m.to as int, Color::Black);
        assert(0 <= m.from * 90 + m.to < 8100) by (nonlinear_arith)
            requires
                m.from < 90,
                m.to < 90,
        ;
    }
}

} // verus!
