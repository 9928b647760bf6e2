//! Move generation and rule enforcement (check, flying general, legality).
use vstd::prelude::*;

use crate::board::{
    cell_at, crossed_river, crossed_river_spec, file_of, file_spec, find_general_spec, forward,
    forward_spec, idx, in_palace, in_palace_spec, lemma_coords_sq, lemma_sq_coords, made,
    on_board, on_board_spec, own_half, find_general_from, is_general_at, lemma_unmake_make, own_half_spec, rank_of, rank_spec, sq, Board, Color, Move,
    Piece, PieceKind, CELLS,
};

verus! {

// ---------------------------------------------------------------------------
// The movement rules, stated on the cell contents of a board.
// ---------------------------------------------------------------------------
pub open spec fn abs_int(x: int) -> int {
    if x < 0 {
        -x
    } else {
        x
    }
}

/// `k` steps along a direction component `d` (one of -1, 0, 1).
pub open spec fn scale(k: int, d: int) -> int {
    if d > 0 {
        k
    } else if d < 0 {
        -k
    } else {
        0
    }
}

/// A horizontal or vertical unit step.
pub open spec fn unit_dir(df: int, dr: int) -> bool {
    (df == 0 && (dr == 1 || dr == -1)) || (dr == 0 && (df == 1 || df == -1))
}

/// `(f, r)` is on the board and free of `color`'s own pieces.
pub open spec fn target_ok_spec(cells: Seq<Option<Piece>>, color: Color, f: int, r: int) -> bool {
    on_board_spec(f, r) && match cell_at(cells, f, r) {
        None => true,
        Some(p) => p.color != color,
    }
}

pub open spec fn occupied(cells: Seq<Option<Piece>>, f: int, r: int) -> bool {
    cell_at(cells, f, r) is Some
}

/// Is the square `j` steps from `(f, r)` along `(df, dr)` occupied?
pub open spec fn ray_occupied(
    cells: Seq<Option<Piece>>,
    f: int,
    r: int,
    df: int,
    dr: int,
    j: int,
) -> bool {
    occupied(cells, f + scale(j, df), r + scale(j, dr))
}

/// Number of occupied squares strictly between `(f, r)` and the square `n`
/// steps away along `(df, dr)`.
pub open spec fn blockers(cells: Seq<Option<Piece>>, f: int, r: int, df: int, dr: int, n: int) -> nat
    decreases n,
{
    if n <= 1 {
        0
    } else {
        blockers(cells, f, r, df, dr, n - 1) + if ray_occupied(cells, f, r, df, dr, n - 1) {
            1nat
        } else {
            0nat
        }
    }
}

/// A chariot moving `d` steps along `(df, dr)`: nothing in between, and the
/// target is on the board and not held by its own side.
pub open spec fn chariot_dir_rule(
    cells: Seq<Option<Piece>>,
    color: Color,
    f: int,
    r: int,
    df: int,
    dr: int,
    d: int,
) -> bool {
    d >= 1 && blockers(cells, f, r, df, dr, d) == 0 && target_ok_spec(
        cells,
        color,
        f + scale(d, df),
        r + scale(d, dr),
    )
}

/// A cannon moving `d` steps along `(df, dr)`: to an empty square over
/// empty squares, or capturing an enemy piece over exactly one screen.
pub open spec fn cannon_dir_rule(
    cells: Seq<Option<Piece>>,
    color: Color,
    f: int,
    r: int,
    df: int,
    dr: int,
    d: int,
) -> bool {
    d >= 1 && on_board_spec(f + scale(d, df), r + scale(d, dr)) && match cell_at(
        cells,
        f + scale(d, df),
        r + scale(d, dr),
    ) {
        None => blockers(cells, f, r, df, dr, d) == 0,
        Some(p) => p.color != color && blockers(cells, f, r, df, dr, d) == 1,
    }
}

/// The straight-line rule of a chariot (`cannon == false`) or a cannon.
pub open spec fn line_dir_rule(
    cannon: bool,
    cells: Seq<Option<Piece>>,
    color: Color,
    f: int,
    r: int,
    df: int,
    dr: int,
    d: int,
) -> bool {
    if cannon {
        cannon_dir_rule(cells, color, f, r, df, dr, d)
    } else {
        chariot_dir_rule(cells, color, f, r, df, dr, d)
    }
}

/// A straight move from `(f, r)` to `(tf, tr)` along a rank or a file.
pub open spec fn line_rule(
    cannon: bool,
    cells: Seq<Option<Piece>>,
    color: Color,
    f: int,
    r: int,
    tf: int,
    tr: int,
) -> bool {
    ||| (tr == r && tf > f && line_dir_rule(cannon, cells, color, f, r, 1, 0, tf - f))
    ||| (tr == r && tf < f && line_dir_rule(cannon, cells, color, f, r, -1, 0, f - tf))
    ||| (tf == f && tr > r && line_dir_rule(cannon, cells, color, f, r, 0, 1, tr - r))
    ||| (tf == f && tr < r && line_dir_rule(cannon, cells, color, f, r, 0, -1, r - tr))
}

/// Where a piece of `kind` and `color` standing on `(f, r)` may go (ignoring
/// whether its own general is left in check).
#[verifier::opaque]
pub open spec fn kind_rule(
    cells: Seq<Option<Piece>>,
    color: Color,
    kind: PieceKind,
    f: int,
    r: int,
    tf: int,
    tr: int,
) -> bool {
    match kind {
        PieceKind::General => abs_int(tf - f) + abs_int(tr - r) == 1 && in_palace_spec(color, tf, tr)
            && target_ok_spec(cells, color, tf, tr),
        PieceKind::Advisor => abs_int(tf - f) == 1 && abs_int(tr - r) == 1 && in_palace_spec(
            color,
            tf,
            tr,
        ) && target_ok_spec(cells, color, tf, tr),
        PieceKind::Elephant => abs_int(tf - f) == 2 && abs_int(tr - r) == 2 && own_half_spec(
            color,
            tr,
        ) && !occupied(cells, (f + tf) / 2, (r + tr) / 2) && target_ok_spec(cells, color, tf, tr),
        PieceKind::Horse => target_ok_spec(cells, color, tf, tr) && ((abs_int(tf - f) == 2
            && abs_int(tr - r) == 1 && !occupied(cells, (f + tf) / 2, r)) || (abs_int(tf - f) == 1
            && abs_int(tr - r) == 2 && !occupied(cells, f, (r + tr) / 2))),
        PieceKind::Chariot => line_rule(false, cells, color, f, r, tf, tr),
        PieceKind::Cannon => line_rule(true, cells, color, f, r, tf, tr),
        PieceKind::Soldier => target_ok_spec(cells, color, tf, tr) && ((tf == f && tr == r
            + forward_spec(color)) || (crossed_river_spec(color, r) && tr == r && abs_int(tf - f)
            == 1)),
    }
}

/// A pseudo-legal move of `color` from square `s` to square `t`.
pub open spec fn pseudo_rule(cells: Seq<Option<Piece>>, color: Color, s: int, t: int) -> bool {
    0 <= s < 90 && 0 <= t < 90 && match cells[s] {
        Some(p) => p.color == color && kind_rule(
            cells,
            color,
            p.kind,
            file_spec(s),
            rank_spec(s),
            file_spec(t),
            rank_spec(t),
        ),
        None => false,
    }
}

pub open spec fn pseudo_move(cells: Seq<Option<Piece>>, color: Color, m: Move) -> bool {
    pseudo_rule(cells, color, m.from as int, m.to as int)
}

/// A pseudo-legal move goes somewhere: its destination is not its origin.
pub proof fn lemma_pseudo_move_distinct(cells: Seq<Option<Piece>>, color: Color, m: Move)
    requires
        pseudo_move(cells, color, m),
    ensures
        m.from != m.to,
{
    reveal(kind_rule);
    let s = m.from as int;
    lemma_coords_sq(s);
}

/// Is square `t` attacked by a piece of `by`?
pub open spec fn attacked(cells: Seq<Option<Piece>>, t: int, by: Color) -> bool {
    exists|s: int| #[trigger] pseudo_rule(cells, by, s, t)
}

/// Is `color`'s general in check (a missing general counts as in check)?
pub open spec fn in_check_spec(cells: Seq<Option<Piece>>, color: Color) -> bool {
    match find_general_spec(cells, color) {
        Some(g) => attacked(cells, g as int, color.other()),
        None => true,
    }
}

/// The two generals face each other on a file with nothing in between.
pub open spec fn generals_face_spec(cells: Seq<Option<Piece>>) -> bool {
    match (find_general_spec(cells, Color::Red), find_general_spec(cells, Color::Black)) {
        (Some(rg), Some(bg)) => {
            let f = file_spec(rg as int);
            let lo = if rank_spec(rg as int) < rank_spec(bg as int) {
                rank_spec(rg as int)
            } else {
                rank_spec(bg as int)
            };
            let hi = if rank_spec(rg as int) < rank_spec(bg as int) {
                rank_spec(bg as int)
            } else {
                rank_spec(rg as int)
            };
            file_spec(rg as int) == file_spec(bg as int) && forall|x: int|
                lo < x < hi ==> #[trigger] cell_at(cells, f, x) is None
        },
        _ => false,
    }
}

/// A fully legal move: pseudo-legal, and afterwards the mover's general is
/// not in check and the generals do not face each other.
pub open spec fn legal_move(cells: Seq<Option<Piece>>, color: Color, m: Move) -> bool {
    pseudo_move(cells, color, m) && !in_check_spec(made(cells, m), color) && !generals_face_spec(
        made(cells, m),
    )
}

/// Among the moves after position `o` of `n`, two that both land on the
/// central file come by decreasing destination square.
pub open spec fn central_desc(o: int, n: Seq<Move>) -> bool {
    forall|k1: int, k2: int|
        o <= k1 < k2 < n.len() && file_spec((#[trigger] n[k1]).to as int) == 4 && file_spec(
            (#[trigger] n[k2]).to as int,
        ) == 4 ==> n[k1].to > n[k2].to
}

/// Two moves of one elephant onto the central file are listed by decreasing
/// destination square: the one toward higher ranks first, as the elephant's
/// steps are generated.
pub open spec fn elephant_order(cells: Seq<Option<Piece>>, l: Seq<Move>) -> bool {
    forall|k1: int, k2: int|
        0 <= k1 < k2 < l.len() && (#[trigger] l[k1]).from == (#[trigger] l[k2]).from
            && elephant_at(cells, l[k1].from as int) && file_spec(l[k1].to as int) == 4
            && file_spec(l[k2].to as int) == 4 ==> l[k1].to > l[k2].to
}

/// An elephant stands on square `s`.
pub open spec fn elephant_at(cells: Seq<Option<Piece>>, s: int) -> bool {
    match cells[s] {
        Some(p) => p.kind == PieceKind::Elephant,
        None => false,
    }
}

// ---------------------------------------------------------------------------
// The order in which moves are generated.
// ---------------------------------------------------------------------------
/// The move from `s` to `(tf, tr)` if `c` holds and the target is on the
/// board and free of own pieces; else nothing.
#[verifier::opaque]
pub open spec fn step_list(cells: Seq<Option<Piece>>, color: Color, s: int, c: bool, tf: int, tr: int) -> Seq<Move> {
    if c && target_ok_spec(cells, color, tf, tr) {
        seq![Move { from: s as usize, to: sq(tf, tr) as usize }]
    } else {
        Seq::empty()
    }
}

/// An append of one step leaves the list as it was or pushes that move, whose
/// target is on the board.
pub proof fn lemma_step_push(
    o: Seq<Move>,
    n: Seq<Move>,
    cells: Seq<Option<Piece>>,
    color: Color,
    s: int,
    c: bool,
    tf: int,
    tr: int,
)
    requires
        n == o + step_list(cells, color, s, c, tf, tr),
    ensures
        n == o || (on_board_spec(tf, tr) && n == o.push(Move { from: s as usize, to: sq(tf, tr) as usize })),
{
    reveal(step_list);
    if c && target_ok_spec(cells, color, tf, tr) {
        assert(n =~= o.push(Move { from: s as usize, to: sq(tf, tr) as usize }));
    } else {
        assert(n =~= o);
    }
}

/// Four appends in a row append their concatenation.
pub proof fn lemma_append4(
    o0: Seq<Move>,
    s1: Seq<Move>,
    s2: Seq<Move>,
    s3: Seq<Move>,
    s4: Seq<Move>,
    a: Seq<Move>,
    b: Seq<Move>,
    c: Seq<Move>,
    d: Seq<Move>,
)
    requires
        s1 == o0 + a,
        s2 == s1 + b,
        s3 == s2 + c,
        s4 == s3 + d,
    ensures
        s4 == o0 + (a + b + c + d),
{
    assert(s4 =~= o0 + (a + b + c + d));
}

proof fn lemma_elephant_list(
    cells: Seq<Option<Piece>>,
    color: Color,
    s: int,
    f: int,
    r: int,
    c1: bool,
    c2: bool,
    c3: bool,
    c4: bool,
    o0: Seq<Move>,
    s1: Seq<Move>,
    s2: Seq<Move>,
    s3: Seq<Move>,
    s4: Seq<Move>,
)
    requires
        c1 == elephant_ok(cells, color, f + 2, r + 2, f + 1, r + 1),
        c2 == elephant_ok(cells, color, f + 2, r - 2, f + 1, r - 1),
        c3 == elephant_ok(cells, color, f - 2, r + 2, f - 1, r + 1),
        c4 == elephant_ok(cells, color, f - 2, r - 2, f - 1, r - 1),
        s1 == o0 + step_list(cells, color, s, c1, f + 2, r + 2),
        s2 == s1 + step_list(cells, color, s, c2, f + 2, r - 2),
        s3 == s2 + step_list(cells, color, s, c3, f - 2, r + 2),
        s4 == s3 + step_list(cells, color, s, c4, f - 2, r - 2),
    ensures
        s4 == o0 + elephant_list(cells, color, s, f, r),
{
    assert(s4 =~= o0 + elephant_list(cells, color, s, f, r));
}

proof fn lemma_horse_list(
    cells: Seq<Option<Piece>>,
    color: Color,
    s: int,
    f: int,
    r: int,
    o0: Seq<Move>,
    s4: Seq<Move>,
    s8: Seq<Move>,
)
    requires
        s4 == o0 + (step_list(cells, color, s, free_at(cells, f + 1, r), f + 2, r + 1) + step_list(
            cells,
            color,
            s,
            free_at(cells, f + 1, r),
            f + 2,
            r - 1,
        ) + step_list(cells, color, s, free_at(cells, f - 1, r), f - 2, r + 1) + step_list(
            cells,
            color,
            s,
            free_at(cells, f - 1, r),
            f - 2,
            r - 1,
        )),
        s8 == s4 + (step_list(cells, color, s, free_at(cells, f, r + 1), f + 1, r + 2) + step_list(
            cells,
            color,
            s,
            free_at(cells, f, r + 1),
            f - 1,
            r + 2,
        ) + step_list(cells, color, s, free_at(cells, f, r - 1), f + 1, r - 2) + step_list(
            cells,
            color,
            s,
            free_at(cells, f, r - 1),
            f - 1,
            r - 2,
        )),
    ensures
        s8 == o0 + horse_list(cells, color, s, f, r),
{
    let a = step_list(cells, color, s, free_at(cells, f + 1, r), f + 2, r + 1) + step_list(
        cells,
        color,
        s,
        free_at(cells, f + 1, r),
        f + 2,
        r - 1,
    ) + step_list(cells, color, s, free_at(cells, f - 1, r), f - 2, r + 1) + step_list(
        cells,
        color,
        s,
        free_at(cells, f - 1, r),
        f - 2,
        r - 1,
    );
    let b5 = step_list(cells, color, s, free_at(cells, f, r + 1), f + 1, r + 2);
    let b6 = step_list(cells, color, s, free_at(cells, f, r + 1), f - 1, r + 2);
    let b7 = step_list(cells, color, s, free_at(cells, f, r - 1), f + 1, r - 2);
    let b8 = step_list(cells, color, s, free_at(cells, f, r - 1), f - 1, r - 2);
    assert(horse_list(cells, color, s, f, r) == a + b5 + b6 + b7 + b8);
    assert(a + b5 + b6 + b7 + b8 =~= a + (b5 + b6 + b7 + b8));
    assert(s8 =~= o0 + (a + (b5 + b6 + b7 + b8)));
}

#[verifier::spinoff_prover]
proof fn lemma_horse_order(
    cells: Seq<Option<Piece>>,
    color: Color,
    sq0: int,
    fi: int,
    ri: int,
    c1: bool,
    c3: bool,
    c5: bool,
    c7: bool,
    o0: Seq<Move>,
    s1: Seq<Move>,
    s2: Seq<Move>,
    s3: Seq<Move>,
    s4: Seq<Move>,
    s5: Seq<Move>,
    s6: Seq<Move>,
    s7: Seq<Move>,
    s8: Seq<Move>,
)
    requires
        c1 == free_at(cells, fi + 1, ri),
        c3 == free_at(cells, fi - 1, ri),
        c5 == free_at(cells, fi, ri + 1),
        c7 == free_at(cells, fi, ri - 1),
        s1 == o0 + step_list(cells, color, sq0, c1, fi + 2, ri + 1),
        s2 == s1 + step_list(cells, color, sq0, c1, fi + 2, ri - 1),
        s3 == s2 + step_list(cells, color, sq0, c3, fi - 2, ri + 1),
        s4 == s3 + step_list(cells, color, sq0, c3, fi - 2, ri - 1),
        s5 == s4 + step_list(cells, color, sq0, c5, fi + 1, ri + 2),
        s6 == s5 + step_list(cells, color, sq0, c5, fi - 1, ri + 2),
        s7 == s6 + step_list(cells, color, sq0, c7, fi + 1, ri - 2),
        s8 == s7 + step_list(cells, color, sq0, c7, fi - 1, ri - 2),
    ensures
        s8 == o0 + horse_list(cells, color, sq0, fi, ri),
{
    lemma_append4(
        o0,
        s1,
        s2,
        s3,
        s4,
        step_list(cells, color, sq0, c1, fi + 2, ri + 1),
        step_list(cells, color, sq0, c1, fi + 2, ri - 1),
        step_list(cells, color, sq0, c3, fi - 2, ri + 1),
        step_list(cells, color, sq0, c3, fi - 2, ri - 1),
    );
    lemma_append4(
        s4,
        s5,
        s6,
        s7,
        s8,
        step_list(cells, color, sq0, c5, fi + 1, ri + 2),
        step_list(cells, color, sq0, c5, fi - 1, ri + 2),
        step_list(cells, color, sq0, c7, fi + 1, ri - 2),
        step_list(cells, color, sq0, c7, fi - 1, ri - 2),
    );
    lemma_horse_list(cells, color, sq0, fi, ri, o0, s4, s8);
}

/// The first distance from `d` along the ray from `(f, r)` in direction
/// `(df, dr)` that is off the board or occupied.
pub open spec fn ray_stop(cells: Seq<Option<Piece>>, f: int, r: int, df: int, dr: int, d: int) -> int
    decreases 11 - d,
{
    if d >= 11 || !on_board_spec(f + scale(d, df), r + scale(d, dr)) || ray_occupied(cells, f, r, df, dr, d) {
        d
    } else {
        ray_stop(cells, f, r, df, dr, d + 1)
    }
}

/// The moves from `s` to the squares at distances `d0 .. d1` along the ray,
/// nearest first.
pub open spec fn run_moves(s: int, f: int, r: int, df: int, dr: int, d0: int, d1: int) -> Seq<Move> {
    Seq::new(
        (d1 - d0) as nat,
        |j: int| Move { from: s as usize, to: sq(f + scale(d0 + j, df), r + scale(d0 + j, dr)) as usize },
    )
}

/// A chariot's moves along one ray: the empty squares, nearest first, then
/// the first piece if it is an enemy.
pub open spec fn chariot_ray(cells: Seq<Option<Piece>>, color: Color, s: int, f: int, r: int, df: int, dr: int) -> Seq<Move> {
    let k = ray_stop(cells, f, r, df, dr, 1);
    run_moves(s, f, r, df, dr, 1, k) + step_list(
        cells,
        color,
        s,
        on_board_spec(f + scale(k, df), r + scale(k, dr)),
        f + scale(k, df),
        r + scale(k, dr),
    )
}

/// A cannon's moves along one ray: the empty squares up to the screen,
/// nearest first, then the first piece beyond the screen if it is an enemy.
pub open spec fn cannon_ray_list(cells: Seq<Option<Piece>>, color: Color, s: int, f: int, r: int, df: int, dr: int) -> Seq<Move> {
    let k = ray_stop(cells, f, r, df, dr, 1);
    let k2 = ray_stop(cells, f, r, df, dr, k + 1);
    run_moves(s, f, r, df, dr, 1, k) + step_list(
        cells,
        color,
        s,
        on_board_spec(f + scale(k2, df), r + scale(k2, dr)),
        f + scale(k2, df),
        r + scale(k2, dr),
    )
}

/// The chariot's moves: right, left, up, down.
pub open spec fn chariot_list(cells: Seq<Option<Piece>>, color: Color, s: int, f: int, r: int) -> Seq<Move> {
    chariot_ray(cells, color, s, f, r, 1, 0) + chariot_ray(cells, color, s, f, r, -1, 0) + chariot_ray(
        cells,
        color,
        s,
        f,
        r,
        0,
        1,
    ) + chariot_ray(cells, color, s, f, r, 0, -1)
}

/// The cannon's moves: right, left, up, down.
pub open spec fn cannon_list(cells: Seq<Option<Piece>>, color: Color, s: int, f: int, r: int) -> Seq<Move> {
    cannon_ray_list(cells, color, s, f, r, 1, 0) + cannon_ray_list(cells, color, s, f, r, -1, 0)
        + cannon_ray_list(cells, color, s, f, r, 0, 1) + cannon_ray_list(cells, color, s, f, r, 0, -1)
}

/// The square at distance `j` along the ray is on the board and empty.
pub open spec fn ray_clear(cells: Seq<Option<Piece>>, f: int, r: int, df: int, dr: int, j: int) -> bool {
    on_board_spec(f + scale(j, df), r + scale(j, dr)) && !ray_occupied(cells, f, r, df, dr, j)
}

/// A stretch of on-board empty squares from `d` to `k`, ended at `k` by the
/// board's edge or a piece, makes `k` the ray's stop from `d`.
proof fn lemma_ray_stop(cells: Seq<Option<Piece>>, f: int, r: int, df: int, dr: int, d: int, k: int)
    requires
        1 <= d <= k <= 11,
        forall|j: int| d <= j < k ==> #[trigger] ray_clear(cells, f, r, df, dr, j),
        k < 11 ==> !ray_clear(cells, f, r, df, dr, k),
    ensures
        ray_stop(cells, f, r, df, dr, d) == k,
    decreases k - d,
{
    if d < k {
        assert(ray_clear(cells, f, r, df, dr, d));
        lemma_ray_stop(cells, f, r, df, dr, d + 1, k);
    }
}

/// Two appends in a row append their concatenation.
proof fn lemma_join(o: Seq<Move>, o1: Seq<Move>, n: Seq<Move>, a: Seq<Move>, b: Seq<Move>)
    requires
        o1 == o + a,
        n == o1 + b,
    ensures
        n == o + (a + b),
{
    assert(n =~= o + (a + b));
}

/// The general's steps, in order: right, left, up, down, within the palace.
pub open spec fn general_list(cells: Seq<Option<Piece>>, color: Color, s: int, f: int, r: int) -> Seq<Move> {
    step_list(cells, color, s, in_palace_spec(color, f + 1, r), f + 1, r)
        + step_list(cells, color, s, in_palace_spec(color, f - 1, r), f - 1, r)
        + step_list(cells, color, s, in_palace_spec(color, f, r + 1), f, r + 1)
        + step_list(cells, color, s, in_palace_spec(color, f, r - 1), f, r - 1)
}

/// The advisor's diagonal steps, in order, within the palace.
pub open spec fn advisor_list(cells: Seq<Option<Piece>>, color: Color, s: int, f: int, r: int) -> Seq<Move> {
    step_list(cells, color, s, in_palace_spec(color, f + 1, r + 1), f + 1, r + 1)
        + step_list(cells, color, s, in_palace_spec(color, f + 1, r - 1), f + 1, r - 1)
        + step_list(cells, color, s, in_palace_spec(color, f - 1, r + 1), f - 1, r + 1)
        + step_list(cells, color, s, in_palace_spec(color, f - 1, r - 1), f - 1, r - 1)
}

/// The elephant may step to `(tf, tr)` past the midpoint `(mf, mr)`: on its
/// own half, with the midpoint ("eye") empty.
pub open spec fn elephant_ok(cells: Seq<Option<Piece>>, color: Color, tf: int, tr: int, mf: int, mr: int) -> bool {
    on_board_spec(tf, tr) && own_half_spec(color, tr) && !occupied(cells, mf, mr)
}

/// The elephant's steps, in order.
pub open spec fn elephant_list(cells: Seq<Option<Piece>>, color: Color, s: int, f: int, r: int) -> Seq<Move> {
    step_list(cells, color, s, elephant_ok(cells, color, f + 2, r + 2, f + 1, r + 1), f + 2, r + 2)
        + step_list(cells, color, s, elephant_ok(cells, color, f + 2, r - 2, f + 1, r - 1), f + 2, r - 2)
        + step_list(cells, color, s, elephant_ok(cells, color, f - 2, r + 2, f - 1, r + 1), f - 2, r + 2)
        + step_list(cells, color, s, elephant_ok(cells, color, f - 2, r - 2, f - 1, r - 1), f - 2, r - 2)
}

/// The square `(f, r)` is on the board and empty (a horse's leg is free).
pub open spec fn free_at(cells: Seq<Option<Piece>>, f: int, r: int) -> bool {
    on_board_spec(f, r) && !occupied(cells, f, r)
}

/// The horse's steps, in order, each past a free leg.
pub open spec fn horse_list(cells: Seq<Option<Piece>>, color: Color, s: int, f: int, r: int) -> Seq<Move> {
    step_list(cells, color, s, free_at(cells, f + 1, r), f + 2, r + 1)
        + step_list(cells, color, s, free_at(cells, f + 1, r), f + 2, r - 1)
        + step_list(cells, color, s, free_at(cells, f - 1, r), f - 2, r + 1)
        + step_list(cells, color, s, free_at(cells, f - 1, r), f - 2, r - 1)
        + step_list(cells, color, s, free_at(cells, f, r + 1), f + 1, r + 2)
        + step_list(cells, color, s, free_at(cells, f, r + 1), f - 1, r + 2)
        + step_list(cells, color, s, free_at(cells, f, r - 1), f + 1, r - 2)
        + step_list(cells, color, s, free_at(cells, f, r - 1), f - 1, r - 2)
}

/// The soldier's steps, in order: forward, then sideways once across the
/// river.
pub open spec fn soldier_list(cells: Seq<Option<Piece>>, color: Color, s: int, f: int, r: int) -> Seq<Move> {
    step_list(cells, color, s, true, f, r + forward_spec(color))
        + step_list(cells, color, s, crossed_river_spec(color, r), f + 1, r)
        + step_list(cells, color, s, crossed_river_spec(color, r), f - 1, r)
}

// ---------------------------------------------------------------------------
// What a generator appends to its output.
// ---------------------------------------------------------------------------
/// The moves appended after `old` are exactly the moves of the piece of
/// `kind` on square `s == (f, r)`, each once.
pub open spec fn gen_post(
    old: Seq<Move>,
    new: Seq<Move>,
    cells: Seq<Option<Piece>>,
    color: Color,
    kind: PieceKind,
    s: int,
    f: int,
    r: int,
) -> bool {
    &&& new.len() >= old.len()
    &&& new.subrange(0, old.len() as int) == old
    &&& forall|k: int|
        old.len() <= k < new.len() ==> {
            &&& (#[trigger] new[k]).from == s
            &&& new[k].to < 90
            &&& kind_rule(
                cells,
                color,
                kind,
                f,
                r,
                file_spec(new[k].to as int),
                rank_spec(new[k].to as int),
            )
        }
    &&& forall|tf: int, tr: int|
        on_board_spec(tf, tr) && #[trigger] kind_rule(cells, color, kind, f, r, tf, tr) ==> exists|
            k: int,
        |
            old.len() <= k < new.len() && #[trigger] new[k] == Move {
                from: s as usize,
                to: sq(tf, tr) as usize,
            }
    &&& forall|k1: int, k2: int|
        old.len() <= k1 < new.len() && old.len() <= k2 < new.len() && k1 != k2 ==> #[trigger] new[k1]
            != #[trigger] new[k2]
}

// ---------------------------------------------------------------------------
// Generators.
// ---------------------------------------------------------------------------
#[inline]
fn target_ok(board: &Board, color: Color, f: i32, r: i32) -> (res: Option<bool>)
    ensures
        res is Some <==> target_ok_spec(board.cells@, color, f as int, r as int),
        res == Some(true) <==> (on_board_spec(f as int, r as int) && cell_at(
            board.cells@,
            f as int,
            r as int,
        ) is None),
{
    // Some(true) => empty (quiet), Some(false) => enemy (capture), None => blocked/own
    if !on_board(f, r) {
        return None;
    }
    match board.cells[idx(f, r)] {
        None => Some(true),
        Some(p) => if p.color != color {
            Some(false)
        } else {
            None
        },
    }
}

fn push_if(board: &Board, color: Color, from: usize, f: i32, r: i32, out: &mut Vec<Move>)
    ensures
        target_ok_spec(board.cells@, color, f as int, r as int) ==> final(out)@ == old(out)@.push(
            Move { from, to: sq(f as int, r as int) as usize },
        ),
        !target_ok_spec(board.cells@, color, f as int, r as int) ==> final(out)@ == old(out)@,
{
    if target_ok(board, color, f, r).is_some() {
        out.push(Move { from, to: idx(f, r) });
    }
}

/// The moves appended after `old` start on `s`, go exactly to the squares
/// satisfying `p`, and go to each such square once.
pub open spec fn seg(old: Seq<Move>, new: Seq<Move>, s: int, p: spec_fn(int) -> bool) -> bool {
    &&& new.len() >= old.len()
    &&& new.subrange(0, old.len() as int) == old
    &&& forall|k: int|
        old.len() <= k < new.len() ==> (#[trigger] new[k]).from == s && p(new[k].to as int)
    &&& forall|t: int|
        #[trigger] p(t) ==> exists|k: int|
            old.len() <= k < new.len() && #[trigger] new[k] == Move {
                from: s as usize,
                to: t as usize,
            }
    &&& forall|k1: int, k2: int|
        old.len() <= k1 < new.len() && old.len() <= k2 < new.len() && k1 != k2 ==> #[trigger] new[k1]
            != #[trigger] new[k2]
}

proof fn lemma_seg_empty(old: Seq<Move>, s: int)
    ensures
        seg(old, old, s, |t: int| false),
{
    assert(old.subrange(0, old.len() as int) =~= old);
}

proof fn lemma_seg_push(old: Seq<Move>, new: Seq<Move>, s: int, p: spec_fn(int) -> bool, t: int)
    requires
        seg(old, new, s, p),
        !p(t),
        0 <= s < 90,
        0 <= t < 90,
        forall|x: int| #[trigger] p(x) ==> 0 <= x < 90,
    ensures
        seg(old, new.push(Move { from: s as usize, to: t as usize }), s, |x: int| p(x) || x == t),
{
    let n2 = new.push(Move { from: s as usize, to: t as usize });
    let q = |x: int| p(x) || x == t;
    assert(n2.subrange(0, old.len() as int) =~= new.subrange(0, old.len() as int));
    assert forall|x: int| #[trigger] q(x) implies exists|k: int|
        old.len() <= k < n2.len() && #[trigger] n2[k] == Move { from: s as usize, to: x as usize } by {
        if x == t {
            assert(n2[new.len() as int] == Move { from: s as usize, to: x as usize });
        } else {
            let k = choose|k: int|
                old.len() <= k < new.len() && #[trigger] new[k] == Move {
                    from: s as usize,
                    to: x as usize,
                };
            assert(n2[k] == new[k]);
        }
    }
    assert forall|k: int| old.len() <= k < n2.len() implies (#[trigger] n2[k]).from == s && q(
        n2[k].to as int,
    ) by {
        if k < new.len() {
            assert(n2[k] == new[k]);
        }
    }
    assert forall|k1: int, k2: int|
        old.len() <= k1 < n2.len() && old.len() <= k2 < n2.len() && k1 != k2 implies #[trigger] n2[k1]
        != #[trigger] n2[k2] by {
        if k1 < new.len() {
            assert(n2[k1] == new[k1]);
            assert(p(new[k1].to as int));
        }
        if k2 < new.len() {
            assert(n2[k2] == new[k2]);
            assert(p(new[k2].to as int));
        }
    }
}

/// A segment of moves that hits exactly the targets of a kind's rule meets
/// the generator postcondition.
proof fn lemma_seg_gen_post(
    old: Seq<Move>,
    new: Seq<Move>,
    cells: Seq<Option<Piece>>,
    color: Color,
    kind: PieceKind,
    s: int,
    f: int,
    r: int,
    p: spec_fn(int) -> bool,
)
    requires
        seg(old, new, s, p),
        forall|t: int|
            #[trigger] p(t) ==> 0 <= t < 90 && kind_rule(
                cells,
                color,
                kind,
                f,
                r,
                file_spec(t),
                rank_spec(t),
            ),
        forall|tf: int, tr: int|
            on_board_spec(tf, tr) && #[trigger] kind_rule(cells, color, kind, f, r, tf, tr) ==> p(
                sq(tf, tr),
            ),
    ensures
        gen_post(old, new, cells, color, kind, s, f, r),
{
    assert forall|k: int| old.len() <= k < new.len() implies {
        &&& (#[trigger] new[k]).from == s
        &&& new[k].to < 90
        &&& kind_rule(cells, color, kind, f, r, file_spec(new[k].to as int), rank_spec(new[k].to as int))
    } by {
        assert(p(new[k].to as int));
    }
    assert forall|tf: int, tr: int|
        on_board_spec(tf, tr) && #[trigger] kind_rule(cells, color, kind, f, r, tf, tr) implies exists|
            k: int,
        | old.len() <= k < new.len() && #[trigger] new[k] == Move {
            from: s as usize,
            to: sq(tf, tr) as usize,
        } by {
        assert(p(sq(tf, tr)));
    }
}

/// Push the step target `(tf, tr)` when `cond` holds and the target is free
/// of own pieces, extending the segment predicate accordingly.
fn push_step(
    board: &Board,
    color: Color,
    from: usize,
    cond: bool,
    tf: i32,
    tr: i32,
    out: &mut Vec<Move>,
    Ghost(old0): Ghost<Seq<Move>>,
    Ghost(p): Ghost<spec_fn(int) -> bool>,
) -> (q: Ghost<spec_fn(int) -> bool>)
    requires
        from < 90,
        seg(old0, old(out)@, from as int, p),
        forall|x: int| #[trigger] p(x) ==> 0 <= x < 90,
        cond && target_ok_spec(board.cells@, color, tf as int, tr as int) ==> !p(
            sq(tf as int, tr as int),
        ),
    ensures
        seg(old0, final(out)@, from as int, q@),
        forall|x: int|
            #[trigger] q@(x) == (p(x) || (cond && target_ok_spec(
                board.cells@,
                color,
                tf as int,
                tr as int,
            ) && x == sq(tf as int, tr as int))),
        final(out)@ == old(out)@ + step_list(board.cells@, color, from as int, cond, tf as int, tr as int),
{
    let ghost before = out@;
    if cond {
        push_if(board, color, from, tf, tr, out);
    }
    let ghost q = |x: int|
        p(x) || (cond && target_ok_spec(board.cells@, color, tf as int, tr as int) && x == sq(
            tf as int,
            tr as int,
        ));
    proof {
        if cond && target_ok_spec(board.cells@, color, tf as int, tr as int) {
            lemma_sq_coords(tf as int, tr as int);
            lemma_seg_push(old0, before, from as int, p, sq(tf as int, tr as int));
            assert(q =~= (|x: int| p(x) || x == sq(tf as int, tr as int)));
        } else {
            assert(q =~= p);
        }
        reveal(step_list);
        assert(out@ =~= before + step_list(board.cells@, color, from as int, cond, tf as int, tr as int));
    }
    Ghost(q)
}

fn gen_general(board: &Board, color: Color, f: i32, r: i32, from: usize, out: &mut Vec<Move>)
    requires
        on_board_spec(f as int, r as int),
        from == sq(f as int, r as int),
    ensures
        gen_post(
            old(out)@,
            final(out)@,
            board.cells@,
            color,
            PieceKind::General,
            from as int,
            f as int,
            r as int,
        ),
        final(out)@ == old(out)@ + general_list(board.cells@, color, from as int, f as int, r as int),
{
    let ghost cells = board.cells@;
    let ghost o0 = out@;
    proof {
        lemma_sq_coords(f as int, r as int);
        lemma_seg_empty(o0, from as int);
    }
    let ghost p0 = |t: int| false;
    let c1 = in_palace(color, f + 1, r);
    let p1 = push_step(board, color, from, c1, f + 1, r, out, Ghost(o0), Ghost(p0));
    let ghost s1 = out@;
    let c2 = in_palace(color, f - 1, r);
    let p2 = push_step(board, color, from, c2, f - 1, r, out, Ghost(o0), p1);
    let ghost s2 = out@;
    let c3 = in_palace(color, f, r + 1);
    let p3 = push_step(board, color, from, c3, f, r + 1, out, Ghost(o0), p2);
    let ghost s3 = out@;
    let c4 = in_palace(color, f, r - 1);
    let p4 = push_step(board, color, from, c4, f, r - 1, out, Ghost(o0), p3);
    let ghost s4 = out@;
    proof {
        lemma_append4(o0, s1, s2, s3, s4, step_list(cells, color, from as int, c1, (f as int) + 1, (r as int)), step_list(cells, color, from as int, c2, (f as int) - 1, (r as int)), step_list(cells, color, from as int, c3, (f as int), (r as int) + 1), step_list(cells, color, from as int, c4, (f as int), (r as int) - 1));
        assert(s4 == o0 + general_list(cells, color, from as int, f as int, r as int));
    }
    proof {
        reveal(kind_rule);
        let fi = f as int;
        let ri = r as int;
        assert forall|t: int| #[trigger] p4@(t) implies 0 <= t < 90 && kind_rule(
            cells,
            color,
            PieceKind::General,
            fi,
            ri,
            file_spec(t),
            rank_spec(t),
        ) by {
            if t == sq(fi + 1, ri) && c1 && target_ok_spec(cells, color, fi + 1, ri) {
                lemma_sq_coords(fi + 1, ri);
            } else if t == sq(fi - 1, ri) && c2 && target_ok_spec(cells, color, fi - 1, ri) {
                lemma_sq_coords(fi - 1, ri);
            } else if t == sq(fi, ri + 1) && c3 && target_ok_spec(cells, color, fi, ri + 1) {
                lemma_sq_coords(fi, ri + 1);
            } else {
                lemma_sq_coords(fi, ri - 1);
            }
        }
        lemma_seg_gen_post(o0, out@, cells, color, PieceKind::General, from as int, fi, ri, p4@);
    }
}

fn gen_advisor(board: &Board, color: Color, f: i32, r: i32, from: usize, out: &mut Vec<Move>)
    requires
        on_board_spec(f as int, r as int),
        from == sq(f as int, r as int),
    ensures
        gen_post(
            old(out)@,
            final(out)@,
            board.cells@,
            color,
            PieceKind::Advisor,
            from as int,
            f as int,
            r as int,
        ),
        final(out)@ == old(out)@ + advisor_list(board.cells@, color, from as int, f as int, r as int),
{
    let ghost cells = board.cells@;
    let ghost o0 = out@;
    proof {
        lemma_sq_coords(f as int, r as int);
        lemma_seg_empty(o0, from as int);
    }
    let ghost p0 = |t: int| false;
    let c1 = in_palace(color, f + 1, r + 1);
    let p1 = push_step(board, color, from, c1, f + 1, r + 1, out, Ghost(o0), Ghost(p0));
    let ghost s1 = out@;
    let c2 = in_palace(color, f + 1, r - 1);
    let p2 = push_step(board, color, from, c2, f + 1, r - 1, out, Ghost(o0), p1);
    let ghost s2 = out@;
    let c3 = in_palace(color, f - 1, r + 1);
    let p3 = push_step(board, color, from, c3, f - 1, r + 1, out, Ghost(o0), p2);
    let ghost s3 = out@;
    let c4 = in_palace(color, f - 1, r - 1);
    let p4 = push_step(board, color, from, c4, f - 1, r - 1, out, Ghost(o0), p3);
    let ghost s4 = out@;
    proof {
        lemma_append4(o0, s1, s2, s3, s4, step_list(cells, color, from as int, c1, (f as int) + 1, (r as int) + 1), step_list(cells, color, from as int, c2, (f as int) + 1, (r as int) - 1), step_list(cells, color, from as int, c3, (f as int) - 1, (r as int) + 1), step_list(cells, color, from as int, c4, (f as int) - 1, (r as int) - 1));
        assert(s4 == o0 + advisor_list(cells, color, from as int, f as int, r as int));
    }
    proof {
        reveal(kind_rule);
        let fi = f as int;
        let ri = r as int;
        assert forall|t: int| #[trigger] p4@(t) implies 0 <= t < 90 && kind_rule(
            cells,
            color,
            PieceKind::Advisor,
            fi,
            ri,
            file_spec(t),
            rank_spec(t),
        ) by {
            if t == sq(fi + 1, ri + 1) && c1 && target_ok_spec(cells, color, fi + 1, ri + 1) {
                lemma_sq_coords(fi + 1, ri + 1);
            } else if t == sq(fi + 1, ri - 1) && c2 && target_ok_spec(cells, color, fi + 1, ri - 1) {
                lemma_sq_coords(fi + 1, ri - 1);
            } else if t == sq(fi - 1, ri + 1) && c3 && target_ok_spec(cells, color, fi - 1, ri + 1) {
                lemma_sq_coords(fi - 1, ri + 1);
            } else {
                lemma_sq_coords(fi - 1, ri - 1);
            }
        }
        lemma_seg_gen_post(o0, out@, cells, color, PieceKind::Advisor, from as int, fi, ri, p4@);
    }
}

/// Is the on-board square `(f, r)` empty?
fn is_empty_at(board: &Board, f: i32, r: i32) -> (e: bool)
    requires
        on_board_spec(f as int, r as int),
    ensures
        e == !occupied(board.cells@, f as int, r as int),
{
    board.cells[idx(f, r)].is_none()
}

/// Appending a move keeps the central-file moves after `n` by decreasing
/// destination when every such earlier move lands higher.
proof fn lemma_desc_push(n: int, s: Seq<Move>, m: Move)
    requires
        0 <= n,
        central_desc(n, s),
        file_spec(m.to as int) == 4 ==> forall|k: int|
            n <= k < s.len() && file_spec((#[trigger] s[k]).to as int) == 4 ==> s[k].to > m.to,
    ensures
        central_desc(n, s.push(m)),
{
    let t = s.push(m);
    assert forall|k1: int, k2: int|
        n <= k1 < k2 < t.len() && file_spec((#[trigger] t[k1]).to as int) == 4 && file_spec(
            (#[trigger] t[k2]).to as int,
        ) == 4 implies t[k1].to > t[k2].to by {
        assert(t[k1] == s[k1]);
        if k2 < s.len() {
            assert(t[k2] == s[k2]);
        }
    }
}

/// The elephant's four steps, appended in order, list its central-file
/// destinations by decreasing square.
proof fn lemma_elephant_desc(
    o0: Seq<Move>,
    s1: Seq<Move>,
    s2: Seq<Move>,
    s3: Seq<Move>,
    s4: Seq<Move>,
    from: usize,
    f: int,
    r: int,
)
    requires
        0 <= f < 9,
        s1 == o0 || (on_board_spec(f + 2, r + 2) && s1 == o0.push(
            Move { from, to: sq(f + 2, r + 2) as usize },
        )),
        s2 == s1 || (on_board_spec(f + 2, r - 2) && s2 == s1.push(
            Move { from, to: sq(f + 2, r - 2) as usize },
        )),
        s3 == s2 || (on_board_spec(f - 2, r + 2) && s3 == s2.push(
            Move { from, to: sq(f - 2, r + 2) as usize },
        )),
        s4 == s3 || (on_board_spec(f - 2, r - 2) && s4 == s3.push(
            Move { from, to: sq(f - 2, r - 2) as usize },
        )),
    ensures
        central_desc(o0.len() as int, s4),
{
    let n = o0.len() as int;
    let a = sq(f + 2, r + 2);
    let b = sq(f + 2, r - 2);
    let c = sq(f - 2, r + 2);
    let d = sq(f - 2, r - 2);
    assert(central_desc(n, o0));
    if s1 != o0 {
        lemma_sq_coords(f + 2, r + 2);
        lemma_desc_push(n, o0, s1.last());
        assert(s1 =~= o0.push(s1.last()));
    }
    // Every move after `n` is one of the steps taken so far, on the board.
    assert forall|k: int| n <= k < s1.len() implies (#[trigger] s1[k]).to == a && on_board_spec(
        f + 2,
        r + 2,
    ) by {}
    if s2 != s1 {
        lemma_sq_coords(f + 2, r - 2);
        if f + 2 == 4 {
            assert forall|k: int|
                n <= k < s1.len() && file_spec((#[trigger] s1[k]).to as int) == 4 implies s1[k].to
                > b by {}
        }
        lemma_desc_push(n, s1, s2.last());
        assert(s2 =~= s1.push(s2.last()));
    }
    assert forall|k: int| n <= k < s2.len() implies ((#[trigger] s2[k]).to == a && on_board_spec(
        f + 2,
        r + 2,
    )) || (s2[k].to == b && on_board_spec(f + 2, r - 2)) by {
        if k < s1.len() {
            assert(s2[k] == s1[k]);
        }
    }
    if s3 != s2 {
        lemma_sq_coords(f - 2, r + 2);
        assert forall|k: int|
            n <= k < s2.len() && file_spec((#[trigger] s2[k]).to as int) == 4 implies f - 2 != 4 by {
            if s2[k].to == a && on_board_spec(f + 2, r + 2) {
                lemma_sq_coords(f + 2, r + 2);
            } else {
                lemma_sq_coords(f + 2, r - 2);
            }
        }
        lemma_desc_push(n, s2, s3.last());
        assert(s3 =~= s2.push(s3.last()));
    }
    assert forall|k: int| n <= k < s3.len() implies ((#[trigger] s3[k]).to == a && on_board_spec(
        f + 2,
        r + 2,
    )) || (s3[k].to == b && on_board_spec(f + 2, r - 2)) || (s3[k].to == c && on_board_spec(
        f - 2,
        r + 2,
    )) by {
        if k < s2.len() {
            assert(s3[k] == s2[k]);
        }
    }
    if s4 != s3 {
        lemma_sq_coords(f - 2, r - 2);
        assert forall|k: int|
            n <= k < s3.len() && file_spec((#[trigger] s3[k]).to as int) == 4 && f - 2 == 4 implies s3[k].to
            > d by {
            if s3[k].to == a && on_board_spec(f + 2, r + 2) {
                lemma_sq_coords(f + 2, r + 2);
            } else if s3[k].to == b && on_board_spec(f + 2, r - 2) {
                lemma_sq_coords(f + 2, r - 2);
            } else {
                lemma_sq_coords(f - 2, r + 2);
            }
        }
        lemma_desc_push(n, s3, s4.last());
        assert(s4 =~= s3.push(s4.last()));
    }
}

#[verifier::spinoff_prover]
#[verifier::rlimit(60)]
fn gen_elephant(board: &Board, color: Color, f: i32, r: i32, from: usize, out: &mut Vec<Move>)
    requires
        on_board_spec(f as int, r as int),
        from == sq(f as int, r as int),
    ensures
        gen_post(
            old(out)@,
            final(out)@,
            board.cells@,
            color,
            PieceKind::Elephant,
            from as int,
            f as int,
            r as int,
        ),
        final(out)@ == old(out)@ + elephant_list(board.cells@, color, from as int, f as int, r as int),
        central_desc(old(out)@.len() as int, final(out)@),
{
    let ghost cells = board.cells@;
    let ghost o0 = out@;
    let ghost n0 = o0.len() as int;
    proof {
        lemma_sq_coords(f as int, r as int);
        lemma_seg_empty(o0, from as int);
    }
    let ghost p0 = |t: int| false;
    // "Blocking the elephant's eye": the midpoint must be empty.
    let c1 = on_board(f + 2, r + 2) && own_half(color, r + 2) && is_empty_at(board, f + 1, r + 1);
    let p1 = push_step(board, color, from, c1, f + 2, r + 2, out, Ghost(o0), Ghost(p0));
    let ghost s1 = out@;
    let c2 = on_board(f + 2, r - 2) && own_half(color, r - 2) && is_empty_at(board, f + 1, r - 1);
    let p2 = push_step(board, color, from, c2, f + 2, r - 2, out, Ghost(o0), p1);
    let ghost s2 = out@;
    let c3 = on_board(f - 2, r + 2) && own_half(color, r + 2) && is_empty_at(board, f - 1, r + 1);
    let p3 = push_step(board, color, from, c3, f - 2, r + 2, out, Ghost(o0), p2);
    let ghost s3 = out@;
    let c4 = on_board(f - 2, r - 2) && own_half(color, r - 2) && is_empty_at(board, f - 1, r - 1);
    let p4 = push_step(board, color, from, c4, f - 2, r - 2, out, Ghost(o0), p3);
    let ghost s4 = out@;
    proof {
        lemma_elephant_list(cells, color, from as int, f as int, r as int, c1, c2, c3, c4, o0, s1, s2, s3, s4);
    }
    proof {
        let fi = f as int;
        let ri = r as int;
        lemma_step_push(o0, s1, cells, color, from as int, c1, fi + 2, ri + 2);
        lemma_step_push(s1, s2, cells, color, from as int, c2, fi + 2, ri - 2);
        lemma_step_push(s2, s3, cells, color, from as int, c3, fi - 2, ri + 2);
        lemma_step_push(s3, out@, cells, color, from as int, c4, fi - 2, ri - 2);
        lemma_elephant_desc(o0, s1, s2, s3, out@, from, fi, ri);
    }
    proof {
        reveal(kind_rule);
        let fi = f as int;
        let ri = r as int;
        assert forall|t: int| #[trigger] p4@(t) implies 0 <= t < 90 && kind_rule(
            cells,
            color,
            PieceKind::Elephant,
            fi,
            ri,
            file_spec(t),
            rank_spec(t),
        ) by {
            if t == sq(fi + 2, ri + 2) && c1 && target_ok_spec(cells, color, fi + 2, ri + 2) {
                lemma_sq_coords(fi + 2, ri + 2);
            } else if t == sq(fi + 2, ri - 2) && c2 && target_ok_spec(cells, color, fi + 2, ri - 2) {
                lemma_sq_coords(fi + 2, ri - 2);
            } else if t == sq(fi - 2, ri + 2) && c3 && target_ok_spec(cells, color, fi - 2, ri + 2) {
                lemma_sq_coords(fi - 2, ri + 2);
            } else {
                lemma_sq_coords(fi - 2, ri - 2);
            }
        }
        lemma_seg_gen_post(o0, out@, cells, color, PieceKind::Elephant, from as int, fi, ri, p4@);
    }
}

#[verifier::spinoff_prover]
#[verifier::rlimit(100)]
fn gen_horse(board: &Board, color: Color, f: i32, r: i32, from: usize, out: &mut Vec<Move>)
    requires
        on_board_spec(f as int, r as int),
        from == sq(f as int, r as int),
    ensures
        gen_post(
            old(out)@,
            final(out)@,
            board.cells@,
            color,
            PieceKind::Horse,
            from as int,
            f as int,
            r as int,
        ),
        final(out)@ == old(out)@ + horse_list(board.cells@, color, from as int, f as int, r as int),
{
    let ghost cells = board.cells@;
    let ghost o0 = out@;
    proof {
        lemma_sq_coords(f as int, r as int);
        lemma_seg_empty(o0, from as int);
    }
    let ghost p0 = |t: int| false;
    // "Hobbling the horse's leg": the orthogonal neighbour must be empty.
    let c1 = on_board(f + 1, r) && is_empty_at(board, f + 1, r);
    let p1 = push_step(board, color, from, c1, f + 2, r + 1, out, Ghost(o0), Ghost(p0));
    let ghost s1 = out@;
    let p2 = push_step(board, color, from, c1, f + 2, r - 1, out, Ghost(o0), p1);
    let ghost s2 = out@;
    let c3 = on_board(f - 1, r) && is_empty_at(board, f - 1, r);
    let p3 = push_step(board, color, from, c3, f - 2, r + 1, out, Ghost(o0), p2);
    let ghost s3 = out@;
    let p4 = push_step(board, color, from, c3, f - 2, r - 1, out, Ghost(o0), p3);
    let ghost s4 = out@;
    let c5 = on_board(f, r + 1) && is_empty_at(board, f, r + 1);
    let p5 = push_step(board, color, from, c5, f + 1, r + 2, out, Ghost(o0), p4);
    let ghost s5 = out@;
    let p6 = push_step(board, color, from, c5, f - 1, r + 2, out, Ghost(o0), p5);
    let ghost s6 = out@;
    let c7 = on_board(f, r - 1) && is_empty_at(board, f, r - 1);
    let p7 = push_step(board, color, from, c7, f + 1, r - 2, out, Ghost(o0), p6);
    let ghost s7 = out@;
    let p8 = push_step(board, color, from, c7, f - 1, r - 2, out, Ghost(o0), p7);
    let ghost s8 = out@;
    proof {
        lemma_horse_order(cells, color, from as int, f as int, r as int, c1, c3, c5, c7, o0, s1, s2, s3, s4, s5, s6, s7, s8);
    }
    proof {
        reveal(kind_rule);
        let fi = f as int;
        let ri = r as int;
        assert forall|t: int| #[trigger] p8@(t) implies 0 <= t < 90 && kind_rule(
            cells,
            color,
            PieceKind::Horse,
            fi,
            ri,
            file_spec(t),
            rank_spec(t),
        ) by {
            if t == sq(fi + 2, ri + 1) && c1 && target_ok_spec(cells, color, fi + 2, ri + 1) {
                lemma_sq_coords(fi + 2, ri + 1);
            } else if t == sq(fi + 2, ri - 1) && c1 && target_ok_spec(cells, color, fi + 2, ri - 1) {
                lemma_sq_coords(fi + 2, ri - 1);
            } else if t == sq(fi - 2, ri + 1) && c3 && target_ok_spec(cells, color, fi - 2, ri + 1) {
                lemma_sq_coords(fi - 2, ri + 1);
            } else if t == sq(fi - 2, ri - 1) && c3 && target_ok_spec(cells, color, fi - 2, ri - 1) {
                lemma_sq_coords(fi - 2, ri - 1);
            } else if t == sq(fi + 1, ri + 2) && c5 && target_ok_spec(cells, color, fi + 1, ri + 2) {
                lemma_sq_coords(fi + 1, ri + 2);
            } else if t == sq(fi - 1, ri + 2) && c5 && target_ok_spec(cells, color, fi - 1, ri + 2) {
                lemma_sq_coords(fi - 1, ri + 2);
            } else if t == sq(fi + 1, ri - 2) && c7 && target_ok_spec(cells, color, fi + 1, ri - 2) {
                lemma_sq_coords(fi + 1, ri - 2);
            } else {
                lemma_sq_coords(fi - 1, ri - 2);
            }
        }
        lemma_seg_gen_post(o0, out@, cells, color, PieceKind::Horse, from as int, fi, ri, p8@);
    }
}

fn gen_soldier(board: &Board, color: Color, f: i32, r: i32, from: usize, out: &mut Vec<Move>)
    requires
        on_board_spec(f as int, r as int),
        from == sq(f as int, r as int),
    ensures
        gen_post(
            old(out)@,
            final(out)@,
            board.cells@,
            color,
            PieceKind::Soldier,
            from as int,
            f as int,
            r as int,
        ),
        final(out)@ == old(out)@ + soldier_list(board.cells@, color, from as int, f as int, r as int),
{
    let ghost cells = board.cells@;
    let ghost o0 = out@;
    proof {
        lemma_sq_coords(f as int, r as int);
        lemma_seg_empty(o0, from as int);
    }
    let ghost p0 = |t: int| false;
    let fwd = forward(color);
    let p1 = push_step(board, color, from, true, f, r + fwd, out, Ghost(o0), Ghost(p0));
    let crossed = crossed_river(color, r);
    let p2 = push_step(board, color, from, crossed, f + 1, r, out, Ghost(o0), p1);
    let p3 = push_step(board, color, from, crossed, f - 1, r, out, Ghost(o0), p2);
    proof {
        reveal(kind_rule);
        let fi = f as int;
        let ri = r as int;
        let fw = fwd as int;
        assert forall|t: int| #[trigger] p3@(t) implies 0 <= t < 90 && kind_rule(
            cells,
            color,
            PieceKind::Soldier,
            fi,
            ri,
            file_spec(t),
            rank_spec(t),
        ) by {
            if t == sq(fi, ri + fw) && target_ok_spec(cells, color, fi, ri + fw) {
                lemma_sq_coords(fi, ri + fw);
            } else if t == sq(fi + 1, ri) && crossed && target_ok_spec(cells, color, fi + 1, ri) {
                lemma_sq_coords(fi + 1, ri);
            } else {
                lemma_sq_coords(fi - 1, ri);
            }
        }
        lemma_seg_gen_post(o0, out@, cells, color, PieceKind::Soldier, from as int, fi, ri, p3@);
        assert(out@ =~= o0 + soldier_list(cells, color, from as int, f as int, r as int));
    }
}

/// How many steps along `(df, dr)` lead from `(f, r)` to square `x`; 0 when
/// `x` is not on that ray.
pub open spec fn ray_index(f: int, r: int, df: int, dr: int, x: int) -> int {
    let tf = file_spec(x);
    let tr = rank_spec(x);
    if df != 0 {
        if tr == r && scale(tf - f, df) >= 1 {
            scale(tf - f, df)
        } else {
            0
        }
    } else {
        if tf == f && scale(tr - r, dr) >= 1 {
            scale(tr - r, dr)
        } else {
            0
        }
    }
}

/// The part of a straight-line generator's output that lies on one ray.
pub open spec fn ray_part(
    cannon: bool,
    cells: Seq<Option<Piece>>,
    color: Color,
    f: int,
    r: int,
    df: int,
    dr: int,
    x: int,
) -> bool {
    0 <= x < 90 && ray_index(f, r, df, dr, x) >= 1 && line_dir_rule(
        cannon,
        cells,
        color,
        f,
        r,
        df,
        dr,
        ray_index(f, r, df, dr, x),
    )
}

proof fn lemma_ray_square(f: int, r: int, df: int, dr: int, j: int)
    requires
        on_board_spec(f, r),
        unit_dir(df, dr),
        j >= 1,
        on_board_spec(f + scale(j, df), r + scale(j, dr)),
    ensures
        0 <= sq(f + scale(j, df), r + scale(j, dr)) < 90,
        ray_index(f, r, df, dr, sq(f + scale(j, df), r + scale(j, dr))) == j,
{
    lemma_sq_coords(f + scale(j, df), r + scale(j, dr));
}

proof fn lemma_ray_index_square(f: int, r: int, df: int, dr: int, x: int)
    requires
        on_board_spec(f, r),
        unit_dir(df, dr),
        0 <= x < 90,
        ray_index(f, r, df, dr, x) >= 1,
    ensures
        ({
            let d = ray_index(f, r, df, dr, x);
            on_board_spec(f + scale(d, df), r + scale(d, dr)) && x == sq(
                f + scale(d, df),
                r + scale(d, dr),
            )
        }),
{
    lemma_coords_sq(x);
}

proof fn lemma_blockers_mono(
    cells: Seq<Option<Piece>>,
    f: int,
    r: int,
    df: int,
    dr: int,
    a: int,
    b: int,
)
    requires
        1 <= a <= b,
    ensures
        blockers(cells, f, r, df, dr, a) <= blockers(cells, f, r, df, dr, b),
    decreases b - a,
{
    if a < b {
        lemma_blockers_mono(cells, f, r, df, dr, a, b - 1);
    }
}

/// Push the empty squares along a ray up to the first piece. Returns the
/// square at distance `k` where the run stopped (off the board or occupied).
fn push_quiet_run(
    board: &Board,
    color: Color,
    from: usize,
    f: i32,
    r: i32,
    df: i32,
    dr: i32,
    out: &mut Vec<Move>,
    Ghost(old0): Ghost<Seq<Move>>,
    Ghost(p): Ghost<spec_fn(int) -> bool>,
) -> (res: (i32, i32, Ghost<int>, Ghost<spec_fn(int) -> bool>))
    requires
        on_board_spec(f as int, r as int),
        from == sq(f as int, r as int),
        unit_dir(df as int, dr as int),
        seg(old0, old(out)@, from as int, p),
        forall|x: int|
            #[trigger] p(x) ==> 0 <= x < 90 && ray_index(f as int, r as int, df as int, dr as int, x)
                == 0,
    ensures
        ({
            let (nf, nr, k, q) = res;
            let cells = board.cells@;
            &&& 1 <= k@ <= 10
            &&& nf == f + scale(k@, df as int)
            &&& nr == r + scale(k@, dr as int)
            &&& blockers(cells, f as int, r as int, df as int, dr as int, k@) == 0
            &&& forall|j: int|
                1 <= j < k@ ==> on_board_spec(f + scale(j, df as int), r + scale(j, dr as int))
                    && !#[trigger] ray_occupied(cells, f as int, r as int, df as int, dr as int, j)
            &&& on_board_spec(nf as int, nr as int) ==> occupied(cells, nf as int, nr as int)
            &&& seg(old0, final(out)@, from as int, q@)
            &&& final(out)@ == old(out)@ + run_moves(from as int, f as int, r as int, df as int, dr as int, 1, k@)
            &&& k@ == ray_stop(cells, f as int, r as int, df as int, dr as int, 1)
            &&& forall|x: int|
                #[trigger] q@(x) == (p(x) || (0 <= x < 90 && 1 <= ray_index(
                    f as int,
                    r as int,
                    df as int,
                    dr as int,
                    x,
                ) < k@))
        }),
{
    let ghost cells = board.cells@;
    let ghost (fi, ri, dfi, dri) = (f as int, r as int, df as int, dr as int);
    let mut nf = f + df;
    let mut nr = r + dr;
    let ghost mut k: int = 1;
    let ghost out0 = out@;
    proof {
        assert(out@ =~= out0 + run_moves(from as int, fi, ri, dfi, dri, 1, 1));
    }
    let ghost mut q = |x: int| p(x) || (0 <= x < 90 && 1 <= ray_index(fi, ri, dfi, dri, x) < 1);
    proof {
        assert(q =~= p);
    }
    while on_board(nf, nr) && is_empty_at(board, nf, nr)
        invariant
            on_board_spec(fi, ri),
            from == sq(fi, ri),
            unit_dir(dfi, dri),
            cells == board.cells@,
            fi == f && ri == r && dfi == df && dri == dr,
            forall|x: int| #[trigger] p(x) ==> 0 <= x < 90 && ray_index(fi, ri, dfi, dri, x) == 0,
            1 <= k <= 10,
            nf == f + scale(k, dfi),
            nr == r + scale(k, dri),
            blockers(cells, fi, ri, dfi, dri, k) == 0,
            forall|j: int|
                1 <= j < k ==> on_board_spec(fi + scale(j, dfi), ri + scale(j, dri))
                    && !#[trigger] ray_occupied(cells, fi, ri, dfi, dri, j),
            seg(old0, out@, from as int, q),
            out@ == out0 + run_moves(from as int, fi, ri, dfi, dri, 1, k),
            forall|x: int|
                #[trigger] q(x) == (p(x) || (0 <= x < 90 && 1 <= ray_index(fi, ri, dfi, dri, x) < k)),
        decreases 10 - k,
    {
        let ghost t = sq(nf as int, nr as int);
        proof {
            lemma_ray_square(fi, ri, dfi, dri, k);
            lemma_seg_push(old0, out@, from as int, q, t);
        }
        out.push(Move { from, to: idx(nf, nr) });
        proof {
            let q2 = |x: int| q(x) || x == t;
            let q3 = |x: int|
                p(x) || (0 <= x < 90 && 1 <= ray_index(fi, ri, dfi, dri, x) < k + 1);
            assert forall|x: int| #[trigger] q2(x) == q3(x) by {
                if 0 <= x < 90 && ray_index(fi, ri, dfi, dri, x) == k {
                    lemma_ray_index_square(fi, ri, dfi, dri, x);
                }
            }
            assert(q2 =~= q3);
            q = q3;
            assert(out@ =~= out0 + run_moves(from as int, fi, ri, dfi, dri, 1, k + 1));
            k = k + 1;
        }
        nf = nf + df;
        nr = nr + dr;
    }
    proof {
        assert forall|j: int| 1 <= j < k implies #[trigger] ray_clear(cells, fi, ri, dfi, dri, j) by {
            assert(!ray_occupied(cells, fi, ri, dfi, dri, j));
        }
        lemma_ray_stop(cells, fi, ri, dfi, dri, 1, k);
    }
    (nf, nr, Ghost(k), Ghost(q))
}

/// Chariot moves along one ray: every empty square up to the first piece,
/// and that piece too when it is an enemy.
fn slide(
    board: &Board,
    color: Color,
    from: usize,
    f: i32,
    r: i32,
    df: i32,
    dr: i32,
    out: &mut Vec<Move>,
    Ghost(old0): Ghost<Seq<Move>>,
    Ghost(p): Ghost<spec_fn(int) -> bool>,
) -> (q: Ghost<spec_fn(int) -> bool>)
    requires
        on_board_spec(f as int, r as int),
        from == sq(f as int, r as int),
        unit_dir(df as int, dr as int),
        seg(old0, old(out)@, from as int, p),
        forall|x: int|
            #[trigger] p(x) ==> 0 <= x < 90 && ray_index(f as int, r as int, df as int, dr as int, x)
                == 0,
    ensures
        seg(old0, final(out)@, from as int, q@),
        forall|x: int|
            #[trigger] q@(x) == (p(x) || ray_part(
                false,
                board.cells@,
                color,
                f as int,
                r as int,
                df as int,
                dr as int,
                x,
            )),
        final(out)@ == old(out)@ + chariot_ray(
            board.cells@,
            color,
            from as int,
            f as int,
            r as int,
            df as int,
            dr as int,
        ),
{
    let ghost cells = board.cells@;
    let ghost (fi, ri, dfi, dri) = (f as int, r as int, df as int, dr as int);
    let (nf, nr, k, q1) = push_quiet_run(
        board,
        color,
        from,
        f,
        r,
        df,
        dr,
        out,
        Ghost(old0),
        Ghost(p),
    );
    let ghost k = k@;
    let ghost o1 = out@;
    proof {
        if on_board_spec(nf as int, nr as int) {
            lemma_ray_square(fi, ri, dfi, dri, k);
        }
    }
    let cond = on_board(nf, nr);
    let q2 = push_step(board, color, from, cond, nf, nr, out, Ghost(old0), q1);
    proof {
        let q = |x: int| p(x) || ray_part(false, cells, color, fi, ri, dfi, dri, x);
        assert forall|x: int| #[trigger] q2@(x) == q(x) by {
            if 0 <= x < 90 && ray_index(fi, ri, dfi, dri, x) >= 1 {
                let d = ray_index(fi, ri, dfi, dri, x);
                lemma_ray_index_square(fi, ri, dfi, dri, x);
                if d < k {
                    lemma_blockers_mono(cells, fi, ri, dfi, dri, d, k);
                    assert(!ray_occupied(cells, fi, ri, dfi, dri, d));
                } else if d > k {
                    lemma_blockers_mono(cells, fi, ri, dfi, dri, k + 1, d);
                    assert(x != sq(nf as int, nr as int));
                }
            }
        }
        assert(q2@ =~= q);
        assert(out@ =~= old(out)@ + chariot_ray(cells, color, from as int, fi, ri, dfi, dri));
    }
    q2
}

/// Cannon moves along one ray: every empty square up to the first piece (the
/// screen), and the first piece beyond the screen when it is an enemy.
#[verifier::spinoff_prover]
#[verifier::rlimit(40)]
fn cannon_ray(
    board: &Board,
    color: Color,
    from: usize,
    f: i32,
    r: i32,
    df: i32,
    dr: i32,
    out: &mut Vec<Move>,
    Ghost(old0): Ghost<Seq<Move>>,
    Ghost(p): Ghost<spec_fn(int) -> bool>,
) -> (q: Ghost<spec_fn(int) -> bool>)
    requires
        on_board_spec(f as int, r as int),
        from == sq(f as int, r as int),
        unit_dir(df as int, dr as int),
        seg(old0, old(out)@, from as int, p),
        forall|x: int|
            #[trigger] p(x) ==> 0 <= x < 90 && ray_index(f as int, r as int, df as int, dr as int, x)
                == 0,
    ensures
        seg(old0, final(out)@, from as int, q@),
        forall|x: int|
            #[trigger] q@(x) == (p(x) || ray_part(
                true,
                board.cells@,
                color,
                f as int,
                r as int,
                df as int,
                dr as int,
                x,
            )),
        final(out)@ == old(out)@ + cannon_ray_list(
            board.cells@,
            color,
            from as int,
            f as int,
            r as int,
            df as int,
            dr as int,
        ),
{
    let ghost cells = board.cells@;
    let ghost (fi, ri, dfi, dri) = (f as int, r as int, df as int, dr as int);
    // Phase 1: quiet moves over empty squares until the screen.
    let (nf, nr, k, q1) = push_quiet_run(
        board,
        color,
        from,
        f,
        r,
        df,
        dr,
        out,
        Ghost(old0),
        Ghost(p),
    );
    let ghost k = k@;
    let ghost o1 = out@;
    // Phase 2: hop the screen, capture the first piece beyond it if enemy.
    let mut nf = nf + df;
    let mut nr = nr + dr;
    let ghost mut k2: int = k + 1;
    while on_board(nf, nr) && is_empty_at(board, nf, nr)
        invariant
            on_board_spec(fi, ri),
            unit_dir(dfi, dri),
            cells == board.cells@,
            fi == f && ri == r && dfi == df && dri == dr,
            1 <= k < k2 <= 11,
            nf == f + scale(k2, dfi),
            nr == r + scale(k2, dri),
            blockers(cells, fi, ri, dfi, dri, k) == 0,
            on_board_spec(fi + scale(k2, dfi), ri + scale(k2, dri)) ==> on_board_spec(
                fi + scale(k, dfi),
                ri + scale(k, dri),
            ) && occupied(cells, fi + scale(k, dfi), ri + scale(k, dri)),
            on_board_spec(fi + scale(k, dfi), ri + scale(k, dri)) ==> blockers(
                cells,
                fi,
                ri,
                dfi,
                dri,
                k2,
            ) == 1,
            forall|j: int|
                k < j < k2 ==> on_board_spec(fi + scale(j, dfi), ri + scale(j, dri))
                    && !#[trigger] ray_occupied(cells, fi, ri, dfi, dri, j),
        decreases 11 - k2,
    {
        nf = nf + df;
        nr = nr + dr;
        proof {
            k2 = k2 + 1;
        }
    }
    proof {
        if on_board_spec(nf as int, nr as int) {
            lemma_ray_square(fi, ri, dfi, dri, k2);
        }
        assert(q1@(sq(nf as int, nr as int)) ==> !on_board_spec(nf as int, nr as int)
            || ray_index(fi, ri, dfi, dri, sq(nf as int, nr as int)) < k);
    }
    proof {
        assert forall|j: int| k + 1 <= j < k2 implies #[trigger] ray_clear(cells, fi, ri, dfi, dri, j) by {
            assert(!ray_occupied(cells, fi, ri, dfi, dri, j));
        }
        lemma_ray_stop(cells, fi, ri, dfi, dri, k + 1, k2);
    }
    let cond = on_board(nf, nr);
    let q2 = push_step(board, color, from, cond, nf, nr, out, Ghost(old0), q1);
    proof {
        let q = |x: int| p(x) || ray_part(true, cells, color, fi, ri, dfi, dri, x);
        assert forall|x: int| #[trigger] q2@(x) == q(x) by {
            if 0 <= x < 90 && ray_index(fi, ri, dfi, dri, x) >= 1 {
                let d = ray_index(fi, ri, dfi, dri, x);
                lemma_ray_index_square(fi, ri, dfi, dri, x);
                if d < k {
                    lemma_blockers_mono(cells, fi, ri, dfi, dri, d, k);
                    assert(!ray_occupied(cells, fi, ri, dfi, dri, d));
                } else if d == k {
                    assert(ray_occupied(cells, fi, ri, dfi, dri, d));
                } else if d < k2 {
                    lemma_blockers_mono(cells, fi, ri, dfi, dri, d, k2);
                    lemma_blockers_mono(cells, fi, ri, dfi, dri, k + 1, d);
                    assert(!ray_occupied(cells, fi, ri, dfi, dri, d));
                    assert(x != sq(nf as int, nr as int));
                } else if d > k2 {
                    lemma_blockers_mono(cells, fi, ri, dfi, dri, k2 + 1, d);
                    assert(x != sq(nf as int, nr as int));
                }
            }
        }
        assert(q2@ =~= q);
        lemma_join(old(out)@, o1, out@, run_moves(from as int, fi, ri, dfi, dri, 1, k), step_list(
            cells,
            color,
            from as int,
            cond,
            nf as int,
            nr as int,
        ));
    }
    q2
}

/// A straight-line generator whose output covers the four rays is exactly
/// the kind's move set.
proof fn lemma_line_gen_post(
    old: Seq<Move>,
    new: Seq<Move>,
    cannon: bool,
    cells: Seq<Option<Piece>>,
    color: Color,
    s: int,
    f: int,
    r: int,
    q: spec_fn(int) -> bool,
)
    requires
        on_board_spec(f, r),
        seg(old, new, s, q),
        forall|x: int|
            #[trigger] q(x) == (ray_part(cannon, cells, color, f, r, 1, 0, x) || ray_part(
                cannon,
                cells,
                color,
                f,
                r,
                -1,
                0,
                x,
            ) || ray_part(cannon, cells, color, f, r, 0, 1, x) || ray_part(
                cannon,
                cells,
                color,
                f,
                r,
                0,
                -1,
                x,
            )),
    ensures
        gen_post(
            old,
            new,
            cells,
            color,
            if cannon {
                PieceKind::Cannon
            } else {
                PieceKind::Chariot
            },
            s,
            f,
            r,
        ),
{
    reveal(kind_rule);
    let kind = if cannon {
        PieceKind::Cannon
    } else {
        PieceKind::Chariot
    };
    assert forall|t: int| #[trigger] q(t) implies 0 <= t < 90 && kind_rule(
        cells,
        color,
        kind,
        f,
        r,
        file_spec(t),
        rank_spec(t),
    ) by {
        if ray_part(cannon, cells, color, f, r, 1, 0, t) {
            lemma_ray_index_square(f, r, 1, 0, t);
            lemma_sq_coords(f + ray_index(f, r, 1, 0, t), r);
        } else if ray_part(cannon, cells, color, f, r, -1, 0, t) {
            lemma_ray_index_square(f, r, -1, 0, t);
            lemma_sq_coords(f - ray_index(f, r, -1, 0, t), r);
        } else if ray_part(cannon, cells, color, f, r, 0, 1, t) {
            lemma_ray_index_square(f, r, 0, 1, t);
            lemma_sq_coords(f, r + ray_index(f, r, 0, 1, t));
        } else {
            lemma_ray_index_square(f, r, 0, -1, t);
            lemma_sq_coords(f, r - ray_index(f, r, 0, -1, t));
        }
    }
    assert forall|tf: int, tr: int|
        on_board_spec(tf, tr) && #[trigger] kind_rule(cells, color, kind, f, r, tf, tr) implies q(
        sq(tf, tr),
    ) by {
        lemma_sq_coords(tf, tr);
    }
    lemma_seg_gen_post(old, new, cells, color, kind, s, f, r, q);
}

fn gen_chariot(board: &Board, color: Color, f: i32, r: i32, from: usize, out: &mut Vec<Move>)
    requires
        on_board_spec(f as int, r as int),
        from == sq(f as int, r as int),
    ensures
        gen_post(
            old(out)@,
            final(out)@,
            board.cells@,
            color,
            PieceKind::Chariot,
            from as int,
            f as int,
            r as int,
        ),
        final(out)@ == old(out)@ + chariot_list(board.cells@, color, from as int, f as int, r as int),
{
    let ghost o0 = out@;
    proof {
        lemma_sq_coords(f as int, r as int);
        lemma_seg_empty(o0, from as int);
    }
    let ghost p0 = |t: int| false;
    let ghost t1 = out@;
    let p1 = slide(board, color, from, f, r, 1, 0, out, Ghost(o0), Ghost(p0));
    let ghost t2 = out@;
    let p2 = slide(board, color, from, f, r, -1, 0, out, Ghost(o0), p1);
    let ghost t3 = out@;
    let p3 = slide(board, color, from, f, r, 0, 1, out, Ghost(o0), p2);
    let ghost t4 = out@;
    let p4 = slide(board, color, from, f, r, 0, -1, out, Ghost(o0), p3);
    proof {
        let fi = f as int;
        let ri = r as int;
        let sq0 = from as int;
        let cs = board.cells@;
        lemma_append4(
            t1,
            t2,
            t3,
            t4,
            out@,
            chariot_ray(cs, color, sq0, fi, ri, 1, 0),
            chariot_ray(cs, color, sq0, fi, ri, -1, 0),
            chariot_ray(cs, color, sq0, fi, ri, 0, 1),
            chariot_ray(cs, color, sq0, fi, ri, 0, -1),
        );
        lemma_line_gen_post(o0, out@, false, board.cells@, color, from as int, f as int, r as int, p4@);
    }
}

fn gen_cannon(board: &Board, color: Color, f: i32, r: i32, from: usize, out: &mut Vec<Move>)
    requires
        on_board_spec(f as int, r as int),
        from == sq(f as int, r as int),
    ensures
        gen_post(
            old(out)@,
            final(out)@,
            board.cells@,
            color,
            PieceKind::Cannon,
            from as int,
            f as int,
            r as int,
        ),
        final(out)@ == old(out)@ + cannon_list(board.cells@, color, from as int, f as int, r as int),
{
    let ghost o0 = out@;
    proof {
        lemma_sq_coords(f as int, r as int);
        lemma_seg_empty(o0, from as int);
    }
    let ghost p0 = |t: int| false;
    let ghost t1 = out@;
    let p1 = cannon_ray(board, color, from, f, r, 1, 0, out, Ghost(o0), Ghost(p0));
    let ghost t2 = out@;
    let p2 = cannon_ray(board, color, from, f, r, -1, 0, out, Ghost(o0), p1);
    let ghost t3 = out@;
    let p3 = cannon_ray(board, color, from, f, r, 0, 1, out, Ghost(o0), p2);
    let ghost t4 = out@;
    let p4 = cannon_ray(board, color, from, f, r, 0, -1, out, Ghost(o0), p3);
    proof {
        let fi = f as int;
        let ri = r as int;
        let sq0 = from as int;
        let cs = board.cells@;
        lemma_append4(
            t1,
            t2,
            t3,
            t4,
            out@,
            cannon_ray_list(cs, color, sq0, fi, ri, 1, 0),
            cannon_ray_list(cs, color, sq0, fi, ri, -1, 0),
            cannon_ray_list(cs, color, sq0, fi, ri, 0, 1),
            cannon_ray_list(cs, color, sq0, fi, ri, 0, -1),
        );
        lemma_line_gen_post(o0, out@, true, board.cells@, color, from as int, f as int, r as int, p4@);
    }
}

// ---------------------------------------------------------------------------
// Whole-board move generation and rule checks.
// ---------------------------------------------------------------------------
/// The moves generated so far: every pseudo-legal move from a square below
/// `i`, each once, and nothing else.
pub open spec fn pseudo_prefix(out: Seq<Move>, cells: Seq<Option<Piece>>, color: Color, i: int) -> bool {
    &&& forall|k: int|
        0 <= k < out.len() ==> (#[trigger] out[k]).from < i && pseudo_move(cells, color, out[k])
    &&& forall|m: Move| m.from < i && #[trigger] pseudo_move(cells, color, m) ==> out.contains(m)
    &&& out.no_duplicates()
    &&& from_sorted(out)
}

/// Moves listed by nondecreasing origin square.
pub open spec fn from_sorted(out: Seq<Move>) -> bool {
    forall|k1: int, k2: int| 0 <= k1 < k2 < out.len() ==> #[trigger] out[k1].from <= #[trigger] out[k2].from
}

proof fn lemma_pseudo_step(
    o: Seq<Move>,
    n: Seq<Move>,
    cells: Seq<Option<Piece>>,
    color: Color,
    i: int,
)
    requires
        0 <= i < 90,
        cells.len() == 90,
        pseudo_prefix(o, cells, color, i),
        match cells[i] {
            Some(p) => if p.color == color {
                gen_post(o, n, cells, color, p.kind, i, file_spec(i), rank_spec(i))
            } else {
                n == o
            },
            None => n == o,
        },
    ensures
        pseudo_prefix(n, cells, color, i + 1),
        n.len() >= o.len(),
        n.subrange(0, o.len() as int) == o,
        forall|k: int| o.len() <= k < n.len() ==> (#[trigger] n[k]).from == i,
{
    lemma_coords_sq(i);
    assert forall|k: int| 0 <= k < n.len() implies (#[trigger] n[k]).from < i + 1 && pseudo_move(
        cells,
        color,
        n[k],
    ) by {
        if k < o.len() {
            assert(n[k] == n.subrange(0, o.len() as int)[k]);
        } else {
            lemma_coords_sq(n[k].to as int);
        }
    }
    assert forall|m: Move| m.from < i + 1 && #[trigger] pseudo_move(cells, color, m) implies n.contains(
        m,
    ) by {
        if m.from < i {
            let k = choose|k: int| 0 <= k < o.len() && o[k] == m;
            assert(n[k] == n.subrange(0, o.len() as int)[k]);
        } else {
            lemma_coords_sq(m.to as int);
            let tf = file_spec(m.to as int);
            let tr = rank_spec(m.to as int);
            let p = cells[i].unwrap();
            assert(kind_rule(cells, color, p.kind, file_spec(i), rank_spec(i), tf, tr));
            let k = choose|k: int|
                o.len() <= k < n.len() && #[trigger] n[k] == Move {
                    from: i as usize,
                    to: sq(tf, tr) as usize,
                };
            assert(n[k] == m);
        }
    }
    assert forall|k1: int, k2: int|
        0 <= k1 < n.len() && 0 <= k2 < n.len() && k1 != k2 implies n[k1] != n[k2] by {
        if k1 < o.len() {
            assert(n[k1] == n.subrange(0, o.len() as int)[k1]);
        }
        if k2 < o.len() {
            assert(n[k2] == n.subrange(0, o.len() as int)[k2]);
        }
    }
    assert forall|k1: int, k2: int| 0 <= k1 < k2 < n.len() implies #[trigger] n[k1].from
        <= #[trigger] n[k2].from by {
        if k1 < o.len() {
            assert(n[k1] == n.subrange(0, o.len() as int)[k1]);
        }
        if k2 < o.len() {
            assert(n[k2] == n.subrange(0, o.len() as int)[k2]);
        }
    }
}

/// Appending the moves of square `i` after those of lower squares keeps the
/// elephant order when an elephant's own moves come in that order.
proof fn lemma_elephant_order_step(cells: Seq<Option<Piece>>, o: Seq<Move>, n: Seq<Move>, i: int)
    requires
        elephant_order(cells, o),
        n.len() >= o.len(),
        n.subrange(0, o.len() as int) == o,
        forall|k: int| 0 <= k < o.len() ==> (#[trigger] o[k]).from < i,
        forall|k: int| o.len() <= k < n.len() ==> (#[trigger] n[k]).from == i,
        elephant_at(cells, i) ==> central_desc(o.len() as int, n),
    ensures
        elephant_order(cells, n),
{
    assert forall|k1: int, k2: int|
        0 <= k1 < k2 < n.len() && (#[trigger] n[k1]).from == (#[trigger] n[k2]).from
            && elephant_at(cells, n[k1].from as int) && file_spec(n[k1].to as int) == 4
            && file_spec(n[k2].to as int) == 4 implies n[k1].to > n[k2].to by {
        if k2 < o.len() {
            assert(n[k1] == o[k1] && n[k2] == o[k2]);
        } else if k1 < o.len() {
            assert(n[k1] == o[k1]);
        }
    }
}

/// The moves of a piece of `kind` on square `s == (f, r)`, in the order they
/// are generated.
pub open spec fn piece_list(cells: Seq<Option<Piece>>, color: Color, kind: PieceKind, s: int, f: int, r: int) -> Seq<Move> {
    match kind {
        PieceKind::General => general_list(cells, color, s, f, r),
        PieceKind::Advisor => advisor_list(cells, color, s, f, r),
        PieceKind::Elephant => elephant_list(cells, color, s, f, r),
        PieceKind::Horse => horse_list(cells, color, s, f, r),
        PieceKind::Chariot => chariot_list(cells, color, s, f, r),
        PieceKind::Cannon => cannon_list(cells, color, s, f, r),
        PieceKind::Soldier => soldier_list(cells, color, s, f, r),
    }
}

/// The moves of `color`'s piece on square `i`, if any, in generated order.
pub open spec fn square_list(cells: Seq<Option<Piece>>, color: Color, i: int) -> Seq<Move> {
    match cells[i] {
        Some(p) => if p.color == color {
            piece_list(cells, color, p.kind, i, file_spec(i), rank_spec(i))
        } else {
            Seq::empty()
        },
        None => Seq::empty(),
    }
}

/// The pseudo-legal moves of `color` from the first `n` squares, square by
/// square.
pub open spec fn pseudo_upto(cells: Seq<Option<Piece>>, color: Color, n: int) -> Seq<Move>
    decreases n,
{
    if n <= 0 {
        Seq::empty()
    } else {
        pseudo_upto(cells, color, n - 1) + square_list(cells, color, n - 1)
    }
}

/// The pseudo-legal moves of `color`, in the order `pseudo_moves` lists them.
pub open spec fn pseudo_list(cells: Seq<Option<Piece>>, color: Color) -> Seq<Move> {
    pseudo_upto(cells, color, 90)
}

/// All pseudo-legal moves for `color` (does not filter self-check / flying
/// general). This doubles as an attack generator for check detection.
pub fn pseudo_moves(board: &Board, color: Color) -> (out: Vec<Move>)
    ensures
        forall|k: int| 0 <= k < out@.len() ==> pseudo_move(board.cells@, color, #[trigger] out@[k]),
        forall|m: Move| #[trigger] pseudo_move(board.cells@, color, m) ==> out@.contains(m),
        out@.no_duplicates(),
        from_sorted(out@),
        elephant_order(board.cells@, out@),
        out@ == pseudo_list(board.cells@, color),
{
    let ghost cells = board.cells@;
    let mut out: Vec<Move> = Vec::with_capacity(48);
    let mut i: usize = 0;
    while i < CELLS
        invariant
            0 <= i <= 90,
            cells == board.cells@,
            pseudo_prefix(out@, cells, color, i as int),
            elephant_order(cells, out@),
            out@ == pseudo_upto(cells, color, i as int),
        decreases 90 - i,
    {
        let ghost o = out@;
        proof {
            lemma_coords_sq(i as int);
        }
        match board.cells[i] {
            Some(p) => {
                if p.color == color {
                    let f = file_of(i);
                    let r = rank_of(i);
                    match p.kind {
                        PieceKind::General => gen_general(board, color, f, r, i, &mut out),
                        PieceKind::Advisor => gen_advisor(board, color, f, r, i, &mut out),
                        PieceKind::Elephant => {
                            gen_elephant(board, color, f, r, i, &mut out);
                            assert(central_desc(o.len() as int, out@));
                        },
                        PieceKind::Horse => gen_horse(board, color, f, r, i, &mut out),
                        PieceKind::Chariot => gen_chariot(board, color, f, r, i, &mut out),
                        PieceKind::Cannon => gen_cannon(board, color, f, r, i, &mut out),
                        PieceKind::Soldier => gen_soldier(board, color, f, r, i, &mut out),
                    }
                }
            },
            None => {},
        }
        proof {
            assert(out@ == o + square_list(cells, color, i as int));
            lemma_pseudo_step(o, out@, cells, color, i as int);
            lemma_elephant_order_step(cells, o, out@, i as int);
        }
        i = i + 1;
    }
    proof {
        assert forall|m: Move| #[trigger] pseudo_move(cells, color, m) implies out@.contains(m) by {
            assert(m.from < 90);
        }
    }
    out
}

/// The first general found lies on the board.
pub proof fn lemma_find_general_from(cells: Seq<Option<Piece>>, color: Color, i: int)
    ensures
        find_general_from(cells, color, i) matches Some(g) ==> 0 <= i <= g < 90 && is_general_at(
            cells,
            color,
            g as int,
        ),
    decreases 90 - i,
{
    if 0 <= i < 90 && !is_general_at(cells, color, i) {
        lemma_find_general_from(cells, color, i + 1);
    }
}

/// Are the two generals facing each other on a clear file? Such a position is
/// illegal (the "flying general" rule).
pub fn generals_face(board: &Board) -> (b: bool)
    ensures
        b == generals_face_spec(board.cells@),
{
    let ghost cells = board.cells@;
    let rg = board.find_general(Color::Red);
    let bg = board.find_general(Color::Black);
    proof {
        lemma_find_general_from(cells, Color::Red, 0);
        lemma_find_general_from(cells, Color::Black, 0);
    }
    let (rg, bg) = match (rg, bg) {
        (Some(rg), Some(bg)) => (rg, bg),
        _ => {
            return false;
        },
    };
    if file_of(rg) != file_of(bg) {
        return false;
    }
    let f = file_of(rg);
    let (rr, br) = (rank_of(rg), rank_of(bg));
    let lo = if rr < br {
        rr
    } else {
        br
    };
    let hi = if rr < br {
        br
    } else {
        rr
    };
    let mut r = lo + 1;
    while r < hi
        invariant
            cells == board.cells@,
            0 <= f < 9,
            0 <= lo < hi < 10 || hi <= lo,
            lo < r,
            r <= hi || hi <= lo,
            rg < 90 && bg < 90,
            find_general_spec(cells, Color::Red) == Some(rg),
            find_general_spec(cells, Color::Black) == Some(bg),
            f as int == file_spec(rg as int),
            file_spec(rg as int) == file_spec(bg as int),
            rr as int == rank_spec(rg as int),
            br as int == rank_spec(bg as int),
            lo == if rr < br {
                rr
            } else {
                br
            },
            hi == if rr < br {
                br
            } else {
                rr
            },
            forall|x: int| lo < x < r ==> #[trigger] cell_at(cells, f as int, x) is None,
        decreases hi - r,
    {
        if board.cells[idx(f, r)].is_some() {
            proof {
                assert(cell_at(cells, f as int, r as int) is Some);
            }
            return false;
        }
        r = r + 1;
    }
    true
}

/// Is `sq` attacked by any piece of `by`?
pub fn is_attacked(board: &Board, sq: usize, by: Color) -> (b: bool)
    ensures
        b == attacked(board.cells@, sq as int, by),
{
    let moves = pseudo_moves(board, by);
    let mut i: usize = 0;
    while i < moves.len()
        invariant
            0 <= i <= moves@.len(),
            forall|j: int| 0 <= j < i ==> (#[trigger] moves@[j]).to != sq,
            forall|k: int| 0 <= k < moves@.len() ==> pseudo_move(board.cells@, by, #[trigger] moves@[k]),
            forall|m: Move| #[trigger] pseudo_move(board.cells@, by, m) ==> moves@.contains(m),
        decreases moves@.len() - i,
    {
        if moves[i].to == sq {
            proof {
                assert(pseudo_move(board.cells@, by, moves@[i as int]));
            }
            return true;
        }
        i = i + 1;
    }
    proof {
        assert forall|s: int| !#[trigger] pseudo_rule(board.cells@, by, s, sq as int) by {
            if pseudo_rule(board.cells@, by, s, sq as int) {
                let m = Move { from: s as usize, to: sq };
                assert(pseudo_move(board.cells@, by, m));
                assert(moves@.contains(m));
            }
        }
    }
    false
}

/// Is `color`'s general currently in check?
pub fn in_check(board: &Board, color: Color) -> (b: bool)
    ensures
        b == in_check_spec(board.cells@, color),
{
    match board.find_general(color) {
        Some(g) => is_attacked(board, g, color.opposite()),
        None => true,  // general already captured
    }
}

/// The legal moves among `s`, in their order.
pub open spec fn legal_filter(cells: Seq<Option<Piece>>, color: Color, s: Seq<Move>) -> Seq<Move>
    decreases s.len(),
{
    if s.len() == 0 {
        Seq::empty()
    } else {
        let p = legal_filter(cells, color, s.drop_last());
        if legal_move(cells, color, s.last()) {
            p.push(s.last())
        } else {
            p
        }
    }
}

/// Fully legal moves for `color`: pseudo-legal moves that do not leave the
/// mover's general in check and do not expose the flying-general rule.
pub fn legal_moves(board: &mut Board, color: Color) -> (legal: Vec<Move>)
    ensures
        final(board).cells@ == old(board).cells@,
        forall|k: int| 0 <= k < legal@.len() ==> legal_move(old(board).cells@, color, #[trigger] legal@[k]),
        forall|m: Move| #[trigger] legal_move(old(board).cells@, color, m) ==> legal@.contains(m),
        legal@.no_duplicates(),
        from_sorted(legal@),
        elephant_order(old(board).cells@, legal@),
        legal@ == legal_filter(old(board).cells@, color, pseudo_list(old(board).cells@, color)),
{
    let ghost cells = board.cells@;
    let mut legal: Vec<Move> = Vec::with_capacity(48);
    let pseudo = pseudo_moves(board, color);
    let mut i: usize = 0;
    while i < pseudo.len()
        invariant
            0 <= i <= pseudo@.len(),
            board.cells@ == cells,
            cells.len() == 90,
            forall|k: int| 0 <= k < pseudo@.len() ==> pseudo_move(cells, color, #[trigger] pseudo@[k]),
            forall|m: Move| #[trigger] pseudo_move(cells, color, m) ==> pseudo@.contains(m),
            pseudo@.no_duplicates(),
            from_sorted(pseudo@),
            from_sorted(legal@),
            elephant_order(cells, pseudo@),
            elephant_order(cells, legal@),
            pseudo@ == pseudo_list(cells, color),
            legal@ == legal_filter(cells, color, pseudo@.subrange(0, i as int)),
            forall|k: int|
                0 <= k < legal@.len() ==> legal_move(cells, color, #[trigger] legal@[k])
                    && pseudo@.subrange(0, i as int).contains(legal@[k]),
            forall|j: int|
                0 <= j < i && legal_move(cells, color, #[trigger] pseudo@[j]) ==> legal@.contains(
                    pseudo@[j],
                ),
            legal@.no_duplicates(),
        decreases pseudo@.len() - i,
    {
        let mv = pseudo[i];
        proof {
            assert(pseudo_move(cells, color, pseudo@[i as int]));
        }
        let captured = board.make(mv);
        let ok = !in_check(board, color) && !generals_face(board);
        board.unmake(mv, captured);
        proof {
            lemma_unmake_make(cells, mv);
        }
        let ghost before = legal@;
        if ok {
            legal.push(mv);
        }
        proof {
            assert(ok == legal_move(cells, color, mv));
            assert(pseudo@.subrange(0, i + 1).drop_last() =~= pseudo@.subrange(0, i as int));
            assert(legal@ == legal_filter(cells, color, pseudo@.subrange(0, i + 1)));
        }
        proof {
            assert forall|k: int| 0 <= k < legal@.len() implies legal_move(
                cells,
                color,
                #[trigger] legal@[k],
            ) && pseudo@.subrange(0, i + 1).contains(legal@[k]) by {
                if k < before.len() {
                    let j = choose|j: int|
                        0 <= j < i && pseudo@.subrange(0, i as int)[j] == before[k];
                    assert(pseudo@.subrange(0, i + 1)[j] == before[k]);
                } else {
                    assert(pseudo@.subrange(0, i + 1)[i as int] == mv);
                }
            }
            assert forall|j: int|
                0 <= j < i + 1 && legal_move(cells, color, #[trigger] pseudo@[j]) implies legal@.contains(
                pseudo@[j],
            ) by {
                if j < i {
                    let k = choose|k: int| 0 <= k < before.len() && before[k] == pseudo@[j];
                    assert(legal@[k] == pseudo@[j]);
                } else {
                    assert(legal@[before.len() as int] == pseudo@[j]);
                }
            }
            if ok {
                assert forall|k: int| 0 <= k < before.len() implies (#[trigger] before[k]).from
                    <= mv.from by {
                    let j = choose|j: int|
                        0 <= j < i && pseudo@.subrange(0, i as int)[j] == before[k];
                    assert(pseudo@[j] == before[k]);
                }
                assert(from_sorted(legal@));
                assert forall|k: int|
                    0 <= k < before.len() && (#[trigger] before[k]).from == mv.from && elephant_at(
                        cells,
                        mv.from as int,
                    ) && file_spec(before[k].to as int) == 4 && file_spec(mv.to as int) == 4 implies before[k].to
                    > mv.to by {
                    let j = choose|j: int|
                        0 <= j < i && pseudo@.subrange(0, i as int)[j] == before[k];
                    assert(pseudo@[j] == before[k]);
                    assert(pseudo@[i as int] == mv);
                }
                assert forall|k1: int, k2: int|
                    0 <= k1 < k2 < legal@.len() && (#[trigger] legal@[k1]).from == (#[trigger] legal@[k2]).from
                        && elephant_at(cells, legal@[k1].from as int) && file_spec(legal@[k1].to as int)
                        == 4 && file_spec(legal@[k2].to as int) == 4 implies legal@[k1].to
                    > legal@[k2].to by {
                    assert(legal@[k1] == before[k1]);
                    if k2 < before.len() {
                        assert(legal@[k2] == before[k2]);
                    }
                }
                assert forall|k1: int, k2: int|
                    0 <= k1 < legal@.len() && 0 <= k2 < legal@.len() && k1 != k2 implies legal@[k1]
                    != legal@[k2] by {
                    if k1 == before.len() && k2 < before.len() {
                        let j = choose|j: int|
                            0 <= j < i && pseudo@.subrange(0, i as int)[j] == before[k2];
                        assert(pseudo@[j] == before[k2]);
                    } else if k2 == before.len() && k1 < before.len() {
                        let j = choose|j: int|
                            0 <= j < i && pseudo@.subrange(0, i as int)[j] == before[k1];
                        assert(pseudo@[j] == before[k1]);
                    }
                }
            }
        }
        i = i + 1;
    }
    proof {
        assert forall|m: Move| #[trigger] legal_move(cells, color, m) implies legal@.contains(m) by {
            let j = choose|j: int| 0 <= j < pseudo@.len() && pseudo@[j] == m;
        }
        assert(pseudo@.subrange(0, pseudo@.len() as int) =~= pseudo@);
    }
    legal
}

// ---------------------------------------------------------------------------
// Material values and move classification for the repetition rules.
// ---------------------------------------------------------------------------
/// Material value of each kind (a soldier is worth 100). The single scale
/// shared by the evaluation, the exchange evaluation and the chase test.
pub open spec fn piece_value_spec(kind: PieceKind) -> i32 {
    match kind {
        PieceKind::General => 10000,
        PieceKind::Advisor => 200,
        PieceKind::Elephant => 200,
        PieceKind::Horse => 400,
        PieceKind::Chariot => 1000,
        PieceKind::Cannon => 450,
        PieceKind::Soldier => 100,
    }
}

pub fn piece_value(kind: PieceKind) -> (v: i32)
    ensures
        v == piece_value_spec(kind),
{
    match kind {
        PieceKind::General => 10000,
        PieceKind::Advisor => 200,
        PieceKind::Elephant => 200,
        PieceKind::Horse => 400,
        PieceKind::Chariot => 1000,
        PieceKind::Cannon => 450,
        PieceKind::Soldier => 100,
    }
}

/// What a move contributes to a repeating cycle under the CCA rules.
#[derive(Debug, Clone, Copy, PartialEq, Eq, Structural)]
pub enum MoveTag {
    /// The move gives check.
    Check,
    /// The moved piece threatens to win material.
    Chase,
    /// Neither.
    Idle,
}

/// Only the "major" pieces chase: threats by the general or a soldier count
/// as idle.
pub open spec fn chaser_kind(kind: PieceKind) -> bool {
    kind != PieceKind::General && kind != PieceKind::Soldier
}

/// The piece of `mover` on `at` threatens the enemy piece on `t`: it can
/// take it, the victim is not the general, and the capture wins material
/// (the victim is worth more than the attacker, or it is undefended).
pub open spec fn chase_target(cells: Seq<Option<Piece>>, mover: Color, at: int, t: int) -> bool {
    pseudo_rule(cells, mover, at, t) && match (cells[at], cells[t]) {
        (Some(a), Some(v)) => v.color != mover && v.kind != PieceKind::General && (
        piece_value_spec(v.kind) > piece_value_spec(a.kind) || !attacked(
            made(cells, Move { from: at as usize, to: t as usize }),
            t,
            mover.other(),
        )),
        _ => false,
    }
}

/// Classification of `mv` by `mover` on `cells`: a check, a chase by the
/// moved piece, or idle.
pub open spec fn tag_spec(cells: Seq<Option<Piece>>, mv: Move, mover: Color) -> MoveTag {
    let after = made(cells, mv);
    if in_check_spec(after, mover.other()) {
        MoveTag::Check
    } else if (match after[mv.to as int] {
        Some(a) => chaser_kind(a.kind),
        None => false,
    }) && exists|t: int| #[trigger] chase_target(after, mover, mv.to as int, t) {
        MoveTag::Chase
    } else {
        MoveTag::Idle
    }
}

/// A chase wins material. A move counts as a chase only when it gives no
/// check and the moved piece, a chaser (not the general or a soldier), can
/// then take an enemy piece other than the general that is worth more than
/// the chaser or that no enemy piece could recapture. An offer to trade for a
/// defended piece worth no more than the chaser is no chase.
pub proof fn lemma_chase_wins_material(cells: Seq<Option<Piece>>, mv: Move, mover: Color)
    ensures
        tag_spec(cells, mv, mover) == MoveTag::Chase ==> {
            let after = made(cells, mv);
            let a = after[mv.to as int];
            &&& !in_check_spec(after, mover.other())
            &&& a is Some
            &&& a->0.kind != PieceKind::General && a->0.kind != PieceKind::Soldier
            &&& exists|t: int|
                #[trigger] pseudo_rule(after, mover, mv.to as int, t) && after[t] is Some
                    && after[t]->0.color != mover && after[t]->0.kind != PieceKind::General && (
                piece_value_spec(after[t]->0.kind) > piece_value_spec(a->0.kind) || !attacked(
                    made(after, Move { from: mv.to, to: t as usize }),
                    t,
                    mover.other(),
                ))
        },
{
    let after = made(cells, mv);
    if tag_spec(cells, mv, mover) == MoveTag::Chase {
        let t = choose|t: int| #[trigger] chase_target(after, mover, mv.to as int, t);
        assert(chase_target(after, mover, mv.to as int, t));
        assert(pseudo_rule(after, mover, mv.to as int, t));
        assert(0 <= t < 90);
        assert(Move { from: mv.to as int as usize, to: t as usize } == Move { from: mv.to, to: t as usize });
    }
}

/// Classify a move for the repetition rules: `Check` if it gives check,
/// `Chase` if the moved piece then threatens to win material, else `Idle`.
pub fn tag_move(board: &Board, mv: Move, mover: Color) -> (tag: MoveTag)
    requires
        mv.in_range(),
    ensures
        tag == tag_spec(board.cells@, mv, mover),
{
    let mut b = *board;
    b.make(mv);
    let ghost after = b.cells@;
    if in_check(&b, mover.opposite()) {
        return MoveTag::Check;
    }
    let attacker = match b.get(mv.to) {
        Some(p) => p,
        None => {
            return MoveTag::Idle;
        },
    };
    // A threat by the general or a soldier is idle (兵之捉算闲).
    if attacker.kind == PieceKind::General || attacker.kind == PieceKind::Soldier {
        return MoveTag::Idle;
    }
    let moves = pseudo_moves(&b, mover);
    let mut i: usize = 0;
    while i < moves.len()
        invariant
            0 <= i <= moves@.len(),
            b.cells@ == after,
            after == made(board.cells@, mv),
            !in_check_spec(after, mover.other()),
            chaser_kind(attacker.kind),
            after[mv.to as int] == Some(attacker),
            mv.in_range(),
            forall|k: int| 0 <= k < moves@.len() ==> pseudo_move(after, mover, #[trigger] moves@[k]),
            forall|m: Move| #[trigger] pseudo_move(after, mover, m) ==> moves@.contains(m),
            forall|j: int|
                0 <= j < i ==> !chase_target(
                    after,
                    mover,
                    mv.to as int,
                    (#[trigger] moves@[j]).to as int,
                ) || moves@[j].from != mv.to,
        decreases moves@.len() - i,
    {
        let m = moves[i];
        proof {
            assert(pseudo_move(after, mover, moves@[i as int]));
        }
        if m.from == mv.to {
            match b.get(m.to) {
                Some(v) => {
                    if v.color != mover && v.kind != PieceKind::General {
                        if piece_value(v.kind) > piece_value(attacker.kind) {
                            proof {
                                assert(chase_target(after, mover, mv.to as int, m.to as int));
                            }
                            return MoveTag::Chase;
                        }
                        let mut b2 = b;
                        b2.make(m);
                        if !is_attacked(&b2, m.to, mover.opposite()) {
                            proof {
                                assert(chase_target(after, mover, mv.to as int, m.to as int));
                            }
                            return MoveTag::Chase;
                        }
                    }
                },
                None => {},
            }
        }
        i = i + 1;
    }
    proof {
        assert forall|t: int| !#[trigger] chase_target(after, mover, mv.to as int, t) by {
            if chase_target(after, mover, mv.to as int, t) {
                let m = Move { from: mv.to, to: t as usize };
                assert(pseudo_move(after, mover, m));
                let j = choose|j: int| 0 <= j < moves@.len() && moves@[j] == m;
            }
        }
    }
    MoveTag::Idle
}

} // verus!
