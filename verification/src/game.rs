//! Game state: turn tracking, move application/undo, end-game detection,
//! human-readable notation, and save/load.
use vstd::prelude::*;
use vstd::string::StringExecFns;

use crate::board::{
    file_of, file_spec, glyph_of, initial_cells, made, rank_of, rank_spec, unmade, Board, Color,
    Move, Piece, PieceKind, CELLS, lemma_unmake_make,
};
use crate::moves::{
    in_check, in_check_spec, legal_filter, legal_move, legal_moves, pseudo_list, tag_move, tag_spec, MoveTag,
};

verus! {

/// Plies without a capture after which the game is declared a draw
/// (60 full moves, a common Xiangqi "natural draw" bound).
pub const NO_CAPTURE_PLY_LIMIT: usize = 120;

/// Current save format version. Bump when the structure changes.
pub const SAVE_FORMAT: u32 = 1;

#[derive(Debug, Clone, Copy, PartialEq, Eq, Structural)]
pub enum DrawReason {
    /// The same position (board + side to move) occurred three times.
    Repetition,
    /// 60 full moves passed with no capture.
    NoCapture,
}

/// Why a repeated position is a loss under CCA / Asian rules.
#[derive(Debug, Clone, Copy, PartialEq, Eq, Structural)]
pub enum RepKind {
    /// 长将: the losing side gave check on every move of the repeating cycle.
    Check,
    /// 长捉: the losing side chased (threatened to win material) every move.
    Chase,
}

#[derive(Debug, Clone, Copy, PartialEq, Eq, Structural)]
pub enum GameStatus {
    Ongoing,
    /// `Color` is the side in check.
    Check(Color),
    /// Checkmate: `Color` wins.
    Win(Color),
    /// No legal move (not in check): `Color` wins (Xiangqi rule).
    Stalemate(Color),
    Draw(DrawReason),
    /// Perpetual check / chase: the offending side loses; `winner` is the
    /// other side. CCA / Asian repetition rule.
    PerpetualLoss { winner: Color, kind: RepKind },
}

/// The CCA repetition decision table on each side's offence level (`2` =
/// 长将 / perpetual check, `1` = 长捉 / perpetual chase, `0` = idle) and kind.
/// Red is the first side, Black the second.
pub open spec fn repetition_status_spec(rl: u8, rk: RepKind, bl: u8, bk: RepKind) -> GameStatus {
    let draw = GameStatus::Draw(DrawReason::Repetition);
    if rl == bl && rl <= 2 {
        // Both idle (plain positional repetition), or both committing the
        // same offence: a legitimate draw.
        draw
    } else if bl == 0 {
        // Only Red offends: Red loses.
        GameStatus::PerpetualLoss { winner: Color::Black, kind: rk }
    } else if rl == 0 {
        // Only Black offends: Black loses.
        GameStatus::PerpetualLoss { winner: Color::Red, kind: bk }
    } else if rl == 2 && bl == 1 {
        // 一将一捉: the perpetual-checking side loses.
        GameStatus::PerpetualLoss { winner: Color::Black, kind: RepKind::Check }
    } else if rl == 1 && bl == 2 {
        GameStatus::PerpetualLoss { winner: Color::Red, kind: RepKind::Check }
    } else {
        draw
    }
}

/// Apply the CCA repetition decision table to each side's offence level
/// (`2` = 长将 / perpetual check, `1` = 长捉 / perpetual chase, `0` = idle)
/// and its kind. The winner colours are fixed (Red is side 0, Black side 1).
pub fn repetition_status(rl: u8, rk: RepKind, bl: u8, bk: RepKind) -> (st: GameStatus)
    ensures
        st == repetition_status_spec(rl, rk, bl, bk),
{
    let draw = GameStatus::Draw(DrawReason::Repetition);
    match (rl, bl) {
        // Both idle (plain positional repetition), or both committing the
        // same offence -> a legitimate draw.
        (0, 0) | (2, 2) | (1, 1) => draw,
        // Exactly one side offends, the other is idle -> offender loses.
        (_, 0) => GameStatus::PerpetualLoss { winner: Color::Black, kind: rk },
        (0, _) => GameStatus::PerpetualLoss { winner: Color::Red, kind: bk },
        // 一将一捉: the perpetual-checking side (level 2) loses.
        (2, 1) => GameStatus::PerpetualLoss { winner: Color::Black, kind: RepKind::Check },
        (1, 2) => GameStatus::PerpetualLoss { winner: Color::Red, kind: RepKind::Check },
        _ => draw,
    }
}

// ---------------------------------------------------------------------------
// Position hashing (FNV-1a over the cells and the side to move).
// ---------------------------------------------------------------------------
pub const FNV_OFFSET: u64 = 0xcbf2_9ce4_8422_2325;

pub const FNV_PRIME: u64 = 0x0000_0100_0000_01B3;

pub open spec fn kind_code(kind: PieceKind) -> u8 {
    match kind {
        PieceKind::General => 0,
        PieceKind::Advisor => 1,
        PieceKind::Elephant => 2,
        PieceKind::Horse => 3,
        PieceKind::Chariot => 4,
        PieceKind::Cannon => 5,
        PieceKind::Soldier => 6,
    }
}

/// The byte that stands for a cell's contents.
pub open spec fn cell_code(c: Option<Piece>) -> u8 {
    match c {
        None => 0,
        Some(p) => (1 + kind_code(p.kind) * 2 + if p.color == Color::Red {
            0u8
        } else {
            1u8
        }) as u8,
    }
}

pub open spec fn side_code(side: Color) -> u8 {
    if side == Color::Red {
        0xA1
    } else {
        0xB2
    }
}

/// One FNV-1a step.
pub open spec fn fnv_mix(h: u64, b: u8) -> u64 {
    (h ^ (b as u64)).wrapping_mul(FNV_PRIME)
}

/// FNV-1a over the codes of the first `n` cells.
pub open spec fn fnv_cells(cells: Seq<Option<Piece>>, n: int) -> u64
    decreases n,
{
    if n <= 0 {
        FNV_OFFSET
    } else {
        fnv_mix(fnv_cells(cells, n - 1), cell_code(cells[n - 1]))
    }
}

/// The hash of a position: FNV-1a of the 90 cell codes, then the side byte.
pub open spec fn position_hash_spec(cells: Seq<Option<Piece>>, side: Color) -> u64 {
    fnv_mix(fnv_cells(cells, 90), side_code(side))
}

/// Multiplying by the FNV prime modulo 2^64 loses nothing: the prime is odd,
/// so the product determines the factor.
proof fn lemma_fnv_prime_injective(x: u64, y: u64)
    requires
        (x as int * FNV_PRIME as int) % 0x1_0000_0000_0000_0000int == (y as int * FNV_PRIME as int)
            % 0x1_0000_0000_0000_0000int,
    ensures
        x == y,
{
    let m: int = 0x1_0000_0000_0000_0000int;
    let q: int = 14886173955864302971int;
    let k: int = 887285111055int;
    let p: int = FNV_PRIME as int;
    let a: int = x as int;
    let c: int = y as int;
    assert(p * q == 1 + k * m);
    vstd::arithmetic::div_mod::lemma_mul_mod_noop_left(a * p, q, m);
    vstd::arithmetic::div_mod::lemma_mul_mod_noop_left(c * p, q, m);
    assert((a * p) * q == m * (a * k) + a) by (nonlinear_arith)
        requires
            p * q == 1 + k * m,
    ;
    assert((c * p) * q == m * (c * k) + c) by (nonlinear_arith)
        requires
            p * q == 1 + k * m,
    ;
    vstd::arithmetic::div_mod::lemma_mod_multiples_vanish(a * k, a, m);
    vstd::arithmetic::div_mod::lemma_mod_multiples_vanish(c * k, c, m);
    vstd::arithmetic::div_mod::lemma_small_mod(a as nat, m as nat);
    vstd::arithmetic::div_mod::lemma_small_mod(c as nat, m as nat);
}

/// One FNV step determines what went into it: the same byte mixed into two
/// hashes, or two bytes mixed into one hash, give equal results only when
/// the inputs are equal.
proof fn lemma_fnv_mix_injective(h1: u64, b1: u8, h2: u64, b2: u8)
    requires
        fnv_mix(h1, b1) == fnv_mix(h2, b2),
    ensures
        b1 == b2 ==> h1 == h2,
        h1 == h2 ==> b1 == b2,
{
    let x1 = h1 ^ (b1 as u64);
    let x2 = h2 ^ (b2 as u64);
    let m: int = 0x1_0000_0000_0000_0000int;
    assert((x1 as int * FNV_PRIME as int) % m < m && (x2 as int * FNV_PRIME as int) % m < m) by {
        vstd::arithmetic::div_mod::lemma_mod_bound(x1 as int * FNV_PRIME as int, m);
        vstd::arithmetic::div_mod::lemma_mod_bound(x2 as int * FNV_PRIME as int, m);
    }
    lemma_fnv_prime_injective(x1, x2);
    assert(b1 == b2 ==> h1 == h2) by (bit_vector)
        requires
            x1 == h1 ^ (b1 as u64),
            x2 == h2 ^ (b2 as u64),
            x1 == x2,
    ;
    assert(h1 == h2 ==> b1 == b2) by (bit_vector)
        requires
            x1 == h1 ^ (b1 as u64),
            x2 == h2 ^ (b2 as u64),
            x1 == x2,
    ;
}

/// Different cell contents have different codes.
proof fn lemma_cell_code_injective(a: Option<Piece>, b: Option<Piece>)
    requires
        a != b,
    ensures
        cell_code(a) != cell_code(b),
{
    match (a, b) {
        (Some(p), Some(q)) => {
            if p.kind == q.kind {
                assert(p.color != q.color);
            }
        },
        _ => {},
    }
}

/// Hashes of cells that agree on the first `n` squares agree.
proof fn lemma_fnv_cells_agree(c1: Seq<Option<Piece>>, c2: Seq<Option<Piece>>, n: int)
    requires
        forall|j: int| 0 <= j < n ==> c1[j] == c2[j],
    ensures
        fnv_cells(c1, n) == fnv_cells(c2, n),
    decreases n,
{
    if n > 0 {
        lemma_fnv_cells_agree(c1, c2, n - 1);
    }
}

/// Hashes of cells that differ in square `i` alone differ from square `i`
/// on.
proof fn lemma_fnv_cells_differ(c1: Seq<Option<Piece>>, c2: Seq<Option<Piece>>, i: int, n: int)
    requires
        0 <= i < n,
        c1[i] != c2[i],
        forall|j: int| 0 <= j < n && j != i ==> c1[j] == c2[j],
    ensures
        fnv_cells(c1, n) != fnv_cells(c2, n),
    decreases n,
{
    if n == i + 1 {
        lemma_fnv_cells_agree(c1, c2, i);
        lemma_cell_code_injective(c1[i], c2[i]);
        if fnv_cells(c1, n) == fnv_cells(c2, n) {
            lemma_fnv_mix_injective(fnv_cells(c1, i), cell_code(c1[i]), fnv_cells(c2, i), cell_code(c2[i]));
        }
    } else {
        lemma_fnv_cells_differ(c1, c2, i, n - 1);
        if fnv_cells(c1, n) == fnv_cells(c2, n) {
            lemma_fnv_mix_injective(
                fnv_cells(c1, n - 1),
                cell_code(c1[n - 1]),
                fnv_cells(c2, n - 1),
                cell_code(c2[n - 1]),
            );
        }
    }
}

/// The position hash sees every square: two boards that differ in any one
/// of their 90 cells hash differently, whichever side is to move.
pub proof fn lemma_hash_sees_every_cell(c1: Seq<Option<Piece>>, c2: Seq<Option<Piece>>, side: Color, i: int)
    requires
        0 <= i < 90,
        c1[i] != c2[i],
        forall|j: int| 0 <= j < 90 && j != i ==> c1[j] == c2[j],
    ensures
        position_hash_spec(c1, side) != position_hash_spec(c2, side),
{
    lemma_fnv_cells_differ(c1, c2, i, 90);
    if position_hash_spec(c1, side) == position_hash_spec(c2, side) {
        lemma_fnv_mix_injective(fnv_cells(c1, 90), side_code(side), fnv_cells(c2, 90), side_code(side));
    }
}

/// The position hash sees the side to move: one board with different sides
/// to move hashes differently.
pub proof fn lemma_hash_sees_side(cells: Seq<Option<Piece>>, s1: Color, s2: Color)
    requires
        s1 != s2,
    ensures
        position_hash_spec(cells, s1) != position_hash_spec(cells, s2),
{
    if position_hash_spec(cells, s1) == position_hash_spec(cells, s2) {
        lemma_fnv_mix_injective(fnv_cells(cells, 90), side_code(s1), fnv_cells(cells, 90), side_code(s2));
    }
}

fn mix(h: u64, b: u8) -> (r: u64)
    ensures
        r == fnv_mix(h, b),
{
    (h ^ (b as u64)).wrapping_mul(FNV_PRIME)
}

fn piece_code(c: Option<Piece>) -> (b: u8)
    ensures
        b == cell_code(c),
{
    match c {
        None => 0u8,
        Some(p) => {
            let k: u8 = match p.kind {
                PieceKind::General => 0,
                PieceKind::Advisor => 1,
                PieceKind::Elephant => 2,
                PieceKind::Horse => 3,
                PieceKind::Chariot => 4,
                PieceKind::Cannon => 5,
                PieceKind::Soldier => 6,
            };
            let col: u8 = if p.color == Color::Red {
                0
            } else {
                1
            };
            1 + k * 2 + col
        },
    }
}

/// FNV-1a hash of the position (cell contents + side to move).
fn position_hash(board: &Board, side: Color) -> (h: u64)
    ensures
        h == position_hash_spec(board.cells@, side),
{
    let mut h: u64 = FNV_OFFSET;
    let mut i: usize = 0;
    while i < CELLS
        invariant
            0 <= i <= 90,
            h == fnv_cells(board.cells@, i as int),
        decreases 90 - i,
    {
        h = mix(h, piece_code(board.cells[i]));
        i = i + 1;
    }
    mix(h, if side == Color::Red {
        0xA1
    } else {
        0xB2
    })
}

// ---------------------------------------------------------------------------
// Replaying a game's history.
// ---------------------------------------------------------------------------
/// The cells before move `j`: the current cells with moves `j..` taken back,
/// newest first.
pub open spec fn rewind(cells: Seq<Option<Piece>>, hist: Seq<(Move, Option<Piece>)>, j: int) -> Seq<
    Option<Piece>,
>
    decreases hist.len() - j,
{
    if j < 0 || j >= hist.len() {
        cells
    } else {
        unmade(rewind(cells, hist, j + 1), hist[j].0, hist[j].1)
    }
}

/// `start` with moves `j..i` of `hist` played on it.
pub open spec fn replay(start: Seq<Option<Piece>>, hist: Seq<(Move, Option<Piece>)>, j: int, i: int) -> Seq<
    Option<Piece>,
>
    decreases i - j,
{
    if i <= j {
        start
    } else {
        made(replay(start, hist, j, i - 1), hist[i - 1].0)
    }
}

/// The side to move after `i` plies from `start`.
pub open spec fn side_after(start: Color, i: int) -> Color {
    if i % 2 == 0 {
        start
    } else {
        start.other()
    }
}

/// The hash of every position reached in a game whose current cells are
/// `cells` with `side` to move: the start position is recovered by taking
/// back the whole history, then each ply is replayed.
pub open spec fn replay_hashes(
    cells: Seq<Option<Piece>>,
    side: Color,
    hist: Seq<(Move, Option<Piece>)>,
) -> Seq<u64> {
    let n = hist.len() as int;
    let start_side = side_after(side, n);
    Seq::new(
        (n + 1) as nat,
        |i: int| position_hash_spec(replay(rewind(cells, hist, 0), hist, 0, i), side_after(start_side, i)),
    )
}

/// Every move of a history lies on the board.
pub open spec fn history_in_range(hist: Seq<(Move, Option<Piece>)>) -> bool {
    forall|i: int| 0 <= i < hist.len() ==> (#[trigger] hist[i]).0.in_range()
}

/// Number of trailing plies without a capture.
pub open spec fn plies_since_capture_spec(hist: Seq<(Move, Option<Piece>)>) -> nat
    decreases hist.len(),
{
    if hist.len() == 0 || hist.last().1 is Some {
        0
    } else {
        1 + plies_since_capture_spec(hist.drop_last())
    }
}

/// How often `h` occurs in `s`.
pub open spec fn count_eq(s: Seq<u64>, h: u64) -> nat
    decreases s.len(),
{
    if s.len() == 0 {
        0
    } else {
        count_eq(s.drop_last(), h) + if s.last() == h {
            1nat
        } else {
            0nat
        }
    }
}

/// The most recent index below `n` holding `h`.
pub open spec fn last_before(s: Seq<u64>, n: int, h: u64) -> Option<int>
    decreases n,
{
    if n <= 0 {
        None
    } else if s[n - 1] == h {
        Some(n - 1)
    } else {
        last_before(s, n - 1, h)
    }
}

/// A history that really was played on the board it leads to: replaying it
/// from the position recovered by taking it all back gives the board again,
/// and each ply's captured piece is what stood on its destination.
pub open spec fn genuine(cells: Seq<Option<Piece>>, hist: Seq<(Move, Option<Piece>)>) -> bool {
    let start = rewind(cells, hist, 0);
    &&& replay(start, hist, 0, hist.len() as int) == cells
    &&& forall|i: int|
        0 <= i < hist.len() ==> (#[trigger] hist[i]).1 == replay(start, hist, 0, i)[hist[i].0.to as int]
}

/// Two histories that agree below `m`, taken back from positions that agree
/// at `m`, agree at every index down to the start.
proof fn lemma_rewind_agree(
    c1: Seq<Option<Piece>>,
    h1: Seq<(Move, Option<Piece>)>,
    c2: Seq<Option<Piece>>,
    h2: Seq<(Move, Option<Piece>)>,
    m: int,
)
    requires
        0 <= m <= h1.len(),
        m <= h2.len(),
        rewind(c1, h1, m) == rewind(c2, h2, m),
        forall|k: int| 0 <= k < m ==> h1[k] == h2[k],
    ensures
        forall|k: int| 0 <= k <= m ==> rewind(c1, h1, k) == rewind(c2, h2, k),
    decreases m,
{
    if m > 0 {
        assert(rewind(c1, h1, m - 1) == rewind(c2, h2, m - 1));
        lemma_rewind_agree(c1, h1, c2, h2, m - 1);
    }
}

/// Replaying two histories that agree below `i` gives the same position.
proof fn lemma_replay_agree(
    start: Seq<Option<Piece>>,
    h1: Seq<(Move, Option<Piece>)>,
    h2: Seq<(Move, Option<Piece>)>,
    i: int,
)
    requires
        0 <= i,
        forall|k: int| 0 <= k < i ==> h1[k] == h2[k],
    ensures
        replay(start, h1, 0, i) == replay(start, h2, 0, i),
    decreases i,
{
    if i > 0 {
        lemma_replay_agree(start, h1, h2, i - 1);
    }
}

pub proof fn lemma_side_after_step(start: Color, i: int)
    requires
        0 <= i,
    ensures
        side_after(start, i + 1) == side_after(start, i).other(),
        side_after(start.other(), i + 1) == side_after(start, i),
{
}

proof fn lemma_rewind_len(cells: Seq<Option<Piece>>, hist: Seq<(Move, Option<Piece>)>, j: int)
    requires
        cells.len() == 90,
        history_in_range(hist),
    ensures
        rewind(cells, hist, j).len() == 90,
    decreases hist.len() - j,
{
    if 0 <= j < hist.len() {
        lemma_rewind_len(cells, hist, j + 1);
        assert(hist[j].0.in_range());
    }
}

proof fn lemma_replay_len(
    start: Seq<Option<Piece>>,
    hist: Seq<(Move, Option<Piece>)>,
    j: int,
    i: int,
)
    requires
        start.len() == 90,
        0 <= j,
        i <= hist.len(),
        history_in_range(hist),
    ensures
        replay(start, hist, j, i).len() == 90,
    decreases i - j,
{
    if i > j {
        lemma_replay_len(start, hist, j, i - 1);
        assert(hist[i - 1].0.in_range());
    }
}

// ---------------------------------------------------------------------------
// Notation.
// ---------------------------------------------------------------------------
/// The decimal digits of `n` for `1 <= n <= 10`.
pub open spec fn small_decimal(n: int) -> Seq<char> {
    if n == 10 {
        seq!['1', '0']
    } else {
        seq![('0' as int + n) as char]
    }
}

pub open spec fn file_letter_spec(i: int) -> char {
    (65 + file_spec(i)) as char
}

pub open spec fn rank_label_spec(i: int) -> int {
    10 - rank_spec(i)
}

/// A square written as a file letter and a rank number, such as `H3`.
pub open spec fn square_label(i: int) -> Seq<char> {
    seq![file_letter_spec(i)] + small_decimal(rank_label_spec(i))
}

/// Notation such as `炮 H3→E3`: the moving piece's glyph (`?` for an empty
/// square), its square and its destination.
pub open spec fn notation_spec(cells: Seq<Option<Piece>>, mv: Move) -> Seq<char> {
    let glyph = match cells[mv.from as int] {
        Some(p) => glyph_of(p.kind, p.color),
        None => seq!['?'],
    };
    glyph + seq![' '] + square_label(mv.from as int) + seq!['→'] + square_label(mv.to as int)
}

/// The file letter of square `i` (A..I from Red's left).
pub fn file_letter(i: usize) -> (c: char)
    ensures
        c == file_letter_spec(i as int),
{
    let f = file_of(i);
    match f {
        0 => 'A',
        1 => 'B',
        2 => 'C',
        3 => 'D',
        4 => 'E',
        5 => 'F',
        6 => 'G',
        7 => 'H',
        _ => 'I',
    }
}

/// The rank number of square `i`, counting 1..10 up from Red's home rank.
pub fn rank_label(i: usize) -> (n: i32)
    requires
        (i / 9) as i32 >= i32::MIN + 11,
    ensures
        n == 10 - (i / 9) as i32,
        i < 90 ==> n == rank_label_spec(i as int),
{
    10 - rank_of(i)  // rank 9 (Red home) -> 1, rank 0 -> 10

}

fn square_str(i: usize, out: &mut String)
    requires
        i < 90,
    ensures
        final(out)@ == old(out)@ + square_label(i as int),
{
    let f = file_of(i);
    let letter = match f {
        0 => {
            proof {
                reveal_strlit("A");
            }
            "A"
        },
        1 => {
            proof {
                reveal_strlit("B");
            }
            "B"
        },
        2 => {
            proof {
                reveal_strlit("C");
            }
            "C"
        },
        3 => {
            proof {
                reveal_strlit("D");
            }
            "D"
        },
        4 => {
            proof {
                reveal_strlit("E");
            }
            "E"
        },
        5 => {
            proof {
                reveal_strlit("F");
            }
            "F"
        },
        6 => {
            proof {
                reveal_strlit("G");
            }
            "G"
        },
        7 => {
            proof {
                reveal_strlit("H");
            }
            "H"
        },
        _ => {
            proof {
                reveal_strlit("I");
            }
            "I"
        },
    };
    out.append(letter);
    let n = rank_label(i);
    let digits = match n {
        1 => {
            proof {
                reveal_strlit("1");
            }
            "1"
        },
        2 => {
            proof {
                reveal_strlit("2");
            }
            "2"
        },
        3 => {
            proof {
                reveal_strlit("3");
            }
            "3"
        },
        4 => {
            proof {
                reveal_strlit("4");
            }
            "4"
        },
        5 => {
            proof {
                reveal_strlit("5");
            }
            "5"
        },
        6 => {
            proof {
                reveal_strlit("6");
            }
            "6"
        },
        7 => {
            proof {
                reveal_strlit("7");
            }
            "7"
        },
        8 => {
            proof {
                reveal_strlit("8");
            }
            "8"
        },
        9 => {
            proof {
                reveal_strlit("9");
            }
            "9"
        },
        _ => {
            proof {
                reveal_strlit("10");
            }
            "10"
        },
    };
    out.append(digits);
    proof {
        assert(out@ =~= old(out)@ + square_label(i as int));
    }
}

// ---------------------------------------------------------------------------
// The game state.
// ---------------------------------------------------------------------------
#[derive(Clone)]
pub struct GameState {
    pub board: Board,
    pub side_to_move: Color,
    /// (move, captured-piece) pairs, oldest first, for undo.
    pub history: Vec<(Move, Option<Piece>)>,
    /// Human-readable notation for each ply, parallel to `history`.
    pub log: Vec<String>,
    pub last_move: Option<Move>,
    /// Position hashes (board + side to move) for every reached position,
    /// including the start, for threefold-repetition detection.
    pub hashes: Vec<u64>,
}

/// The notation strings of a log.
pub open spec fn log_view(log: Seq<String>) -> Seq<Seq<char>> {
    Seq::new(log.len(), |i: int| log[i]@)
}

/// The last move of a history, if any.
pub open spec fn last_of(hist: Seq<(Move, Option<Piece>)>) -> Option<Move> {
    if hist.len() == 0 {
        None
    } else {
        Some(hist.last().0)
    }
}

/// The side that played ply `i` of a game with `last` plies and `side` to
/// move now.
pub open spec fn ply_mover(side: Color, last: int, i: int) -> Color {
    if (last - i) % 2 == 0 {
        side
    } else {
        side.other()
    }
}

/// The tag of ply `i` within the cycle that starts at ply `j`, the cycle being
/// replayed from the position before ply `j`.
pub open spec fn cycle_tag(
    cells: Seq<Option<Piece>>,
    side: Color,
    hist: Seq<(Move, Option<Piece>)>,
    j: int,
    i: int,
) -> MoveTag {
    tag_spec(
        replay(rewind(cells, hist, j), hist, j, i),
        hist[i].0,
        ply_mover(side, hist.len() as int, i),
    )
}

/// A side's offence over the cycle of plies `j..` : `2` (长将) if it moved and
/// every move was a check, `1` (长捉) if every move was a check or a chase
/// with at least one chase, else `0`.
pub open spec fn offence_level_spec(
    cells: Seq<Option<Piece>>,
    side: Color,
    hist: Seq<(Move, Option<Piece>)>,
    j: int,
    c: Color,
) -> (u8, RepKind) {
    let last = hist.len() as int;
    let moved = exists|i: int| j <= i < last && #[trigger] ply_mover(side, last, i) == c;
    let all_check = forall|i: int|
        j <= i < last && ply_mover(side, last, i) == c ==> #[trigger] cycle_tag(cells, side, hist, j, i)
            == MoveTag::Check;
    let all_aggressive = forall|i: int|
        j <= i < last && ply_mover(side, last, i) == c ==> #[trigger] cycle_tag(cells, side, hist, j, i)
            != MoveTag::Idle;
    let any_chase = exists|i: int|
        j <= i < last && ply_mover(side, last, i) == c && #[trigger] cycle_tag(cells, side, hist, j, i)
            == MoveTag::Chase;
    if moved && all_check {
        (2, RepKind::Check)
    } else if moved && all_aggressive && any_chase {
        (1, RepKind::Chase)
    } else {
        (0, RepKind::Chase)
    }
}

/// CCA / Asian judgment of a repeated position: the plies since the most
/// recent identical position form the cycle; each side's offence over it
/// goes through the decision table. No earlier identical position: a draw.
pub open spec fn repetition_judgment_spec(
    cells: Seq<Option<Piece>>,
    side: Color,
    hist: Seq<(Move, Option<Piece>)>,
    hashes: Seq<u64>,
) -> GameStatus {
    let last = hist.len() as int;
    match last_before(hashes, last, hashes[last]) {
        None => GameStatus::Draw(DrawReason::Repetition),
        Some(j) => {
            let (rl, rk) = offence_level_spec(cells, side, hist, j, Color::Red);
            let (bl, bk) = offence_level_spec(cells, side, hist, j, Color::Black);
            repetition_status_spec(rl, rk, bl, bk)
        },
    }
}

/// Some legal move exists for `side`.
pub open spec fn has_legal_move(cells: Seq<Option<Piece>>, side: Color) -> bool {
    exists|m: Move| #[trigger] legal_move(cells, side, m)
}

/// The status of a position with `side` to move, reached by `hist` through
/// the positions hashed in `hashes`: no legal reply loses (checkmate or
/// stalemate); a third occurrence of the position is judged by the
/// repetition rules; 120 plies without a capture draw; otherwise check or
/// ongoing.
pub open spec fn status_of(
    cells: Seq<Option<Piece>>,
    side: Color,
    hist: Seq<(Move, Option<Piece>)>,
    hashes: Seq<u64>,
) -> GameStatus {
    let checked = in_check_spec(cells, side);
    if !has_legal_move(cells, side) {
        if checked {
            GameStatus::Win(side.other())
        } else {
            GameStatus::Stalemate(side.other())
        }
    } else if count_eq(hashes, hashes.last()) >= 3 {
        repetition_judgment_spec(cells, side, hist, hashes)
    } else if plies_since_capture_spec(hist) >= NO_CAPTURE_PLY_LIMIT {
        GameStatus::Draw(DrawReason::NoCapture)
    } else if checked {
        GameStatus::Check(side)
    } else {
        GameStatus::Ongoing
    }
}

/// The status of a game (see [`status_of`]).
pub open spec fn status_spec(g: GameState) -> GameStatus {
    status_of(g.board.cells@, g.side_to_move, g.history@, g.hashes@)
}

/// Offence level from a side's tallies over the cycle: moves, checks,
/// aggressive moves (checks or chases) and chases.
fn offence_level(moves: usize, checks: usize, aggressive: usize, chases: usize) -> (l: (u8, RepKind))
    ensures
        l == (if moves > 0 && checks == moves {
            (2u8, RepKind::Check)
        } else if moves > 0 && aggressive == moves && chases > 0 {
            (1u8, RepKind::Chase)
        } else {
            (0u8, RepKind::Chase)
        }),
{
    if moves > 0 && checks == moves {
        (2, RepKind::Check)
    } else if moves > 0 && aggressive == moves && chases > 0 {
        (1, RepKind::Chase)
    } else {
        (0, RepKind::Chase)
    }
}

/// The tallies of one side over plies `j..i` of the cycle agree with the
/// quantified statements of `offence_level_spec`.
pub open spec fn tally_ok(
    cells: Seq<Option<Piece>>,
    side: Color,
    hist: Seq<(Move, Option<Piece>)>,
    j: int,
    i: int,
    c: Color,
    t: (usize, usize, usize, usize),
) -> bool {
    let last = hist.len() as int;
    &&& t.1 <= t.0 && t.2 <= t.0 && t.3 <= t.0 && t.0 <= i - j
    &&& t.0 > 0 <==> exists|k: int| j <= k < i && #[trigger] ply_mover(side, last, k) == c
    &&& t.1 == t.0 <==> forall|k: int|
        j <= k < i && ply_mover(side, last, k) == c ==> #[trigger] cycle_tag(cells, side, hist, j, k)
            == MoveTag::Check
    &&& t.2 == t.0 <==> forall|k: int|
        j <= k < i && ply_mover(side, last, k) == c ==> #[trigger] cycle_tag(cells, side, hist, j, k)
            != MoveTag::Idle
    &&& t.3 > 0 <==> exists|k: int|
        j <= k < i && ply_mover(side, last, k) == c && #[trigger] cycle_tag(cells, side, hist, j, k)
            == MoveTag::Chase
}

/// A side's tallies after one more ply of the cycle.
pub open spec fn tally_spec(t: (usize, usize, usize, usize), tag: MoveTag) -> (usize, usize, usize, usize) {
    (
        (t.0 + 1) as usize,
        (t.1 + if tag == MoveTag::Check { 1int } else { 0int }) as usize,
        (t.2 + if tag != MoveTag::Idle { 1int } else { 0int }) as usize,
        (t.3 + if tag == MoveTag::Chase { 1int } else { 0int }) as usize,
    )
}

/// Count one more ply of the cycle in a side's tallies.
fn tally(t: (usize, usize, usize, usize), tag: MoveTag) -> (r: (usize, usize, usize, usize))
    requires
        t.0 < usize::MAX,
        t.1 <= t.0,
        t.2 <= t.0,
        t.3 <= t.0,
    ensures
        r == tally_spec(t, tag),
{
    let (moves, checks, aggressive, chases) = t;
    match tag {
        MoveTag::Check => (moves + 1, checks + 1, aggressive + 1, chases),
        MoveTag::Chase => (moves + 1, checks, aggressive + 1, chases + 1),
        MoveTag::Idle => (moves + 1, checks, aggressive, chases),
    }
}

/// One more ply keeps a side's tallies in step with the cycle: the mover's
/// tallies count the new ply, the other side's stay as they were.
proof fn lemma_tally_step(
    cells: Seq<Option<Piece>>,
    side: Color,
    hist: Seq<(Move, Option<Piece>)>,
    j: int,
    i: int,
    c: Color,
    t: (usize, usize, usize, usize),
)
    requires
        0 <= j <= i < hist.len(),
        hist.len() < usize::MAX,
        tally_ok(cells, side, hist, j, i, c, t),
        t.3 <= t.0,
    ensures
        ply_mover(side, hist.len() as int, i) == c ==> tally_ok(
            cells,
            side,
            hist,
            j,
            i + 1,
            c,
            tally_spec(t, cycle_tag(cells, side, hist, j, i)),
        ),
        ply_mover(side, hist.len() as int, i) != c ==> tally_ok(cells, side, hist, j, i + 1, c, t),
{
    let last = hist.len() as int;
    let tag = cycle_tag(cells, side, hist, j, i);
    if ply_mover(side, last, i) == c {
        let r = tally_spec(t, tag);
        assert(exists|k: int| j <= k < i + 1 && #[trigger] ply_mover(side, last, k) == c);
        if r.1 == r.0 {
            assert forall|k: int|
                j <= k < i + 1 && ply_mover(side, last, k) == c implies #[trigger] cycle_tag(
                cells,
                side,
                hist,
                j,
                k,
            ) == MoveTag::Check by {
                if k < i {
                }
            }
        } else {
            if tag == MoveTag::Check {
                let k = choose|k: int|
                    !(j <= k < i && ply_mover(side, last, k) == c ==> #[trigger] cycle_tag(
                        cells,
                        side,
                        hist,
                        j,
                        k,
                    ) == MoveTag::Check);
                assert(!(j <= k < i + 1 && ply_mover(side, last, k) == c ==> cycle_tag(
                    cells,
                    side,
                    hist,
                    j,
                    k,
                ) == MoveTag::Check));
            }
        }
        if r.2 == r.0 {
            assert forall|k: int|
                j <= k < i + 1 && ply_mover(side, last, k) == c implies #[trigger] cycle_tag(
                cells,
                side,
                hist,
                j,
                k,
            ) != MoveTag::Idle by {
                if k < i {
                }
            }
        } else {
            if tag != MoveTag::Idle {
                let k = choose|k: int|
                    !(j <= k < i && ply_mover(side, last, k) == c ==> #[trigger] cycle_tag(
                        cells,
                        side,
                        hist,
                        j,
                        k,
                    ) != MoveTag::Idle);
                assert(!(j <= k < i + 1 && ply_mover(side, last, k) == c ==> cycle_tag(
                    cells,
                    side,
                    hist,
                    j,
                    k,
                ) != MoveTag::Idle));
            }
        }
        if r.3 > 0 {
            if tag == MoveTag::Chase {
                assert(j <= i < i + 1 && ply_mover(side, last, i) == c && cycle_tag(cells, side, hist, j, i)
                    == MoveTag::Chase);
            }
        } else {
            assert forall|k: int|
                !(j <= k < i + 1 && ply_mover(side, last, k) == c && #[trigger] cycle_tag(
                    cells,
                    side,
                    hist,
                    j,
                    k,
                ) == MoveTag::Chase) by {
                if j <= k < i && ply_mover(side, last, k) == c && cycle_tag(cells, side, hist, j, k)
                    == MoveTag::Chase {
                    assert(exists|k2: int|
                        j <= k2 < i && ply_mover(side, last, k2) == c && #[trigger] cycle_tag(
                            cells,
                            side,
                            hist,
                            j,
                            k2,
                        ) == MoveTag::Chase);
                }
            }
        }
    } else {
        assert forall|k: int|
            j <= k < i + 1 && ply_mover(side, last, k) == c implies j <= k < i by {}
    }
}

/// Playing a move keeps a state in step with its history.
#[verifier::spinoff_prover]
#[verifier::rlimit(40)]
pub proof fn lemma_apply_tracks(g0: GameState, g1: GameState, mv: Move)
    requires
        g0.tracks(),
        g1.applied_from(&g0, mv),
        mv.in_range(),
    ensures
        g1.tracks(),
{
    let c0 = g0.board.cells@;
    let h0 = g0.history@;
    let c1 = g1.board.cells@;
    let h1 = g1.history@;
    let n = h0.len() as int;
    assert(forall|i: int| 0 <= i < n ==> h1[i] == h0[i]);
    assert(history_in_range(h1)) by {
        assert forall|i: int| 0 <= i < h1.len() implies (#[trigger] h1[i]).0.in_range() by {
            if i < n {
                assert(h0[i] == h1[i]);
            }
        }
    }
    let start = rewind(c0, h0, 0);
    assert(rewind(c1, h1, 0) == start) by {
        lemma_unmake_make(c0, mv);
        assert(rewind(c1, h1, n + 1) == c1);
        assert(rewind(c1, h1, n) == c0);
        assert(rewind(c0, h0, n) == c0);
        lemma_rewind_agree(c1, h1, c0, h0, n);
    }
    assert(replay(start, h1, 0, n + 1) == c1) by {
        lemma_replay_agree(start, h1, h0, n);
    }
    assert(genuine(c1, h1)) by {
        assert forall|i: int| 0 <= i < h1.len() implies (#[trigger] h1[i]).1 == replay(
            start,
            h1,
            0,
            i,
        )[h1[i].0.to as int] by {
            lemma_replay_agree(start, h1, h0, i);
            if i < n {
                assert(h0[i] == h1[i]);
            }
        }
    }
    assert(g1.hashes_view() == replay_hashes(c1, g1.side_to_move, h1)) by {
        let ss1 = side_after(g1.side_to_move, n + 1);
        assert(ss1 == side_after(g0.side_to_move, n));
        let rh0 = replay_hashes(c0, g0.side_to_move, h0);
        let rh1 = replay_hashes(c1, g1.side_to_move, h1);
        assert forall|i: int| 0 <= i < n + 2 implies rh1[i] == g1.hashes_view()[i] by {
            if i <= n {
                lemma_replay_agree(start, h1, h0, i);
                assert(rh1[i] == rh0[i]);
            } else {
                lemma_replay_agree(start, h1, h0, n);
                assert(side_after(ss1, n + 1) == g1.side_to_move);
            }
        }
        assert(rh1 =~= g1.hashes_view());
    }
}

/// Taking a ply back keeps a state in step with its history.
#[verifier::spinoff_prover]
#[verifier::rlimit(40)]
pub proof fn lemma_undo_tracks(g0: GameState, g1: GameState)
    requires
        g0.tracks(),
        g1.undone_from(&g0),
    ensures
        g1.tracks(),
{
    let c0 = g0.board.cells@;
    let h0 = g0.history@;
    let c1 = g1.board.cells@;
    let h1 = g1.history@;
    let n = h0.len() as int;
    let (mv, cap) = h0.last();
    assert(h0[n - 1].0.in_range());
    assert(forall|i: int| 0 <= i < h1.len() ==> h1[i] == h0[i]);
    assert(history_in_range(h1)) by {
        assert forall|i: int| 0 <= i < h1.len() implies (#[trigger] h1[i]).0.in_range() by {
            assert(h0[i] == h1[i]);
        }
    }
    let start = rewind(c0, h0, 0);
    assert(rewind(c1, h1, 0) == start) by {
        assert(rewind(c0, h0, n) == c0);
        assert(rewind(c0, h0, n - 1) == c1);
        assert(rewind(c1, h1, n - 1) == c1);
        lemma_rewind_agree(c0, h0, c1, h1, n - 1);
    }
    assert(replay(start, h1, 0, n - 1) == c1) by {
        lemma_rewind_len(c0, h0, 0);
        lemma_replay_len(start, h0, 0, n - 1);
        lemma_replay_agree(start, h1, h0, n - 1);
        let x = replay(start, h0, 0, n - 1);
        assert(c0 == made(x, mv));
        assert(cap == x[mv.to as int]) by {
            assert(h0[n - 1].1 == replay(start, h0, 0, n - 1)[h0[n - 1].0.to as int]);
        }
        lemma_unmake_make(x, mv);
    }
    assert(genuine(c1, h1)) by {
        assert forall|i: int| 0 <= i < h1.len() implies (#[trigger] h1[i]).1 == replay(
            start,
            h1,
            0,
            i,
        )[h1[i].0.to as int] by {
            lemma_replay_agree(start, h1, h0, i);
            assert(h0[i] == h1[i]);
        }
    }
    assert(g1.hashes_view() == replay_hashes(c1, g1.side_to_move, h1)) by {
        let rh0 = replay_hashes(c0, g0.side_to_move, h0);
        let rh1 = replay_hashes(c1, g1.side_to_move, h1);
        assert(side_after(g1.side_to_move, n - 1) == side_after(g0.side_to_move, n));
        assert forall|i: int| 0 <= i < n implies rh1[i] == g1.hashes_view()[i] by {
            lemma_replay_agree(start, h1, h0, i);
            assert(rh1[i] == rh0[i]);
        }
        assert(rh1 =~= g1.hashes_view());
    }
}

/// Taking back a move just played restores the game as it was, provided its
/// last move was the last ply of its history (as `new`, `apply` and `undo`
/// leave it).
pub proof fn lemma_undo_after_apply(g0: GameState, g1: GameState, g2: GameState, mv: Move)
    requires
        mv.in_range(),
        g0.last_move == last_of(g0.history@),
        g1.applied_from(&g0, mv),
        g2.undone_from(&g1),
    ensures
        g2.same_as(&g0),
{
    lemma_unmake_make(g0.board.cells@, mv);
    assert(g2.history@ =~= g0.history@);
    assert(log_view(g2.log@) =~= log_view(g0.log@));
    assert(g2.hashes_view() =~= g0.hashes_view());
}

/// What is written to disk: the board, the side to move, the move history
/// with captures, the notation log and the last move, under a format version.
pub struct SaveGame {
    /// Absent in pre-versioning saves, which read as 0 and still load.
    pub format: u32,
    pub cells: Vec<Option<Piece>>,
    pub side_to_move: Color,
    pub history: Vec<(Move, Option<Piece>)>,
    pub log: Vec<String>,
    pub last_move: Option<Move>,
}

impl SaveGame {
    /// `self` holds exactly what `g` shows, under the current format.
    pub open spec fn saved_from(&self, g: &GameState) -> bool {
        &&& self.format == SAVE_FORMAT
        &&& self.cells@ == g.board.cells@
        &&& self.side_to_move == g.side_to_move
        &&& self.history@ == g.history@
        &&& log_view(self.log@) == log_view(g.log@)
        &&& self.last_move == g.last_move
    }

    /// A save that loads: a format no newer than this one, a full board and
    /// moves that lie on it.
    pub open spec fn loadable(&self) -> bool {
        &&& self.format <= SAVE_FORMAT
        &&& self.cells@.len() == 90
        &&& history_in_range(self.history@)
    }
}

impl GameState {
    /// `self` is the game loaded from `s`: its contents, with the repetition
    /// hashes rebuilt by replaying the history.
    pub open spec fn loaded_from(&self, s: &SaveGame) -> bool {
        &&& self.board.cells@ == s.cells@
        &&& self.side_to_move == s.side_to_move
        &&& self.history@ == s.history@
        &&& log_view(self.log@) == log_view(s.log@)
        &&& self.last_move == s.last_move
        &&& self.hashes_view() == replay_hashes(s.cells@, s.side_to_move, s.history@)
    }
}

/// Saving a game and loading the save gives the game back, repetition hashes
/// included, for any game that play produced.
pub proof fn lemma_save_load_round_trip(g: GameState, s: SaveGame, h: GameState)
    requires
        g.tracks(),
        s.saved_from(&g),
        h.loaded_from(&s),
    ensures
        s.loadable(),
        h.same_as(&g),
        h.tracks(),
{
}

impl GameState {
    /// Hashes of every position reached, oldest first.
    pub open spec fn hashes_view(&self) -> Seq<u64> {
        self.hashes@
    }

    /// What the game's methods need: a hash per reached position and moves
    /// that lie on the board.
    pub open spec fn wf(&self) -> bool {
        &&& self.hashes_view().len() == self.history@.len() + 1
        &&& history_in_range(self.history@)
    }

    /// Two states that agree on everything.
    pub open spec fn same_as(&self, other: &GameState) -> bool {
        &&& self.board.cells@ == other.board.cells@
        &&& self.side_to_move == other.side_to_move
        &&& self.history@ == other.history@
        &&& log_view(self.log@) == log_view(other.log@)
        &&& self.last_move == other.last_move
        &&& self.hashes_view() == other.hashes_view()
    }

    /// `self` is `before` with `mv` played.
    pub open spec fn applied_from(&self, before: &GameState, mv: Move) -> bool {
        &&& self.board.cells@ == made(before.board.cells@, mv)
        &&& self.side_to_move == before.side_to_move.other()
        &&& self.history@ == before.history@.push((mv, before.board.cells@[mv.to as int]))
        &&& log_view(self.log@) == log_view(before.log@).push(notation_spec(before.board.cells@, mv))
        &&& self.last_move == Some(mv)
        &&& self.hashes_view() == before.hashes_view().push(
            position_hash_spec(self.board.cells@, self.side_to_move),
        )
    }

    /// `self` is `before` with its last ply taken back.
    pub open spec fn undone_from(&self, before: &GameState) -> bool {
        let (mv, captured) = before.history@.last();
        &&& before.history@.len() > 0
        &&& self.board.cells@ == unmade(before.board.cells@, mv, captured)
        &&& self.side_to_move == before.side_to_move.other()
        &&& self.history@ == before.history@.drop_last()
        &&& log_view(self.log@) == if before.log@.len() > 0 {
            log_view(before.log@).drop_last()
        } else {
            log_view(before.log@)
        }
        &&& self.last_move == last_of(self.history@)
        &&& self.hashes_view() == if before.hashes_view().len() > 0 {
            before.hashes_view().drop_last()
        } else {
            before.hashes_view()
        }
    }

    /// The state is what play produced: its history is genuine and its
    /// repetition hashes are those of replaying that history.
    pub open spec fn tracks(&self) -> bool {
        &&& self.wf()
        &&& genuine(self.board.cells@, self.history@)
        &&& self.hashes_view() == replay_hashes(
            self.board.cells@,
            self.side_to_move,
            self.history@,
        )
    }

    pub fn new() -> (g: Self)
        ensures
            g.wf(),
            g.board.cells@ == initial_cells(),
            g.side_to_move == Color::Red,
            g.history@.len() == 0,
            g.log@.len() == 0,
            g.last_move is None,
            g.hashes_view() == seq![position_hash_spec(initial_cells(), Color::Red)],
            g.tracks(),
    {
        let board = Board::initial();
        let g = GameState {
            board,
            side_to_move: Color::Red,
            history: Vec::new(),
            log: Vec::new(),
            last_move: None,
            hashes: vec![position_hash(&board, Color::Red)],
        };
        proof {
            assert(replay_hashes(g.board.cells@, g.side_to_move, g.history@) =~= g.hashes_view());
        }
        g
    }

    /// Build a state from a hand-placed board with the repetition `hashes`
    /// seeded to this position (so threefold detection works).
    pub fn with_position(board: Board, side: Color) -> (g: Self)
        ensures
            g.wf(),
            g.board.cells@ == board.cells@,
            g.side_to_move == side,
            g.history@.len() == 0,
            g.log@.len() == 0,
            g.last_move is None,
            g.hashes_view() == seq![position_hash_spec(board.cells@, side)],
            g.tracks(),
    {
        let g = GameState {
            board,
            side_to_move: side,
            history: Vec::new(),
            log: Vec::new(),
            last_move: None,
            hashes: vec![position_hash(&board, side)],
        };
        proof {
            assert(replay_hashes(g.board.cells@, g.side_to_move, g.history@) =~= g.hashes_view());
        }
        g
    }

    pub fn legal_moves(&mut self) -> (moves: Vec<Move>)
        ensures
            final(self).same_as(old(self)),
            forall|k: int|
                0 <= k < moves@.len() ==> legal_move(
                    old(self).board.cells@,
                    old(self).side_to_move,
                    #[trigger] moves@[k],
                ),
            forall|m: Move| #[trigger]
                legal_move(old(self).board.cells@, old(self).side_to_move, m) ==> moves@.contains(m),
            moves@.no_duplicates(),
            moves@ == legal_filter(
                old(self).board.cells@,
                old(self).side_to_move,
                pseudo_list(old(self).board.cells@, old(self).side_to_move),
            ),
    {
        legal_moves(&mut self.board, self.side_to_move)
    }

    pub fn is_legal(&mut self, mv: Move) -> (b: bool)
        ensures
            final(self).same_as(old(self)),
            b == legal_move(old(self).board.cells@, old(self).side_to_move, mv),
    {
        let moves = self.legal_moves();
        let mut i: usize = 0;
        while i < moves.len()
            invariant
                0 <= i <= moves@.len(),
                forall|j: int| 0 <= j < i ==> moves@[j] != mv,
                self.same_as(old(self)),
                forall|k: int|
                    0 <= k < moves@.len() ==> legal_move(
                        old(self).board.cells@,
                        old(self).side_to_move,
                        #[trigger] moves@[k],
                    ),
                forall|m: Move| #[trigger]
                    legal_move(old(self).board.cells@, old(self).side_to_move, m)
                        ==> moves@.contains(m),
            decreases moves@.len() - i,
        {
            if moves[i] == mv {
                return true;
            }
            i = i + 1;
        }
        false
    }

    pub fn apply(&mut self, mv: Move)
        requires
            mv.in_range(),
        ensures
            final(self).applied_from(old(self), mv),
            old(self).wf() ==> final(self).wf(),
            old(self).tracks() ==> final(self).tracks(),
    {
        let note = self.notation(mv);
        let captured = self.board.make(mv);
        self.history.push((mv, captured));
        self.log.push(note);
        self.last_move = Some(mv);
        self.side_to_move = self.side_to_move.opposite();
        let h = position_hash(&self.board, self.side_to_move);
        self.hashes.push(h);
        proof {
            assert(log_view(self.log@) =~= log_view(old(self).log@).push(
                notation_spec(old(self).board.cells@, mv),
            ));
            if old(self).tracks() {
                lemma_apply_tracks(*old(self), *self, mv);
            }
        }
    }

    /// Undo one ply. Returns false if there is nothing to undo.
    pub fn undo(&mut self) -> (done: bool)
        requires
            old(self).history@.len() > 0 ==> old(self).history@.last().0.in_range(),
        ensures
            done == (old(self).history@.len() > 0),
            done ==> final(self).undone_from(old(self)),
            !done ==> final(self).same_as(old(self)),
            history_in_range(old(self).history@) ==> history_in_range(final(self).history@),
            old(self).wf() ==> final(self).wf(),
            old(self).tracks() ==> final(self).tracks(),
    {
        let (mv, captured) = match self.history.pop() {
            Some(e) => e,
            None => {
                return false;
            },
        };
        proof {
            assert(old(self).history@[old(self).history@.len() - 1].0.in_range());
        }
        self.board.unmake(mv, captured);
        let ghost log_before = self.log@;
        self.log.pop();
        self.hashes.pop();
        self.side_to_move = self.side_to_move.opposite();
        self.last_move = match self.history.last() {
            Some(e) => Some(e.0),
            None => None,
        };
        proof {
            if log_before.len() > 0 {
                assert(log_view(self.log@) =~= log_view(log_before).drop_last());
            }
            if old(self).tracks() {
                lemma_undo_tracks(*old(self), *self);
            }
        }
        true
    }

    /// Plies since the last capture (counts trailing non-capturing moves).
    fn plies_since_capture(&self) -> (n: usize)
        ensures
            n == plies_since_capture_spec(self.history@),
    {
        let hist = &self.history;
        let mut n: usize = 0;
        let mut i = hist.len();
        proof {
            assert(hist@.subrange(0, i as int) =~= hist@);
        }
        while i > 0 && hist[i - 1].1.is_none()
            invariant
                i <= hist@.len(),
                n + i == hist.len(),
                plies_since_capture_spec(hist@) == n + plies_since_capture_spec(
                    hist@.subrange(0, i as int),
                ),
            decreases i,
        {
            proof {
                assert(hist@.subrange(0, i as int).drop_last() =~= hist@.subrange(0, i - 1));
            }
            i = i - 1;
            n = n + 1;
        }
        proof {
            if i > 0 {
                assert(hist@.subrange(0, i as int).last() == hist@[i - 1]);
            }
        }
        n
    }

    /// How many times the current position has occurred so far.
    fn repetition_count(&self) -> (n: usize)
        ensures
            self.hashes_view().len() > 0 ==> n == count_eq(
                self.hashes_view(),
                self.hashes_view().last(),
            ),
            self.hashes_view().len() == 0 ==> n == 0,
    {
        let len = self.hashes.len();
        if len == 0 {
            return 0;
        }
        let h = self.hashes[len - 1];
        let mut n: usize = 0;
        let mut i: usize = 0;
        while i < len
            invariant
                len == self.hashes@.len(),
                0 <= i <= len,
                n <= i,
                n == count_eq(self.hashes@.subrange(0, i as int), h),
            decreases len - i,
        {
            proof {
                assert(self.hashes@.subrange(0, i + 1).drop_last() =~= self.hashes@.subrange(
                    0,
                    i as int,
                ));
            }
            if self.hashes[i] == h {
                n = n + 1;
            }
            i = i + 1;
        }
        proof {
            assert(self.hashes@.subrange(0, len as int) =~= self.hashes@);
        }
        n
    }

    /// CCA / Asian repetition judgment for the just-repeated position. Looks
    /// at the most recent identical position, treats the moves in between as
    /// one repeating cycle, classifies each side's contribution to it
    /// (perpetual check / perpetual chase / idle) via [`tag_move`], and
    /// applies the rule table:
    ///
    /// - exactly one side offends (长将 or 长捉), the other idle -> offender loses;
    /// - 一将一捉 (one perpetual-checks, the other perpetual-chases) -> the
    ///   perpetual-checking side loses (长将 is the heavier offence);
    /// - both 长将, or both 长捉, or both idle (a plain positional repetition)
    ///   -> draw.
    #[verifier::spinoff_prover]
    fn repetition_judgment(&self) -> (st: GameStatus)
        requires
            history_in_range(self.history@),
            self.hashes_view().len() > self.history@.len(),
        ensures
            st == repetition_judgment_spec(
                self.board.cells@,
                self.side_to_move,
                self.history@,
                self.hashes_view(),
            ),
    {
        let ghost cells = self.board.cells@;
        let ghost side = self.side_to_move;
        let ghost hist = self.history@;
        let ghost hs = self.hashes@;
        let draw = GameStatus::Draw(DrawReason::Repetition);
        let last = self.history.len();
        let n_hashes = self.hashes.len();
        assert(n_hashes > last);
        let cur = self.hashes[last];
        // The most recent earlier occurrence of the current position.
        let mut k = last;
        while k > 0 && self.hashes[k - 1] != cur
            invariant
                k <= last,
                last == hist.len(),
                hs == self.hashes@,
                hs.len() > last,
                cur == hs[last as int],
                last_before(hs, last as int, cur) == last_before(hs, k as int, cur),
            decreases k,
        {
            k = k - 1;
        }
        if k == 0 {
            return draw;
        }
        let j = k - 1;
        assert(last_before(hs, last as int, cur) == Some(j as int));
        // Rewind a copy to the cycle's start.
        let mut board = self.board;
        let mut t = last;
        while t > j
            invariant
                j <= t <= last,
                last == hist.len(),
                hist == self.history@,
                history_in_range(hist),
                board.cells@ == rewind(cells, hist, t as int),
            decreases t,
        {
            t = t - 1;
            let (mv, cap) = self.history[t];
            proof {
                assert(hist[t as int].0.in_range());
            }
            board.unmake(mv, cap);
        }
        // Replay it, tallying each side's moves, checks, aggressive moves
        // and chases.
        let ghost start = board.cells@;
        let mut red: (usize, usize, usize, usize) = (0, 0, 0, 0);
        let mut black: (usize, usize, usize, usize) = (0, 0, 0, 0);
        let mut i = j;
        while i < last
            invariant
                j <= i <= last,
                last == hist.len(),
                last < usize::MAX,
                hist == self.history@,
                side == self.side_to_move,
                history_in_range(hist),
                start == rewind(cells, hist, j as int),
                board.cells@ == replay(start, hist, j as int, i as int),
                tally_ok(cells, side, hist, j as int, i as int, Color::Red, red),
                tally_ok(cells, side, hist, j as int, i as int, Color::Black, black),
            decreases last - i,
        {
            // The mover of ply `i`: the side to move now when `last - i` is
            // even, the other side when odd.
            let mover = if (last - i) % 2 == 0 {
                self.side_to_move
            } else {
                self.side_to_move.opposite()
            };
            let mv = self.history[i].0;
            proof {
                assert(hist[i as int].0.in_range());
                lemma_tally_step(cells, side, hist, j as int, i as int, Color::Red, red);
                lemma_tally_step(cells, side, hist, j as int, i as int, Color::Black, black);
            }
            let tag = tag_move(&board, mv, mover);
            assert(tag == cycle_tag(cells, side, hist, j as int, i as int));
            if mover == Color::Red {
                red = tally(red, tag);
            } else {
                black = tally(black, tag);
            }
            board.make(mv);
            i = i + 1;
        }
        let (rl, rk) = offence_level(red.0, red.1, red.2, red.3);
        let (bl, bk) = offence_level(black.0, black.1, black.2, black.3);
        repetition_status(rl, rk, bl, bk)
    }

    /// Current game status. Threefold repetition is judged by the CCA / Asian
    /// rules (see [`Self::repetition_judgment`]): perpetual check / chase is a
    /// loss for the offending side; only a mutual or idle repetition draws.
    pub fn status(&mut self) -> (st: GameStatus)
        requires
            has_legal_move(old(self).board.cells@, old(self).side_to_move) && count_eq(
                old(self).hashes_view(),
                old(self).hashes_view().last(),
            ) >= 3 ==> old(self).hashes_view().len() > old(self).history@.len() && history_in_range(
                old(self).history@,
            ),
        ensures
            final(self).same_as(old(self)),
            old(self).wf() ==> final(self).wf(),
            st == status_spec(*old(self)),
    {
        let side = self.side_to_move;
        let moves = self.legal_moves();
        let has_move = moves.len() > 0;
        proof {
            let cells = self.board.cells@;
            if has_move {
                assert(legal_move(cells, side, moves@[0]));
                assert(has_legal_move(cells, side));
            } else {
                assert forall|m: Move| !#[trigger] legal_move(cells, side, m) by {
                    if legal_move(cells, side, m) {
                        assert(moves@.contains(m));
                    }
                }
            }
        }
        let checked = in_check(&self.board, side);
        if !has_move {
            // No legal reply: the opponent wins whether it is mate or stalemate.
            return if checked {
                GameStatus::Win(side.opposite())
            } else {
                GameStatus::Stalemate(side.opposite())
            };
        }
        if self.repetition_count() >= 3 {
            return self.repetition_judgment();
        }
        if self.plies_since_capture() >= NO_CAPTURE_PLY_LIMIT {
            return GameStatus::Draw(DrawReason::NoCapture);
        }
        if checked {
            GameStatus::Check(side)
        } else {
            GameStatus::Ongoing
        }
    }

    pub fn to_save(&self) -> (s: SaveGame)
        ensures
            s.saved_from(self),
    {
        let mut cells: Vec<Option<Piece>> = Vec::new();
        let mut i: usize = 0;
        while i < CELLS
            invariant
                0 <= i <= 90,
                cells@ == self.board.cells@.subrange(0, i as int),
            decreases 90 - i,
        {
            cells.push(self.board.cells[i]);
            i = i + 1;
            proof {
                assert(cells@ =~= self.board.cells@.subrange(0, i as int));
            }
        }
        let mut history: Vec<(Move, Option<Piece>)> = Vec::new();
        let mut k: usize = 0;
        while k < self.history.len()
            invariant
                0 <= k <= self.history@.len(),
                history@ == self.history@.subrange(0, k as int),
            decreases self.history@.len() - k,
        {
            history.push(self.history[k]);
            k = k + 1;
            proof {
                assert(history@ =~= self.history@.subrange(0, k as int));
            }
        }
        let mut log: Vec<String> = Vec::new();
        let mut l: usize = 0;
        while l < self.log.len()
            invariant
                0 <= l <= self.log@.len(),
                log@.len() == l,
                forall|x: int| 0 <= x < l ==> (#[trigger] log@[x])@ == self.log@[x]@,
            decreases self.log@.len() - l,
        {
            log.push(self.log[l].clone());
            l = l + 1;
        }
        proof {
            assert(cells@ =~= self.board.cells@);
            assert(history@ =~= self.history@);
            assert(log_view(log@) =~= log_view(self.log@));
        }
        SaveGame {
            format: SAVE_FORMAT,
            cells,
            side_to_move: self.side_to_move,
            history,
            log,
            last_move: self.last_move,
        }
    }

    /// Load a save. Refuses a newer format, a board of the wrong size, and a
    /// history with a move off the board; rebuilds the repetition hashes by
    /// taking the history back to the start and replaying it.
    pub fn from_save(s: SaveGame) -> (r: Option<Self>)
        ensures
            r is Some <==> s.loadable(),
            r matches Some(g) ==> g.loaded_from(&s) && g.wf(),
    {
        // Refuse formats newer than we understand (forward-incompatible).
        if s.format > SAVE_FORMAT {
            return None;
        }
        if s.cells.len() != CELLS {
            return None;
        }
        // Reject a corrupt save rather than replaying moves off the board.
        let mut k: usize = 0;
        while k < s.history.len()
            invariant
                0 <= k <= s.history@.len(),
                forall|x: int| 0 <= x < k ==> (#[trigger] s.history@[x]).0.in_range(),
            decreases s.history@.len() - k,
        {
            let (m, _) = s.history[k];
            if m.from >= CELLS || m.to >= CELLS {
                proof {
                    assert(!s.history@[k as int].0.in_range());
                }
                return None;
            }
            k = k + 1;
        }
        let ghost hist = s.history@;
        let mut board = Board::empty();
        let mut i: usize = 0;
        while i < CELLS
            invariant
                0 <= i <= 90,
                s.cells@.len() == 90,
                forall|x: int| 0 <= x < i ==> board.cells@[x] == s.cells@[x],
            decreases 90 - i,
        {
            board.cells[i] = s.cells[i];
            i = i + 1;
        }
        assert(board.cells@ =~= s.cells@);
        let ghost cells = board.cells@;
        // Take the whole history back, then replay it hashing each position.
        let n = s.history.len();
        let start_side = if n % 2 == 0 {
            s.side_to_move
        } else {
            s.side_to_move.opposite()
        };
        let mut b = board;
        let mut t = n;
        while t > 0
            invariant
                t <= n,
                n == hist.len(),
                hist == s.history@,
                history_in_range(hist),
                b.cells@ == rewind(cells, hist, t as int),
            decreases t,
        {
            t = t - 1;
            let (mv, captured) = s.history[t];
            proof {
                assert(hist[t as int].0.in_range());
            }
            b.unmake(mv, captured);
        }
        let ghost start = b.cells@;
        let mut side = start_side;
        let mut hashes: Vec<u64> = Vec::new();
        hashes.push(position_hash(&b, side));
        let mut i: usize = 0;
        while i < n
            invariant
                i <= n,
                n == hist.len(),
                hist == s.history@,
                history_in_range(hist),
                start == rewind(cells, hist, 0),
                start_side == side_after(s.side_to_move, n as int),
                b.cells@ == replay(start, hist, 0, i as int),
                side == side_after(start_side, i as int),
                hashes@ == replay_hashes(cells, s.side_to_move, hist).subrange(0, i + 1),
            decreases n - i,
        {
            let (mv, _) = s.history[i];
            proof {
                assert(hist[i as int].0.in_range());
                lemma_side_after_step(start_side, i as int);
            }
            b.make(mv);
            side = side.opposite();
            let h = position_hash(&b, side);
            hashes.push(h);
            i = i + 1;
            proof {
                assert(hashes@ =~= replay_hashes(cells, s.side_to_move, hist).subrange(0, i + 1));
            }
        }
        proof {
            assert(hashes@ =~= replay_hashes(cells, s.side_to_move, hist));
        }
        let SaveGame { format: _, cells: _, side_to_move, history, log, last_move } = s;
        Some(GameState { board, side_to_move, history, log, last_move, hashes })
    }

    /// Notation such as `炮 H3→E3`. Files are letters A..I from Red's left;
    /// ranks are 1..10 counting up from Red's home rank.
    fn notation(&self, mv: Move) -> (s: String)
        requires
            mv.in_range(),
        ensures
            s@ == notation_spec(self.board.cells@, mv),
    {
        let glyph = match self.board.get(mv.from) {
            Some(p) => p.glyph(),
            None => {
                proof {
                    reveal_strlit("?");
                }
                "?"
            },
        };
        let mut s = String::new();
        s.append(glyph);
        proof {
            reveal_strlit(" ");
        }
        s.append(" ");
        square_str(mv.from, &mut s);
        proof {
            reveal_strlit("→");
        }
        s.append("→");
        square_str(mv.to, &mut s);
        proof {
            assert(s@ =~= notation_spec(self.board.cells@, mv));
        }
        s
    }
}

} // verus!
