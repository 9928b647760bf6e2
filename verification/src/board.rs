//! Board representation, pieces, and coordinate helpers.
//!
//! Coordinate system: 9 files (x: 0..=8) by 10 ranks (y: 0..=9).
//! `index = rank * 9 + file`. Rank 0 is the top (Black's home rank);
//! rank 9 is the bottom (Red's home rank). Red moves first and sits at the
//! bottom, so Red soldiers advance toward smaller ranks.
use vstd::prelude::*;

verus! {

pub const FILES: usize = 9;

pub const RANKS: usize = 10;

pub const CELLS: usize = 90;

#[derive(Debug, Clone, Copy, PartialEq, Eq, Structural)]
pub enum Color {
    Red,
    Black,
}

impl Color {
    pub open spec fn other(self) -> Color {
        match self {
            Color::Red => Color::Black,
            Color::Black => Color::Red,
        }
    }

    pub fn opposite(self) -> (c: Color)
        ensures
            c == self.other(),
    {
        match self {
            Color::Red => Color::Black,
            Color::Black => Color::Red,
        }
    }
}

#[derive(Debug, Clone, Copy, PartialEq, Eq, Structural)]
pub enum PieceKind {
    General,
    Advisor,
    Elephant,
    Horse,
    Chariot,
    Cannon,
    Soldier,
}

#[derive(Debug, Clone, Copy, PartialEq, Eq, Structural)]
pub struct Piece {
    pub kind: PieceKind,
    pub color: Color,
}

/// Traditional glyph of each piece.
pub open spec fn glyph_of(kind: PieceKind, color: Color) -> Seq<char> {
    match (kind, color) {
        (PieceKind::General, Color::Red) => seq!['帥'],
        (PieceKind::General, Color::Black) => seq!['將'],
        (PieceKind::Advisor, Color::Red) => seq!['仕'],
        (PieceKind::Advisor, Color::Black) => seq!['士'],
        (PieceKind::Elephant, Color::Red) => seq!['相'],
        (PieceKind::Elephant, Color::Black) => seq!['象'],
        (PieceKind::Horse, _) => seq!['馬'],
        (PieceKind::Chariot, _) => seq!['車'],
        (PieceKind::Cannon, Color::Red) => seq!['炮'],
        (PieceKind::Cannon, Color::Black) => seq!['砲'],
        (PieceKind::Soldier, Color::Red) => seq!['兵'],
        (PieceKind::Soldier, Color::Black) => seq!['卒'],
    }
}

/// A piece's glyph tells its kind, and its colour too except for the horse
/// and the chariot, which both sides draw alike: two pieces share a glyph
/// exactly when they are of one kind and either of one colour or a horse or
/// chariot. Each glyph is a single character.
pub proof fn lemma_glyph_identifies_piece(k1: PieceKind, c1: Color, k2: PieceKind, c2: Color)
    ensures
        glyph_of(k1, c1).len() == 1,
        glyph_of(k1, c1) == glyph_of(k2, c2) <==> (k1 == k2 && (c1 == c2 || k1 == PieceKind::Horse
            || k1 == PieceKind::Chariot)),
{
    let g1 = glyph_of(k1, c1);
    let g2 = glyph_of(k2, c2);
    if g1 == g2 {
        assert(g1[0] == g2[0]);
    }
    if k1 == k2 && (c1 == c2 || k1 == PieceKind::Horse || k1 == PieceKind::Chariot) {
        assert(g1 =~= g2);
    }
}

/// Red draws its pieces from the red set 帥仕相馬車炮兵 and Black from the
/// black set 將士象馬車砲卒: a glyph outside the horse and chariot tells the
/// colour of its piece.
pub proof fn lemma_glyph_of_side(k: PieceKind)
    ensures
        seq!['帥', '仕', '相', '馬', '車', '炮', '兵'].contains(glyph_of(k, Color::Red)[0]),
        seq!['將', '士', '象', '馬', '車', '砲', '卒'].contains(glyph_of(k, Color::Black)[0]),
        k != PieceKind::Horse && k != PieceKind::Chariot ==> !seq![
            '將',
            '士',
            '象',
            '砲',
            '卒',
        ].contains(glyph_of(k, Color::Red)[0]) && !seq!['帥', '仕', '相', '炮', '兵'].contains(
            glyph_of(k, Color::Black)[0],
        ),
{
    let r = seq!['帥', '仕', '相', '馬', '車', '炮', '兵'];
    let b = seq!['將', '士', '象', '馬', '車', '砲', '卒'];
    let br = seq!['將', '士', '象', '砲', '卒'];
    let rb = seq!['帥', '仕', '相', '炮', '兵'];
    let gr = glyph_of(k, Color::Red)[0];
    let gb = glyph_of(k, Color::Black)[0];
    match k {
        PieceKind::General => {
            assert(r[0] == gr);
            assert(b[0] == gb);
        },
        PieceKind::Advisor => {
            assert(r[1] == gr);
            assert(b[1] == gb);
        },
        PieceKind::Elephant => {
            assert(r[2] == gr);
            assert(b[2] == gb);
        },
        PieceKind::Horse => {
            assert(r[3] == gr);
            assert(b[3] == gb);
        },
        PieceKind::Chariot => {
            assert(r[4] == gr);
            assert(b[4] == gb);
        },
        PieceKind::Cannon => {
            assert(r[5] == gr);
            assert(b[5] == gb);
        },
        PieceKind::Soldier => {
            assert(r[6] == gr);
            assert(b[6] == gb);
        },
    }
    assert(forall|i: int| 0 <= i < 5 ==> br[i] != gr);
    assert(forall|i: int| 0 <= i < 5 ==> rb[i] != gb);
}

/// Latin one-letter label of each kind.
pub open spec fn ascii_of(kind: PieceKind) -> Seq<char> {
    match kind {
        PieceKind::General => seq!['K'],
        PieceKind::Advisor => seq!['A'],
        PieceKind::Elephant => seq!['E'],
        PieceKind::Horse => seq!['H'],
        PieceKind::Chariot => seq!['R'],
        PieceKind::Cannon => seq!['C'],
        PieceKind::Soldier => seq!['P'],
    }
}

impl Piece {
    /// Traditional glyph used to draw the piece.
    pub fn glyph(self) -> (s: &'static str)
        ensures
            s@ == glyph_of(self.kind, self.color),
    {
        match (self.kind, self.color) {
            (PieceKind::General, Color::Red) => {
                proof {
                    reveal_strlit("帥");
                }
                "帥"
            },
            (PieceKind::General, Color::Black) => {
                proof {
                    reveal_strlit("將");
                }
                "將"
            },
            (PieceKind::Advisor, Color::Red) => {
                proof {
                    reveal_strlit("仕");
                }
                "仕"
            },
            (PieceKind::Advisor, Color::Black) => {
                proof {
                    reveal_strlit("士");
                }
                "士"
            },
            (PieceKind::Elephant, Color::Red) => {
                proof {
                    reveal_strlit("相");
                }
                "相"
            },
            (PieceKind::Elephant, Color::Black) => {
                proof {
                    reveal_strlit("象");
                }
                "象"
            },
            (PieceKind::Horse, _) => {
                proof {
                    reveal_strlit("馬");
                }
                "馬"
            },
            (PieceKind::Chariot, _) => {
                proof {
                    reveal_strlit("車");
                }
                "車"
            },
            (PieceKind::Cannon, Color::Red) => {
                proof {
                    reveal_strlit("炮");
                }
                "炮"
            },
            (PieceKind::Cannon, Color::Black) => {
                proof {
                    reveal_strlit("砲");
                }
                "砲"
            },
            (PieceKind::Soldier, Color::Red) => {
                proof {
                    reveal_strlit("兵");
                }
                "兵"
            },
            (PieceKind::Soldier, Color::Black) => {
                proof {
                    reveal_strlit("卒");
                }
                "卒"
            },
        }
    }

    /// Latin one-letter label, used when no CJK font is available so the
    /// board stays playable. Colour is conveyed by the disc/ink colour.
    pub fn ascii(self) -> (s: &'static str)
        ensures
            s@ == ascii_of(self.kind),
    {
        match self.kind {
            PieceKind::General => {
                proof {
                    reveal_strlit("K");
                }
                "K"
            },
            PieceKind::Advisor => {
                proof {
                    reveal_strlit("A");
                }
                "A"
            },
            PieceKind::Elephant => {
                proof {
                    reveal_strlit("E");
                }
                "E"
            },
            PieceKind::Horse => {
                proof {
                    reveal_strlit("H");
                }
                "H"
            },
            PieceKind::Chariot => {
                proof {
                    reveal_strlit("R");
                }
                "R"
            },
            PieceKind::Cannon => {
                proof {
                    reveal_strlit("C");
                }
                "C"
            },
            PieceKind::Soldier => {
                proof {
                    reveal_strlit("P");
                }
                "P"
            },
        }
    }
}

// ---------------------------------------------------------------------------
// Coordinates.
// ---------------------------------------------------------------------------
/// Index of the square at (`f`, `r`).
pub open spec fn sq(f: int, r: int) -> int {
    r * 9 + f
}

pub open spec fn file_spec(i: int) -> int {
    i % 9
}

pub open spec fn rank_spec(i: int) -> int {
    i / 9
}

pub open spec fn on_board_spec(f: int, r: int) -> bool {
    0 <= f < 9 && 0 <= r < 10
}

pub open spec fn in_palace_spec(color: Color, f: int, r: int) -> bool {
    3 <= f <= 5 && match color {
        Color::Black => 0 <= r <= 2,
        Color::Red => 7 <= r <= 9,
    }
}

pub open spec fn crossed_river_spec(color: Color, r: int) -> bool {
    match color {
        Color::Red => r <= 4,
        Color::Black => r >= 5,
    }
}

pub open spec fn own_half_spec(color: Color, r: int) -> bool {
    match color {
        Color::Red => r >= 5,
        Color::Black => r <= 4,
    }
}

pub open spec fn forward_spec(color: Color) -> int {
    match color {
        Color::Red => -1,
        Color::Black => 1,
    }
}

/// A square index and its (file, rank) coordinates determine each other.
pub proof fn lemma_sq_coords(f: int, r: int)
    requires
        on_board_spec(f, r),
    ensures
        0 <= sq(f, r) < 90,
        file_spec(sq(f, r)) == f,
        rank_spec(sq(f, r)) == r,
{
    vstd::arithmetic::div_mod::lemma_fundamental_div_mod_converse(sq(f, r), 9, r, f);
}

/// Every square of the board is the square of its own coordinates.
pub proof fn lemma_coords_sq(i: int)
    requires
        0 <= i < 90,
    ensures
        on_board_spec(file_spec(i), rank_spec(i)),
        sq(file_spec(i), rank_spec(i)) == i,
{
    vstd::arithmetic::div_mod::lemma_fundamental_div_mod(i, 9);
}

/// The index of `(file, rank)`: `rank * 9 + file`, each coordinate taken as
/// a `usize`.
pub fn idx(file: i32, rank: i32) -> (i: usize)
    requires
        (rank as usize) as int * 9 + (file as usize) as int <= usize::MAX,
    ensures
        i == (rank as usize) as int * 9 + (file as usize) as int,
        0 <= file && 0 <= rank ==> i == sq(file as int, rank as int),
{
    (rank as usize) * FILES + (file as usize)
}

pub fn file_of(i: usize) -> (f: i32)
    ensures
        f == file_spec(i as int),
{
    (i % FILES) as i32
}

pub fn rank_of(i: usize) -> (r: i32)
    ensures
        r == (i / 9) as i32,
        i < 90 ==> r == rank_spec(i as int),
{
    (i / FILES) as i32
}

pub fn on_board(file: i32, rank: i32) -> (b: bool)
    ensures
        b == on_board_spec(file as int, rank as int),
{
    file >= 0 && file < FILES as i32 && rank >= 0 && rank < RANKS as i32
}

/// Is `(file, rank)` inside the 3x3 palace of `color`?
pub fn in_palace(color: Color, file: i32, rank: i32) -> (b: bool)
    ensures
        b == in_palace_spec(color, file as int, rank as int),
{
    if !(3 <= file && file <= 5) {
        return false;
    }
    match color {
        Color::Black => 0 <= rank && rank <= 2,
        Color::Red => 7 <= rank && rank <= 9,
    }
}

/// Has the piece at `rank` crossed the river, for the given color?
pub fn crossed_river(color: Color, rank: i32) -> (b: bool)
    ensures
        b == crossed_river_spec(color, rank as int),
{
    match color {
        Color::Red => rank <= 4,
        Color::Black => rank >= 5,
    }
}

/// Is `rank` on `color`'s own half (used to keep elephants from crossing)?
pub fn own_half(color: Color, rank: i32) -> (b: bool)
    ensures
        b == own_half_spec(color, rank as int),
{
    match color {
        Color::Red => rank >= 5,
        Color::Black => rank <= 4,
    }
}

/// Forward rank direction for a soldier of `color` (Red advances up = -1).
pub fn forward(color: Color) -> (d: i32)
    ensures
        d == forward_spec(color),
{
    match color {
        Color::Red => -1,
        Color::Black => 1,
    }
}

// ---------------------------------------------------------------------------
// Moves and the board.
// ---------------------------------------------------------------------------
#[derive(Debug, Clone, Copy, PartialEq, Eq, Structural)]
pub struct Move {
    pub from: usize,
    pub to: usize,
}

impl Move {
    /// Both squares of the move lie on the board.
    pub open spec fn in_range(self) -> bool {
        self.from < 90 && self.to < 90
    }
}

#[derive(Debug, Clone, Copy)]
pub struct Board {
    pub cells: [Option<Piece>; CELLS],
}

/// The contents of the square at (`f`, `r`).
pub open spec fn cell_at(cells: Seq<Option<Piece>>, f: int, r: int) -> Option<Piece> {
    cells[sq(f, r)]
}

/// The cell contents after `mv` is played: the mover lands on `to`, `from`
/// empties.
pub open spec fn made(cells: Seq<Option<Piece>>, mv: Move) -> Seq<Option<Piece>> {
    cells.update(mv.to as int, cells[mv.from as int]).update(mv.from as int, None)
}

/// The cell contents after `mv` is taken back, with `captured` put back on
/// the destination.
pub open spec fn unmade(cells: Seq<Option<Piece>>, mv: Move, captured: Option<Piece>) -> Seq<
    Option<Piece>,
> {
    cells.update(mv.from as int, cells[mv.to as int]).update(mv.to as int, captured)
}

/// Taking a move back restores the position it was played from.
pub proof fn lemma_unmake_make(cells: Seq<Option<Piece>>, mv: Move)
    requires
        mv.in_range(),
        cells.len() == 90,
    ensures
        unmade(made(cells, mv), mv, cells[mv.to as int]) == cells,
{
    assert(unmade(made(cells, mv), mv, cells[mv.to as int]) =~= cells);
}

impl Board {
    pub fn empty() -> (b: Self)
        ensures
            forall|i: int| 0 <= i < 90 ==> #[trigger] b.cells@[i] is None,
    {
        Board { cells: [None;CELLS] }
    }

    /// Standard opening position.
    pub fn initial() -> (b: Self)
        ensures
            b.cells@ == initial_cells(),
    {
        let mut b = Board::empty();
        let back = [
            PieceKind::Chariot,
            PieceKind::Horse,
            PieceKind::Elephant,
            PieceKind::Advisor,
            PieceKind::General,
            PieceKind::Advisor,
            PieceKind::Elephant,
            PieceKind::Horse,
            PieceKind::Chariot,
        ];
        // Black at the top (ranks 0..=3).
        let mut f: usize = 0;
        while f < 9
            invariant
                0 <= f <= 9,
                back@ == back_rank(),
                forall|i: int|
                    0 <= i < 90 ==> #[trigger] b.cells@[i] == if i < f as int {
                        Some(Piece { kind: back_rank()[i], color: Color::Black })
                    } else {
                        None::<Piece>
                    },
            decreases 9 - f,
        {
            b.cells[f] = Some(Piece { kind: back[f], color: Color::Black });
            f = f + 1;
        }
        b.cells[idx(1, 2)] = Some(Piece { kind: PieceKind::Cannon, color: Color::Black });
        b.cells[idx(7, 2)] = Some(Piece { kind: PieceKind::Cannon, color: Color::Black });
        let mut f: i32 = 0;
        while f < 9
            invariant
                0 <= f <= 10,
                f % 2 == 0,
                forall|i: int|
                    0 <= i < 90 ==> #[trigger] b.cells@[i] == if 27 <= i <= 35 && i % 2 == 1 {
                        if i < 27 + f {
                            Some(Piece { kind: PieceKind::Soldier, color: Color::Black })
                        } else {
                            None::<Piece>
                        }
                    } else if i < 45 {
                        initial_cell(i)
                    } else {
                        None::<Piece>
                    },
            decreases 10 - f,
        {
            b.cells[idx(f, 3)] = Some(Piece { kind: PieceKind::Soldier, color: Color::Black });
            f = f + 2;
        }
        // Red at the bottom (ranks 6..=9).
        let mut f: usize = 0;
        while f < 9
            invariant
                0 <= f <= 9,
                back@ == back_rank(),
                forall|i: int|
                    0 <= i < 90 ==> #[trigger] b.cells@[i] == if 81 <= i < 81 + f {
                        Some(Piece { kind: back_rank()[i - 81], color: Color::Red })
                    } else if i < 45 {
                        initial_cell(i)
                    } else {
                        None::<Piece>
                    },
            decreases 9 - f,
        {
            b.cells[81 + f] = Some(Piece { kind: back[f], color: Color::Red });
            f = f + 1;
        }
        b.cells[idx(1, 7)] = Some(Piece { kind: PieceKind::Cannon, color: Color::Red });
        b.cells[idx(7, 7)] = Some(Piece { kind: PieceKind::Cannon, color: Color::Red });
        let mut f: i32 = 0;
        while f < 9
            invariant
                0 <= f <= 10,
                f % 2 == 0,
                forall|i: int|
                    0 <= i < 90 ==> #[trigger] b.cells@[i] == if 54 <= i <= 62 && i % 2 == 0 {
                        if i < 54 + f {
                            Some(Piece { kind: PieceKind::Soldier, color: Color::Red })
                        } else {
                            None::<Piece>
                        }
                    } else if i < 45 || i >= 63 {
                        initial_cell(i)
                    } else {
                        None::<Piece>
                    },
            decreases 10 - f,
        {
            b.cells[idx(f, 6)] = Some(Piece { kind: PieceKind::Soldier, color: Color::Red });
            f = f + 2;
        }
        proof {
            assert(b.cells@ =~= initial_cells());
        }
        b
    }

    pub fn get(&self, i: usize) -> (p: Option<Piece>)
        requires
            i < 90,
        ensures
            p == self.cells@[i as int],
    {
        self.cells[i]
    }

    /// Apply a move, returning the captured piece (if any) for later undo.
    pub fn make(&mut self, mv: Move) -> (captured: Option<Piece>)
        requires
            mv.in_range(),
        ensures
            captured == old(self).cells@[mv.to as int],
            final(self).cells@ == made(old(self).cells@, mv),
    {
        let captured = self.cells[mv.to];
        self.cells[mv.to] = self.cells[mv.from];
        self.cells[mv.from] = None;
        captured
    }

    /// Reverse `make`.
    pub fn unmake(&mut self, mv: Move, captured: Option<Piece>)
        requires
            mv.in_range(),
        ensures
            final(self).cells@ == unmade(old(self).cells@, mv, captured),
    {
        self.cells[mv.from] = self.cells[mv.to];
        self.cells[mv.to] = captured;
    }

    pub fn find_general(&self, color: Color) -> (g: Option<usize>)
        ensures
            g == find_general_spec(self.cells@, color),
    {
        let mut i: usize = 0;
        while i < CELLS
            invariant
                0 <= i <= 90,
                find_general_from(self.cells@, color, 0) == find_general_from(
                    self.cells@,
                    color,
                    i as int,
                ),
            decreases 90 - i,
        {
            match self.cells[i] {
                Some(p) => {
                    if p.kind == PieceKind::General && p.color == color {
                        return Some(i);
                    }
                },
                None => {},
            }
            i = i + 1;
        }
        None
    }
}

/// Is there a general of `color` on square `i`?
pub open spec fn is_general_at(cells: Seq<Option<Piece>>, color: Color, i: int) -> bool {
    cells[i] == Some(Piece { kind: PieceKind::General, color })
}

/// The first square, from `i` on, holding a general of `color`.
pub open spec fn find_general_from(cells: Seq<Option<Piece>>, color: Color, i: int) -> Option<
    usize,
>
    decreases 90 - i,
{
    if i >= 90 || i < 0 {
        None
    } else if is_general_at(cells, color, i) {
        Some(i as usize)
    } else {
        find_general_from(cells, color, i + 1)
    }
}

/// The first square holding a general of `color`, if any.
pub open spec fn find_general_spec(cells: Seq<Option<Piece>>, color: Color) -> Option<usize> {
    find_general_from(cells, color, 0)
}

/// The back rank from file 0 to file 8.
pub open spec fn back_rank() -> Seq<PieceKind> {
    seq![
        PieceKind::Chariot,
        PieceKind::Horse,
        PieceKind::Elephant,
        PieceKind::Advisor,
        PieceKind::General,
        PieceKind::Advisor,
        PieceKind::Elephant,
        PieceKind::Horse,
        PieceKind::Chariot,
    ]
}

/// The piece on each square of the standard opening position (square
/// `rank * 9 + file`: Black's back rank is 0..9, its cannons 19 and 25, its
/// soldiers 27..=35 on even files; Red's soldiers 54..=62, cannons 64 and 70,
/// back rank 81..90).
pub open spec fn initial_cell(i: int) -> Option<Piece> {
    if 0 <= i < 9 {
        Some(Piece { kind: back_rank()[i], color: Color::Black })
    } else if i == 19 || i == 25 {
        Some(Piece { kind: PieceKind::Cannon, color: Color::Black })
    } else if 27 <= i <= 35 && i % 2 == 1 {
        Some(Piece { kind: PieceKind::Soldier, color: Color::Black })
    } else if 54 <= i <= 62 && i % 2 == 0 {
        Some(Piece { kind: PieceKind::Soldier, color: Color::Red })
    } else if i == 64 || i == 70 {
        Some(Piece { kind: PieceKind::Cannon, color: Color::Red })
    } else if 81 <= i < 90 {
        Some(Piece { kind: back_rank()[i - 81], color: Color::Red })
    } else {
        None
    }
}

pub open spec fn initial_cells() -> Seq<Option<Piece>> {
    Seq::new(90, |i: int| initial_cell(i))
}

} // verus!
