//! Static Exchange Evaluation on hand-built positions. Coordinates are in
//! Red orientation (rank 9 = Red home, rank 0 = Black home); piece values
//! come from `piece_value` (Chariot 1000, Soldier 100).
use xiangqi::ai::search::see;
use xiangqi::board::{idx, Board, Color, Move, Piece, PieceKind};

fn put(b: &mut Board, f: i32, r: i32, kind: PieceKind, color: Color) {
    b.cells[idx(f, r)] = Some(Piece { kind, color });
}

fn mv(f0: i32, r0: i32, f1: i32, r1: i32) -> Move {
    Move { from: idx(f0, r0), to: idx(f1, r1) }
}

/// Generals parked in their palaces, off file 4, so they never attack the
/// exchange square and `pseudo_moves` always has a side to enumerate.
fn with_generals(b: &mut Board) {
    put(b, 3, 9, PieceKind::General, Color::Red);
    put(b, 5, 0, PieceKind::General, Color::Black);
}

#[test]
fn undefended_capture_wins_the_victim() {
    let mut b = Board::empty();
    with_generals(&mut b);
    put(&mut b, 4, 5, PieceKind::Chariot, Color::Red);
    put(&mut b, 4, 3, PieceKind::Soldier, Color::Black); // undefended
    assert_eq!(see(&mut b, mv(4, 5, 4, 3)), 100);
}

#[test]
fn rook_takes_pawn_defended_by_rook_is_losing() {
    let mut b = Board::empty();
    with_generals(&mut b);
    put(&mut b, 4, 5, PieceKind::Chariot, Color::Red);
    put(&mut b, 4, 3, PieceKind::Soldier, Color::Black);
    put(&mut b, 4, 1, PieceKind::Chariot, Color::Black); // recaptures
    // +100 (pawn) − 1000 (own rook lost) = −900.
    assert_eq!(see(&mut b, mv(4, 5, 4, 3)), -900);
}

#[test]
fn equal_rook_trade_is_zero() {
    let mut b = Board::empty();
    with_generals(&mut b);
    put(&mut b, 4, 5, PieceKind::Chariot, Color::Red);
    put(&mut b, 4, 3, PieceKind::Chariot, Color::Black);
    put(&mut b, 4, 1, PieceKind::Chariot, Color::Black); // recaptures
    assert_eq!(see(&mut b, mv(4, 5, 4, 3)), 0);
}

#[test]
fn recapturer_declines_when_recapture_loses() {
    // Red Sx pawn; Black rook *could* recapture but a Red rook x-rays
    // behind it, so taking back loses the rook — Black declines and the
    // exchange nets Red the pawn.
    let mut b = Board::empty();
    with_generals(&mut b);
    put(&mut b, 4, 4, PieceKind::Soldier, Color::Red);
    put(&mut b, 4, 3, PieceKind::Soldier, Color::Black);
    put(&mut b, 4, 1, PieceKind::Chariot, Color::Black);
    put(&mut b, 4, 0, PieceKind::Chariot, Color::Red); // x-ray defender
    assert_eq!(see(&mut b, mv(4, 4, 4, 3)), 100);
}

#[test]
fn see_restores_the_board_exactly() {
    let mut b = Board::empty();
    with_generals(&mut b);
    put(&mut b, 4, 5, PieceKind::Chariot, Color::Red);
    put(&mut b, 4, 3, PieceKind::Soldier, Color::Black);
    put(&mut b, 4, 1, PieceKind::Chariot, Color::Black);
    let before = b.cells;
    let _ = see(&mut b, mv(4, 5, 4, 3));
    assert!(b.cells == before, "SEE must leave the board untouched");
}

#[test]
fn a_move_onto_its_own_square_values_the_piece_and_restores_the_board() {
    let mut b = Board::empty();
    with_generals(&mut b);
    put(&mut b, 0, 5, PieceKind::Chariot, Color::Red);
    let before = b.cells;
    assert_eq!(see(&mut b, mv(0, 5, 0, 5)), 1000);
    assert!(b.cells == before);
}
