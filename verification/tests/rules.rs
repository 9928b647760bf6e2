//! Rule-engine tests.
//!
//! Note: in any hand-built position the two generals must NOT sit on the same
//! file with a clear path between them — that is the (illegal) flying-general
//! position and the engine will correctly reject every move from it.

use std::time::Duration;

use xiangqi::ai::search::{SearchEngine, Tuning};
use xiangqi::ai::{make_engine, Engine, EngineKind};
use xiangqi::board::{idx, rank_of, Board, Color, Move, Piece, PieceKind};
use xiangqi::game::{repetition_status, DrawReason, GameState, GameStatus, RepKind, SaveGame};
use xiangqi::moves::{generals_face, in_check, legal_moves, tag_move, MoveTag};

fn place(b: &mut Board, f: i32, r: i32, kind: PieceKind, color: Color) {
    b.cells[idx(f, r)] = Some(Piece { kind, color });
}

/// perft: count leaf nodes of the legal-move tree to `depth`.
fn perft(board: &mut Board, side: Color, depth: u32) -> u64 {
    if depth == 0 {
        return 1;
    }
    let mut nodes = 0;
    for mv in legal_moves(board, side) {
        let cap = board.make(mv);
        nodes += perft(board, side.opposite(), depth - 1);
        board.unmake(mv, cap);
    }
    nodes
}

fn skeleton() -> Board {
    let mut b = Board::empty();
    place(&mut b, 3, 9, PieceKind::General, Color::Red);
    place(&mut b, 5, 0, PieceKind::General, Color::Black);
    b
}

#[test]
fn opening_move_count() {
    let mut b = Board::initial();
    assert_eq!(legal_moves(&mut b, Color::Red).len(), 44);
}

#[test]
fn perft_matches_known_values() {
    // Widely published Xiangqi perft from the initial position.
    let mut b = Board::initial();
    assert_eq!(perft(&mut b, Color::Red, 1), 44);
    assert_eq!(perft(&mut b, Color::Red, 2), 1_920);
    assert_eq!(perft(&mut b, Color::Red, 3), 79_666);
}

#[test]
fn cannon_needs_screen_to_capture() {
    let mut b = skeleton();
    place(&mut b, 0, 5, PieceKind::Cannon, Color::Red);
    place(&mut b, 0, 1, PieceKind::Soldier, Color::Black); // would-be victim

    // No screen between the cannon and the soldier: capture is illegal.
    let ms = legal_moves(&mut b, Color::Red);
    assert!(!ms.iter().any(|m| m.from == idx(0, 5) && m.to == idx(0, 1)));

    // Add a screen; the jump-capture becomes legal.
    place(&mut b, 0, 3, PieceKind::Soldier, Color::Red);
    let ms = legal_moves(&mut b, Color::Red);
    assert!(ms.iter().any(|m| m.from == idx(0, 5) && m.to == idx(0, 1)));
}

#[test]
fn horse_leg_is_blocked() {
    let mut b = skeleton();
    place(&mut b, 4, 4, PieceKind::Horse, Color::Red);
    place(&mut b, 4, 3, PieceKind::Soldier, Color::Red); // blocks the upward leg

    let ms = legal_moves(&mut b, Color::Red);
    assert!(!ms.iter().any(|m| m.from == idx(4, 4) && m.to == idx(3, 2)));
    assert!(!ms.iter().any(|m| m.from == idx(4, 4) && m.to == idx(5, 2)));
    // A sideways jump is unaffected.
    assert!(ms.iter().any(|m| m.from == idx(4, 4) && m.to == idx(2, 3)));
}

#[test]
fn elephant_cannot_cross_river() {
    let mut b = skeleton();
    place(&mut b, 2, 5, PieceKind::Elephant, Color::Red);

    let ms = legal_moves(&mut b, Color::Red);
    assert!(!ms.iter().any(|m| m.to == idx(4, 3))); // would cross the river
    assert!(ms.iter().any(|m| m.from == idx(2, 5) && m.to == idx(4, 7)));
}

#[test]
fn flying_general_is_illegal() {
    let mut b = Board::empty();
    place(&mut b, 4, 9, PieceKind::General, Color::Red);
    place(&mut b, 4, 2, PieceKind::General, Color::Black);
    assert!(generals_face(&b)); // clear file 4 between generals

    // A Red chariot on file 4 currently shields the generals.
    place(&mut b, 4, 5, PieceKind::Chariot, Color::Red);
    assert!(!generals_face(&b));
    let ms = legal_moves(&mut b, Color::Red);
    // It may not step off file 4 (that re-exposes the generals)...
    assert!(!ms.iter().any(|m| m.from == idx(4, 5) && rank_of(m.to) == 5));
    // ...but sliding along file 4 is fine.
    assert!(ms.iter().any(|m| m.from == idx(4, 5) && m.to == idx(4, 6)));
}

#[test]
fn detects_checkmate() {
    // Classic two-chariot mate against a bare Black general.
    let mut g = GameState::new();
    g.board = Board::empty();
    place(&mut g.board, 4, 0, PieceKind::General, Color::Black);
    place(&mut g.board, 0, 9, PieceKind::General, Color::Red); // off to the side
    place(&mut g.board, 0, 0, PieceKind::Chariot, Color::Red); // checks along rank 0
    place(&mut g.board, 5, 1, PieceKind::Chariot, Color::Red); // covers (4,1) and (5,0)
    g.side_to_move = Color::Black;

    assert!(in_check(&g.board, Color::Black));
    assert_eq!(g.status(), GameStatus::Win(Color::Red));
}

#[test]
fn detects_check_but_not_mate() {
    // Same idea, but the escape square (4,1) is not covered: only check.
    let mut g = GameState::new();
    g.board = Board::empty();
    place(&mut g.board, 4, 0, PieceKind::General, Color::Black);
    place(&mut g.board, 0, 9, PieceKind::General, Color::Red);
    place(&mut g.board, 0, 0, PieceKind::Chariot, Color::Red);
    g.side_to_move = Color::Black;

    assert!(in_check(&g.board, Color::Black));
    assert_eq!(g.status(), GameStatus::Check(Color::Black));
}

#[test]
fn threefold_repetition_is_a_draw() {
    // Both sides shuffle a knight back and forth. After two full cycles the
    // start position has occurred three times -> draw.
    let mut g = GameState::new();
    let cycle = [
        Move { from: idx(1, 9), to: idx(2, 7) }, // Red horse out
        Move { from: idx(1, 0), to: idx(2, 2) }, // Black horse out
        Move { from: idx(2, 7), to: idx(1, 9) }, // Red horse back
        Move { from: idx(2, 2), to: idx(1, 0) }, // Black horse back
    ];
    for _ in 0..2 {
        for mv in cycle {
            assert!(g.is_legal(mv), "shuffle move should be legal: {mv:?}");
            g.apply(mv);
        }
    }
    // Both sides idle every move, so a plain positional repetition is a draw.
    assert_eq!(g.status(), GameStatus::Draw(DrawReason::Repetition));
}

// --- CCA / Asian repetition rules ------------------------------------------

#[test]
fn tag_move_check_chase_idle() {
    // Check: a chariot move that gives check.
    let mut b = Board::empty();
    place(&mut b, 0, 9, PieceKind::General, Color::Red);
    place(&mut b, 4, 0, PieceKind::General, Color::Black);
    place(&mut b, 4, 5, PieceKind::Chariot, Color::Red);
    let mv = Move { from: idx(4, 5), to: idx(4, 1) }; // file 4 -> checks Bgen
    assert_eq!(tag_move(&b, mv, Color::Red), MoveTag::Check);

    // Chase: rook swings to attack an *undefended* horse, no check.
    let mut b = Board::empty();
    place(&mut b, 0, 9, PieceKind::General, Color::Red);
    place(&mut b, 8, 0, PieceKind::General, Color::Black);
    place(&mut b, 0, 4, PieceKind::Chariot, Color::Red);
    place(&mut b, 4, 2, PieceKind::Horse, Color::Black);
    let chase = Move { from: idx(0, 4), to: idx(4, 4) }; // then threatens (4,2)
    assert_eq!(tag_move(&b, chase, Color::Red), MoveTag::Chase);

    // Same, but the horse is defended by a soldier: an unfavourable trade is
    // not a chase -> idle.
    place(&mut b, 4, 1, PieceKind::Soldier, Color::Black); // Black pawn guards (4,2)
    assert_eq!(tag_move(&b, chase, Color::Red), MoveTag::Idle);

    // A pawn doing the threatening is idle (兵之捉算闲), never a chase.
    let mut b = Board::empty();
    place(&mut b, 0, 9, PieceKind::General, Color::Red);
    place(&mut b, 8, 0, PieceKind::General, Color::Black);
    place(&mut b, 5, 4, PieceKind::Soldier, Color::Red); // crossed-river pawn
    place(&mut b, 4, 3, PieceKind::Horse, Color::Black); // undefended
    let pawn = Move { from: idx(5, 4), to: idx(5, 3) }; // then pawn eyes (4,3)
    assert_eq!(tag_move(&b, pawn, Color::Red), MoveTag::Idle);
}

#[test]
fn perpetual_check_loses() {
    // Red chariot perpetually checks a bare Black king; Black only shuffles.
    // Red is 长将 -> Red loses, Black wins.
    let mut b = Board::empty();
    place(&mut b, 3, 9, PieceKind::General, Color::Red);
    place(&mut b, 4, 0, PieceKind::General, Color::Black);
    place(&mut b, 0, 0, PieceKind::Chariot, Color::Red); // checks Bgen on rank 0
    let mut g = GameState::with_position(b, Color::Black); // Black in check

    let cycle = [
        Move { from: idx(4, 0), to: idx(4, 1) }, // Black king escapes
        Move { from: idx(0, 0), to: idx(0, 1) }, // Red re-checks on rank 1
        Move { from: idx(4, 1), to: idx(4, 0) }, // Black king back
        Move { from: idx(0, 1), to: idx(0, 0) }, // Red re-checks on rank 0
    ];
    for _ in 0..2 {
        for mv in cycle {
            assert!(g.is_legal(mv), "cycle move should be legal: {mv:?}");
            g.apply(mv);
        }
    }
    assert_eq!(
        g.status(),
        GameStatus::PerpetualLoss { winner: Color::Black, kind: RepKind::Check }
    );
}

#[test]
fn perpetual_chase_loses() {
    // Red chariot oscillates on file 4, attacking a fixed undefended Black
    // horse every move (长捉); Black shuffles an idle horse far away.
    let mut b = Board::empty();
    place(&mut b, 0, 9, PieceKind::General, Color::Red);
    place(&mut b, 4, 0, PieceKind::General, Color::Black);
    place(&mut b, 4, 9, PieceKind::Chariot, Color::Red); // eyes horse down file 4
    place(&mut b, 4, 4, PieceKind::Horse, Color::Black); // undefended target
    place(&mut b, 0, 0, PieceKind::Horse, Color::Black); // idle shuffler
    let mut g = GameState::with_position(b, Color::Red);

    let cycle = [
        Move { from: idx(4, 9), to: idx(4, 8) }, // Red keeps chasing the horse
        Move { from: idx(0, 0), to: idx(2, 1) }, // Black idles
        Move { from: idx(4, 8), to: idx(4, 9) }, // Red keeps chasing
        Move { from: idx(2, 1), to: idx(0, 0) }, // Black idles back
    ];
    for _ in 0..2 {
        for mv in cycle {
            assert!(g.is_legal(mv), "cycle move should be legal: {mv:?}");
            g.apply(mv);
        }
    }
    assert_eq!(
        g.status(),
        GameStatus::PerpetualLoss { winner: Color::Black, kind: RepKind::Chase }
    );
}

#[test]
fn defended_chase_is_a_draw() {
    // Same shape, but the horse is defended so taking it loses material: the
    // rook's moves are not a chase -> both sides idle -> draw.
    let mut b = Board::empty();
    place(&mut b, 0, 9, PieceKind::General, Color::Red);
    place(&mut b, 4, 0, PieceKind::General, Color::Black);
    place(&mut b, 4, 9, PieceKind::Chariot, Color::Red);
    place(&mut b, 4, 4, PieceKind::Horse, Color::Black);
    place(&mut b, 4, 3, PieceKind::Soldier, Color::Black); // guards the horse
    place(&mut b, 0, 0, PieceKind::Horse, Color::Black);
    let mut g = GameState::with_position(b, Color::Red);

    let cycle = [
        Move { from: idx(4, 9), to: idx(4, 8) },
        Move { from: idx(0, 0), to: idx(2, 1) },
        Move { from: idx(4, 8), to: idx(4, 9) },
        Move { from: idx(2, 1), to: idx(0, 0) },
    ];
    for _ in 0..2 {
        for mv in cycle {
            assert!(g.is_legal(mv), "cycle move should be legal: {mv:?}");
            g.apply(mv);
        }
    }
    assert_eq!(g.status(), GameStatus::Draw(DrawReason::Repetition));
}

#[test]
fn repetition_decision_table_all_arms() {
    let (black, red) = (Color::Black, Color::Red);
    let draw = GameStatus::Draw(DrawReason::Repetition);
    let chk = RepKind::Check;
    let cha = RepKind::Chase;
    let loss = |w, k| GameStatus::PerpetualLoss { winner: w, kind: k };

    // Both idle, or both committing the same offence -> draw.
    assert_eq!(repetition_status(0, cha, 0, cha), draw);
    assert_eq!(repetition_status(2, chk, 2, chk), draw);
    assert_eq!(repetition_status(1, cha, 1, cha), draw);
    // Exactly one side offends, the other idle -> offender loses.
    assert_eq!(repetition_status(2, chk, 0, cha), loss(black, chk)); // Red 长将
    assert_eq!(repetition_status(1, cha, 0, cha), loss(black, cha)); // Red 长捉
    assert_eq!(repetition_status(0, cha, 2, chk), loss(red, chk)); // Black 长将
    assert_eq!(repetition_status(0, cha, 1, cha), loss(red, cha)); // Black 长捉
    // 一将一捉: the perpetual-checking side loses (长将 is heavier).
    assert_eq!(repetition_status(2, chk, 1, cha), loss(black, chk)); // Red checks
    assert_eq!(repetition_status(1, cha, 2, chk), loss(red, chk)); // Black checks
}

#[test]
fn repetition_score_parity() {
    // Synthetic 4-ply cycle: path[0] is the repeating key K. The cycle moves
    // (by parity) split into the side-to-move's moves and the opponent's;
    // `repetition_score` must rule perpetual check for whichever side checks
    // on *all* of its cycle moves.
    let k = 42u64;
    let path = [k, 7, 8, 9];
    let mut e = SearchEngine::fixed_depth(1);
    let ply = 5;

    // self (side to move) checks every one of its cycle moves, opponent not.
    let s = e.repetition_score_probe(&path, &[false, true, false, true], k, ply, true);
    assert!(s < -20_000, "side perpetually checks -> it loses: {s}");

    // opponent checks every one of its moves, self not.
    let s = e.repetition_score_probe(&path, &[false, false, true, false], k, ply, true);
    assert!(s > 20_000, "opponent perpetually checks -> we win: {s}");

    // mutual perpetual check -> draw.
    let s = e.repetition_score_probe(&path, &[false, true, true, true], k, ply, true);
    assert_eq!(s, 0, "mutual perpetual check is a draw");

    // no side checks throughout -> not perpetual check -> draw (0).
    let s = e.repetition_score_probe(&path, &[false, false, false, false], k, ply, false);
    assert_eq!(s, 0, "no perpetual check -> draw");

    // Repetition formed off-path (key absent from path) -> draw fallback.
    let s = e.repetition_score_probe(&[1, 2, 3], &[false, false, false], 99, ply, true);
    assert_eq!(s, 0, "off-path repetition falls back to draw");
}

#[test]
fn ai_returns_a_legal_move() {
    let mut g = GameState::new();
    let mut engine = make_engine(EngineKind::AlphaBeta, 2, Color::Red);
    let mv = engine.best_move(&g).expect("engine should find a move");
    assert!(g.is_legal(mv));
}

/// Several requested worker threads: every returned move must still be legal
/// and the game must progress without a panic or hang.
#[test]
fn smp_engine_plays_legal_moves() {
    let mut g = GameState::new();
    let mut e = SearchEngine::new_tuned(64, Duration::from_millis(40), Tuning::full(), 18)
        .with_threads(4);
    for _ in 0..12 {
        if !matches!(g.status(), GameStatus::Ongoing | GameStatus::Check(_)) {
            break;
        }
        let mv = e.best_move(&g).expect("a legal move");
        assert!(g.is_legal(mv), "SMP returned an illegal move: {mv:?}");
        g.apply(mv);
    }
}

#[test]
fn engine_finds_mate_in_one() {
    // Red to move; sliding the chariot to (5,1) mates the bare Black general
    // (covered by the rank-0 chariot + this one).
    let mut g = GameState::new();
    g.board = Board::empty();
    place(&mut g.board, 4, 0, PieceKind::General, Color::Black);
    place(&mut g.board, 0, 9, PieceKind::General, Color::Red);
    place(&mut g.board, 0, 0, PieceKind::Chariot, Color::Red); // checks along rank 0
    place(&mut g.board, 8, 1, PieceKind::Chariot, Color::Red); // one step from the mate
    g.side_to_move = Color::Red;

    let mut engine = SearchEngine::fixed_depth(3);
    let mv = engine.best_move(&g).expect("a move");
    g.apply(mv);
    assert_eq!(g.status(), GameStatus::Win(Color::Red));
}

#[test]
fn engine_grabs_free_material() {
    // Red chariot can capture an undefended Black chariot down the file.
    let mut g = GameState::new();
    g.board = Board::empty();
    place(&mut g.board, 3, 9, PieceKind::General, Color::Red);
    place(&mut g.board, 5, 0, PieceKind::General, Color::Black);
    place(&mut g.board, 4, 4, PieceKind::Chariot, Color::Red);
    place(&mut g.board, 4, 7, PieceKind::Chariot, Color::Black);
    g.side_to_move = Color::Red;

    let mut engine = SearchEngine::fixed_depth(4);
    let mv = engine.best_move(&g).expect("a move");
    assert_eq!(mv, Move { from: idx(4, 4), to: idx(4, 7) });
}

#[test]
fn from_save_rejects_corrupt_history() {
    // An out-of-range move index must be rejected, not panic on replay.
    let mut g = GameState::new();
    g.apply(Move { from: idx(1, 9), to: idx(2, 7) });
    let mut save = g.to_save();
    save.history.push((Move { from: 999, to: 0 }, None));
    assert!(GameState::from_save(save).is_none());
}

// --- JSON round trip of a save, the values built by calls -------------------

fn color_json(c: Color) -> serde_json::Value {
    serde_json::Value::String(if c == Color::Red { "Red" } else { "Black" }.to_owned())
}

fn color_of(v: &serde_json::Value) -> Color {
    if v.as_str() == Some("Red") {
        Color::Red
    } else {
        Color::Black
    }
}

const KINDS: [PieceKind; 7] = [
    PieceKind::General,
    PieceKind::Advisor,
    PieceKind::Elephant,
    PieceKind::Horse,
    PieceKind::Chariot,
    PieceKind::Cannon,
    PieceKind::Soldier,
];

fn piece_json(p: Option<Piece>) -> serde_json::Value {
    match p {
        None => serde_json::Value::Null,
        Some(p) => {
            let mut m = serde_json::Map::new();
            let k = KINDS.iter().position(|k| *k == p.kind).unwrap();
            m.insert("kind".to_owned(), serde_json::Value::from(k as u64));
            m.insert("color".to_owned(), color_json(p.color));
            serde_json::Value::Object(m)
        }
    }
}

fn piece_of(v: &serde_json::Value) -> Option<Piece> {
    if v.is_null() {
        return None;
    }
    let kind = KINDS[v.get("kind").unwrap().as_u64().unwrap() as usize];
    Some(Piece { kind, color: color_of(v.get("color").unwrap()) })
}

fn move_json(m: Move) -> serde_json::Value {
    serde_json::Value::Array(vec![
        serde_json::Value::from(m.from as u64),
        serde_json::Value::from(m.to as u64),
    ])
}

fn move_of(v: &serde_json::Value) -> Move {
    let a = v.as_array().unwrap();
    Move { from: a[0].as_u64().unwrap() as usize, to: a[1].as_u64().unwrap() as usize }
}

fn save_json(s: &SaveGame) -> serde_json::Value {
    let mut m = serde_json::Map::new();
    m.insert("format".to_owned(), serde_json::Value::from(s.format as u64));
    m.insert(
        "cells".to_owned(),
        serde_json::Value::Array(s.cells.iter().map(|c| piece_json(*c)).collect()),
    );
    m.insert("side_to_move".to_owned(), color_json(s.side_to_move));
    m.insert(
        "history".to_owned(),
        serde_json::Value::Array(
            s.history
                .iter()
                .map(|(mv, cap)| serde_json::Value::Array(vec![move_json(*mv), piece_json(*cap)]))
                .collect(),
        ),
    );
    m.insert(
        "log".to_owned(),
        serde_json::Value::Array(s.log.iter().map(|l| serde_json::Value::String(l.clone())).collect()),
    );
    m.insert(
        "last_move".to_owned(),
        match s.last_move {
            Some(mv) => move_json(mv),
            None => serde_json::Value::Null,
        },
    );
    serde_json::Value::Object(m)
}

fn save_of(v: &serde_json::Value) -> SaveGame {
    SaveGame {
        format: v.get("format").unwrap().as_u64().unwrap() as u32,
        cells: v.get("cells").unwrap().as_array().unwrap().iter().map(piece_of).collect(),
        side_to_move: color_of(v.get("side_to_move").unwrap()),
        history: v
            .get("history")
            .unwrap()
            .as_array()
            .unwrap()
            .iter()
            .map(|e| {
                let pair = e.as_array().unwrap();
                (move_of(&pair[0]), piece_of(&pair[1]))
            })
            .collect(),
        log: v
            .get("log")
            .unwrap()
            .as_array()
            .unwrap()
            .iter()
            .map(|l| l.as_str().unwrap().to_owned())
            .collect(),
        last_move: {
            let lm = v.get("last_move").unwrap();
            if lm.is_null() {
                None
            } else {
                Some(move_of(lm))
            }
        },
    }
}

#[test]
fn save_load_roundtrip() {
    let mut g = GameState::new();
    let mv = *g.legal_moves().first().unwrap();
    g.apply(mv);
    let json = serde_json::to_string(&save_json(&g.to_save())).unwrap();
    let parsed: serde_json::Value = serde_json::from_str(&json).unwrap();
    let restored = GameState::from_save(save_of(&parsed)).unwrap();
    assert_eq!(restored.side_to_move, g.side_to_move);
    assert_eq!(restored.log, g.log);
    assert_eq!(restored.board.cells, g.board.cells);
}
