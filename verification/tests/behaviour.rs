//! Further checks on concrete values: the round trips, the notation, the
//! opening book, the engine setups and the session's messages.
use xiangqi::ai::alphazero::{is_ready_line, parse_move};
use xiangqi::ai::book::{book_move, weighted_pick};
use xiangqi::ai::search::{choose_root_move, push_decimal};
use xiangqi::ai::{make_engine, Engine, EngineKind, EngineSetup};
use xiangqi::board::{idx, Board, Color, Move, Piece, PieceKind};
use xiangqi::game::{file_letter, rank_label, DrawReason, GameState, GameStatus, SaveGame};
use xiangqi::moves::{legal_moves, piece_value};
use xiangqi::ui::app::XiangqiApp;

fn place(b: &mut Board, f: i32, r: i32, kind: PieceKind, color: Color) {
    b.cells[idx(f, r)] = Some(Piece { kind, color });
}

#[test]
fn make_then_unmake_restores_the_board() {
    let mut b = Board::initial();
    let before = b.cells;
    let mv = Move { from: idx(1, 7), to: idx(1, 0) }; // cannon takes the horse
    let cap = b.make(mv);
    assert_eq!(cap, Some(Piece { kind: PieceKind::Horse, color: Color::Black }));
    assert_ne!(b.cells, before);
    b.unmake(mv, cap);
    assert_eq!(b.cells, before);
}

#[test]
fn legal_moves_leave_the_board_untouched() {
    let mut b = Board::initial();
    let before = b.cells;
    let _ = legal_moves(&mut b, Color::Black);
    assert_eq!(b.cells, before);
}

#[test]
fn apply_then_undo_restores_the_game() {
    let mut g = GameState::new();
    g.apply(Move { from: idx(1, 9), to: idx(2, 7) });
    let board = g.board.cells;
    let log = g.log.clone();
    let last = g.last_move;
    g.apply(Move { from: idx(7, 0), to: idx(6, 2) });
    assert!(g.undo());
    assert_eq!(g.board.cells, board);
    assert_eq!(g.log, log);
    assert_eq!(g.last_move, last);
    assert_eq!(g.side_to_move, Color::Black);
    assert_eq!(g.history.len(), 1);
    assert!(g.undo());
    assert!(!g.undo(), "nothing left to take back");
    assert_eq!(g.board.cells, Board::initial().cells);
    assert_eq!(g.last_move, None);
}

#[test]
fn notation_names_piece_and_squares() {
    let mut g = GameState::new();
    g.apply(Move { from: idx(7, 7), to: idx(4, 7) }); // 中炮
    assert_eq!(g.log[0], "炮 H3→E3");
    g.apply(Move { from: idx(1, 0), to: idx(2, 2) });
    assert_eq!(g.log[1], "馬 B10→C8");
    assert_eq!(file_letter(idx(8, 0)), 'I');
    assert_eq!(rank_label(idx(0, 0)), 10);
    assert_eq!(rank_label(idx(0, 9)), 1);
}

#[test]
fn piece_values_are_the_single_scale() {
    assert_eq!(piece_value(PieceKind::General), 10_000);
    assert_eq!(piece_value(PieceKind::Chariot), 1_000);
    assert_eq!(piece_value(PieceKind::Cannon), 450);
    assert_eq!(piece_value(PieceKind::Horse), 400);
    assert_eq!(piece_value(PieceKind::Advisor), 200);
    assert_eq!(piece_value(PieceKind::Elephant), 200);
    assert_eq!(piece_value(PieceKind::Soldier), 100);
}

#[test]
fn save_then_load_keeps_repetition_history() {
    // Two shuffles bring the start position back a third time: a draw, and
    // still a draw after saving and loading, since the hashes are rebuilt.
    let mut g = GameState::new();
    let cycle = [
        Move { from: idx(1, 9), to: idx(2, 7) },
        Move { from: idx(1, 0), to: idx(2, 2) },
        Move { from: idx(2, 7), to: idx(1, 9) },
        Move { from: idx(2, 2), to: idx(1, 0) },
    ];
    for _ in 0..2 {
        for mv in cycle {
            g.apply(mv);
        }
    }
    let mut h = GameState::from_save(g.to_save()).expect("a fresh save loads");
    assert_eq!(h.board.cells, g.board.cells);
    assert_eq!(h.history, g.history);
    assert_eq!(h.log, g.log);
    assert_eq!(h.status(), GameStatus::Draw(DrawReason::Repetition));
}

#[test]
fn from_save_refuses_newer_format_and_short_board() {
    let g = GameState::new();
    let mut newer: SaveGame = g.to_save();
    newer.format = 2;
    assert!(GameState::from_save(newer).is_none());
    let mut short = g.to_save();
    short.cells.pop();
    assert!(GameState::from_save(short).is_none());
    let mut old = g.to_save();
    old.format = 0; // pre-versioning saves still load
    assert!(GameState::from_save(old).is_some());
}

#[test]
fn stalemate_loses_for_the_side_to_move() {
    let mut g = GameState::new();
    g.board = Board::empty();
    place(&mut g.board, 3, 0, PieceKind::General, Color::Black);
    place(&mut g.board, 5, 9, PieceKind::General, Color::Red);
    place(&mut g.board, 8, 1, PieceKind::Chariot, Color::Red); // covers rank 1
    place(&mut g.board, 4, 8, PieceKind::Chariot, Color::Red); // covers file 4
    g.side_to_move = Color::Black;
    assert_eq!(g.status(), GameStatus::Stalemate(Color::Red));
}

#[test]
fn sixty_moves_without_capture_draw() {
    let mut g = GameState::new();
    for _ in 0..120 {
        g.history.push((Move { from: idx(0, 9), to: idx(0, 8) }, None));
    }
    assert_eq!(g.status(), GameStatus::Draw(DrawReason::NoCapture));
    g.history.push((Move { from: idx(0, 9), to: idx(0, 8) }, Some(Piece { kind: PieceKind::Soldier, color: Color::Black })));
    assert_eq!(g.status(), GameStatus::Ongoing);
}

#[test]
fn book_plays_known_openings_only_at_the_start() {
    let mut g = GameState::new();
    for rnd in [0u64, 1, 49, 50, 99, 12_345] {
        let mv = book_move(&g, rnd).expect("the start position is in the book");
        assert!(g.is_legal(mv));
    }
    // rnd 0 picks the first candidate; every candidate is a book move.
    g.apply(Move { from: idx(7, 7), to: idx(4, 7) });
    assert!(book_move(&g, 7).is_some());
    g.apply(Move { from: idx(1, 0), to: idx(2, 2) });
    assert_eq!(book_move(&g, 7), None, "only each side's first move");
}

#[test]
fn engine_setups_follow_the_difficulty() {
    for (d, sims) in [(0u8, 40u32), (1, 40), (2, 100), (3, 200), (4, 400), (5, 800), (9, 800)] {
        match make_engine(EngineKind::AlphaZero, d, Color::Red) {
            EngineSetup::AlphaZero { sims: s } => assert_eq!(s, sims),
            EngineSetup::AlphaBeta(_) => panic!("wrong engine"),
        }
    }
    assert!(matches!(make_engine(EngineKind::AlphaBeta, 3, Color::Black), EngineSetup::AlphaBeta(_)));
    assert_eq!(EngineKind::AlphaBeta.label(), "内置 AlphaBeta");
    assert_eq!(EngineKind::AlphaZero.label(), "AlphaZero");
}

#[test]
fn engine_names_give_depth_budget_and_simulations() {
    assert_eq!(make_engine(EngineKind::AlphaBeta, 1, Color::Red).name(), "AlphaBeta (depth≤3, 120ms)");
    assert_eq!(make_engine(EngineKind::AlphaBeta, 5, Color::Red).name(), "AlphaBeta (depth≤14, 4.5s)");
    assert_eq!(make_engine(EngineKind::AlphaZero, 3, Color::Black).name(), "AlphaZero (MCTS sims=200)");
    assert_eq!(make_engine(EngineKind::AlphaZero, 9, Color::Black).name(), "AlphaZero (MCTS sims=800)");
}

#[test]
fn decimal_digits_are_appended() {
    for (n, text) in [(0u32, "x0"), (7, "x7"), (10, "x10"), (305, "x305"), (u32::MAX, "x4294967295")] {
        let mut s = String::from("x");
        push_decimal(&mut s, n);
        assert_eq!(s, text);
    }
}

#[test]
fn status_line_names_the_side_to_move() {
    let mut app = XiangqiApp::headless();
    assert_eq!(app.status_text(), "轮到 红方（你）");
    app.handle_screen_click(0, 6);
    app.handle_screen_click(0, 5);
    assert_eq!(app.status_text(), "轮到 黑方（内置 AlphaBeta）");
}

#[test]
fn engine_turns_start_only_for_engine_sides() {
    let mut app = XiangqiApp::headless();
    assert_eq!(app.begin_ai_turn(), None, "the human is to move");
    app.handle_screen_click(0, 6);
    app.handle_screen_click(0, 5);
    let id = app.req_id;
    assert_eq!(app.begin_ai_turn(), Some((id, Color::Black)));
    assert!(app.thinking);
    assert_eq!(app.begin_ai_turn(), None, "already thinking");
    // An illegal reply stops the engine loop with a message.
    app.finish_ai_turn(id, Some(Move { from: idx(0, 0), to: idx(8, 8) }));
    assert!(!app.thinking);
    assert!(app.ai_stalled);
    assert!(app.message.starts_with("AI 无法走子"));
    assert_eq!(app.game.history.len(), 1);
}

#[test]
fn a_legal_engine_reply_is_played() {
    let mut app = XiangqiApp::headless();
    app.handle_screen_click(0, 6);
    app.handle_screen_click(0, 5);
    let (id, _) = app.begin_ai_turn().unwrap();
    app.finish_ai_turn(id, Some(Move { from: idx(0, 3), to: idx(0, 4) }));
    assert_eq!(app.game.history.len(), 2);
    assert_eq!(app.game.side_to_move, Color::Red);
    // A stale reply is dropped.
    app.finish_ai_turn(id.wrapping_sub(1), Some(Move { from: idx(0, 5), to: idx(0, 4) }));
    assert_eq!(app.game.history.len(), 2);
}

#[test]
fn legal_targets_of_the_selection() {
    let mut app = XiangqiApp::headless();
    assert!(app.legal_targets().is_empty());
    app.handle_screen_click(0, 6);
    assert_eq!(app.legal_targets(), vec![idx(0, 5)]);
}

#[test]
fn loading_a_save_resets_the_session() {
    let mut a = XiangqiApp::headless();
    a.handle_screen_click(0, 6);
    a.handle_screen_click(0, 5);
    let save = a.game.to_save();
    let mut b = XiangqiApp::headless();
    b.load_save(save);
    assert_eq!(b.message, "已从 xiangqi_save.json 载入");
    assert_eq!(b.game.board.cells, a.game.board.cells);
    assert_eq!(b.game.side_to_move, Color::Black);
    let mut bad = a.game.to_save();
    bad.format = 7;
    b.load_save(bad);
    assert_eq!(b.message, "存档数据无效");
    assert_eq!(b.game.board.cells, a.game.board.cells);
}

#[test]
fn undo_is_ignored_while_thinking() {
    let mut app = XiangqiApp::headless();
    app.handle_screen_click(0, 6);
    app.handle_screen_click(0, 5);
    assert!(app.begin_ai_turn().is_some());
    app.undo();
    assert_eq!(app.game.history.len(), 1);
}

#[test]
fn resigning_twice_changes_nothing() {
    let mut app = XiangqiApp::headless();
    app.resign();
    let id = app.req_id;
    app.resign();
    assert_eq!(app.req_id, id);
    assert_eq!(app.status_text(), "认输！黑方 胜");
}

#[test]
fn root_choice_takes_the_pool_entry_of_the_random_word() {
    let m = |f: usize, t: usize| Move { from: f, to: t };
    let scored = vec![(m(1, 2), 10), (m(3, 4), 50), (m(5, 6), 45), (m(7, 8), 50)];
    // Exact ties only: the pool is the two 50s.
    assert_eq!(choose_root_move(&scored, false, 0), m(3, 4));
    assert_eq!(choose_root_move(&scored, false, 1), m(7, 8));
    assert_eq!(choose_root_move(&scored, false, 5), m(7, 8));
    // Opening: everything within 80 of the best joins, in order.
    assert_eq!(choose_root_move(&scored, true, 2), m(5, 6));
    assert_eq!(choose_root_move(&scored, true, 4), m(1, 2));
    // A found mate is not diluted with a slower one.
    let mates = vec![(m(1, 2), 29_990), (m(3, 4), 29_985)];
    assert_eq!(choose_root_move(&mates, true, 1), m(1, 2));
    // No score reaches the cutoff: the first move.
    let low = vec![(m(1, 2), -40_000), (m(3, 4), -40_000)];
    assert_eq!(choose_root_move(&low, false, 1), m(1, 2));
}

#[test]
fn book_pick_follows_the_weights_in_legal_move_order() {
    let g = GameState::new();
    // Candidates in order: soldier 56->47 (10), soldier 60->51 (10), cannon 64->67 (50), ...
    assert_eq!(book_move(&g, 0), Some(Move { from: 56, to: 47 }));
    assert_eq!(book_move(&g, 10), Some(Move { from: 60, to: 51 }));
    assert_eq!(book_move(&g, 20), Some(Move { from: 64, to: 67 }));
    let m = |f: usize, t: usize| Move { from: f, to: t };
    let cands = vec![(m(1, 2), 10u32), (m(3, 4), 50), (m(5, 6), 25)];
    assert_eq!(weighted_pick(&cands, 9), m(1, 2));
    assert_eq!(weighted_pick(&cands, 10), m(3, 4));
    assert_eq!(weighted_pick(&cands, 59), m(3, 4));
    assert_eq!(weighted_pick(&cands, 60), m(5, 6));
    assert_eq!(weighted_pick(&cands, 85), m(1, 2));
}

#[test]
fn sidecar_replies_are_read_as_index_pairs() {
    assert_eq!(parse_move("{\"move\": [64, 67]}\n"), Some(Move { from: 64, to: 67 }));
    assert_eq!(parse_move("  {\"move\":[0,9],\"value\":0.5}"), Some(Move { from: 0, to: 9 }));
    assert_eq!(parse_move("{\"move\": null}"), None);
    assert_eq!(parse_move("{\"move\": [1]}"), None);
    assert_eq!(parse_move("{\"move\": [1, -2]}"), None);
    assert_eq!(parse_move("{\"move\": [1, 2, 3]}"), None);
    assert_eq!(parse_move("not json"), None);
    assert_eq!(parse_move("{\"ready\": true}"), None);
}

#[test]
fn headless_starts_from_the_opening_position() {
    let app = XiangqiApp::headless();
    assert_eq!(app.game.board.cells, Board::initial().cells);
    assert_eq!(app.difficulty, 3);
    assert_eq!(app.status, GameStatus::Ongoing);
    assert_eq!(app.pending_color, Color::Red);
}

#[test]
fn the_sidecar_handshake_is_recognised() {
    assert!(is_ready_line("{\"ready\": true}\n"));
    assert!(is_ready_line("  {\"ready\":true,\"model\":\"best.pt\"}  "));
    assert!(!is_ready_line("{\"ready\": false}"));
    assert!(!is_ready_line("{\"ready\": 1}"));
    assert!(!is_ready_line("loading model..."));
    assert!(!is_ready_line("{\"move\": [1, 2]}"));
}
