//! The headless board session: clicks, flipping, undo, resignation and
//! engine turns.
use xiangqi::board::{idx, Color, Move, FILES, RANKS};
use xiangqi::game::GameStatus;
use xiangqi::ui::app::{from_screen, to_screen, GameMode, XiangqiApp};

#[test]
fn flip_mapping_is_exact_inverse() {
    for &flip in &[false, true] {
        for f in 0..FILES as i32 {
            for r in 0..RANKS as i32 {
                let (sf, sr) = to_screen(flip, f, r);
                assert!((0..FILES as i32).contains(&sf));
                assert!((0..RANKS as i32).contains(&sr));
                assert_eq!(from_screen(flip, sf, sr), (f, r));
            }
        }
    }
}

#[test]
fn select_then_move_red() {
    let mut app = XiangqiApp::headless(); // human Red, Red to move
    app.handle_screen_click(0, 6); // Red soldier (file 0, rank 6)
    assert_eq!(app.selected, Some(idx(0, 6)));
    app.handle_screen_click(0, 5); // forward one step
    assert_eq!(app.selected, None);
    assert_eq!(app.game.history.len(), 1);
    assert_eq!(app.game.side_to_move, Color::Black);
    assert_eq!(app.game.last_move, Some(Move { from: idx(0, 6), to: idx(0, 5) }));
}

#[test]
fn illegal_target_clears_selection_without_moving() {
    let mut app = XiangqiApp::headless();
    app.handle_screen_click(0, 6);
    assert_eq!(app.selected, Some(idx(0, 6)));
    app.handle_screen_click(4, 4); // empty, not a legal target
    assert_eq!(app.selected, None);
    assert!(app.game.history.is_empty());
}

#[test]
fn undo_steps_back_past_ai_reply() {
    let mut app = XiangqiApp::headless();
    app.difficulty = 1;
    app.rebuild_engines();
    app.handle_screen_click(0, 6);
    app.handle_screen_click(0, 5);
    assert_eq!(app.game.side_to_move, Color::Black);
    app.run_ai_blocking();
    assert_eq!(app.game.history.len(), 2);
    assert_eq!(app.game.side_to_move, Color::Red);
    app.undo();
    assert_eq!(app.game.history.len(), 0);
    assert_eq!(app.game.side_to_move, Color::Red);
    assert_eq!(app.selected, None);
}

#[test]
fn resign_ends_the_game() {
    let mut app = XiangqiApp::headless(); // human Red
    app.resign();
    assert!(app.game_over());
    assert_eq!(app.eff_status(), GameStatus::Win(Color::Black));
    assert!(!app.human_can_move());
    assert!(app.status_text().contains("认输"));
}

#[test]
fn ai_vs_ai_alphabeta_auto_plays() {
    let mut app = XiangqiApp::headless();
    app.difficulty = 1;
    app.pending_mode = GameMode::AiVsAi;
    app.new_game();
    assert_eq!(app.mode, GameMode::AiVsAi);
    assert!(!app.flip(), "no human side -> Red's orientation");
    assert!(!app.human_can_move());

    for _ in 0..6 {
        if app.game_over() {
            break;
        }
        let before = app.game.history.len();
        app.run_ai_blocking();
        assert_eq!(app.game.history.len(), before + 1, "the side to move should have played");
    }
    assert!(app.game.history.len() >= 4);
    // Turn strictly alternates from Red.
    let expect = if app.game.history.len() % 2 == 0 { Color::Red } else { Color::Black };
    assert_eq!(app.game.side_to_move, expect);
}

#[test]
fn ai_moves_first_when_human_is_black() {
    let mut app = XiangqiApp::headless();
    app.pending_color = Color::Black;
    app.new_game(); // human Black, AI Red, Red to move
    app.difficulty = 1;
    app.rebuild_engines();
    assert!(app.flip());
    app.run_ai_blocking();
    assert_eq!(app.game.history.len(), 1);
    assert_eq!(app.game.side_to_move, Color::Black);
}

#[test]
fn flipped_board_click_maps_correctly() {
    let mut app = XiangqiApp::headless();
    app.pending_color = Color::Black;
    app.new_game();
    app.difficulty = 1;
    app.rebuild_engines();
    app.run_ai_blocking(); // AI (Red) moves; human (Black) to move, flipped
    assert_eq!(app.game.side_to_move, Color::Black);

    // Black soldier at board (0,3) is drawn at screen cell to_screen(0,3).
    let (sf, sr) = to_screen(true, 0, 3);
    app.handle_screen_click(sf, sr);
    assert_eq!(app.selected, Some(idx(0, 3)));
    let (tf, tr) = to_screen(true, 0, 4);
    app.handle_screen_click(tf, tr);
    assert_eq!(app.game.last_move, Some(Move { from: idx(0, 3), to: idx(0, 4) }));
}
