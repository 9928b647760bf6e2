//! Headless session state of the board window: mouse input, turn handling,
//! engine turns and the status line. Drawing, threads and files live in the
//! program around this library.
use vstd::prelude::*;
use vstd::string::StringExecFns;

use crate::ai::{make_engine, Engine, EngineKind, EngineSetup};
use crate::board::{idx, sq, Color, Move, CELLS, FILES, RANKS};
use crate::game::{
    has_legal_move, history_in_range, status_spec, DrawReason, GameState, GameStatus, RepKind, SaveGame,
};
use crate::moves::{in_check_spec, legal_move};

verus! {

/// Who controls each side.
#[derive(Debug, Clone, Copy, PartialEq, Eq, Structural, Default)]
pub enum GameMode {
    /// Human plays one colour, an engine plays the other.
    #[default]
    HumanVsAi,
    /// Both colours are engines; the match auto-advances.
    AiVsAi,
}

/// Board coordinate -> on-screen cell, mirrored when the board is flipped
/// (the human side always sits at the bottom).
pub open spec fn to_screen_spec(flip: bool, f: int, r: int) -> (int, int) {
    if flip {
        (8 - f, 9 - r)
    } else {
        (f, r)
    }
}

/// Board coord -> on-screen cell indices, accounting for board flip
/// (the human side always sits at the bottom).
pub fn to_screen(flip: bool, f: i32, r: i32) -> (s: (i32, i32))
    requires
        flip ==> f >= i32::MIN + 9 && r >= i32::MIN + 10,
    ensures
        s.0 == to_screen_spec(flip, f as int, r as int).0,
        s.1 == to_screen_spec(flip, f as int, r as int).1,
{
    if flip {
        (8 - f, 9 - r)
    } else {
        (f, r)
    }
}

/// Exact inverse of [`to_screen`].
pub fn from_screen(flip: bool, sf: i32, sr: i32) -> (b: (i32, i32))
    requires
        flip ==> sf >= i32::MIN + 9 && sr >= i32::MIN + 10,
    ensures
        b.0 == to_screen_spec(flip, sf as int, sr as int).0,
        b.1 == to_screen_spec(flip, sf as int, sr as int).1,
{
    if flip {
        (8 - sf, 9 - sr)
    } else {
        (sf, sr)
    }
}

/// The screen mapping keeps the board on the board and `from_screen` undoes
/// `to_screen`, flipped or not.
pub proof fn lemma_screen_round_trip(flip: bool, f: int, r: int)
    requires
        0 <= f < 9,
        0 <= r < 10,
    ensures
        0 <= to_screen_spec(flip, f, r).0 < 9,
        0 <= to_screen_spec(flip, f, r).1 < 10,
        to_screen_spec(flip, to_screen_spec(flip, f, r).0, to_screen_spec(flip, f, r).1) == (f, r),
{
}

/// `红方` or `黑方`.
pub open spec fn side_name(c: Color) -> Seq<char> {
    if c == Color::Red {
        "红方"@
    } else {
        "黑方"@
    }
}

/// The label of an engine kind.
pub open spec fn kind_label(k: EngineKind) -> Seq<char> {
    match k {
        EngineKind::AlphaBeta => "内置 AlphaBeta"@,
        EngineKind::AlphaZero => "AlphaZero"@,
    }
}

/// The message shown when an engine yields no move on a live position.
pub open spec fn stalled_message() -> Seq<char> {
    "AI 无法走子（引擎无响应或环境异常）。请重开对局，或检查 Python、torch 与模型文件。"@
}

fn side_str(c: Color) -> (s: &'static str)
    ensures
        s@ == side_name(c),
{
    if c == Color::Red {
        "红方"
    } else {
        "黑方"
    }
}

pub struct XiangqiApp {
    pub game: GameState,
    pub human_color: Color,
    /// Side the human takes on the next New Game.
    pub pending_color: Color,
    pub difficulty: u8,
    pub selected: Option<usize>,
    pub status: GameStatus,
    /// Set when a side resigns; overrides the computed status until reset.
    pub forced: Option<GameStatus>,
    /// Active mode; `pending_mode` is applied on the next New Game.
    pub mode: GameMode,
    pub pending_mode: GameMode,
    /// Active per-side engine kinds; the `pending_*` ones are applied on New
    /// Game. In Human-vs-AI only the AI side's kind is used.
    pub red_kind: EngineKind,
    pub black_kind: EngineKind,
    pub pending_red_kind: EngineKind,
    pub pending_black_kind: EngineKind,
    /// An engine turn is under way.
    pub thinking: bool,
    /// Identifies the current engine request; a reply for an older one is
    /// ignored.
    pub req_id: u64,
    /// Set when an engine yields no move on a non-terminal position (e.g. the
    /// AlphaZero sidecar could not start). Stops the auto-loop from spinning;
    /// cleared on New Game / Undo / Load / a difficulty change.
    pub ai_stalled: bool,
    /// One engine per colour, persisted across moves so each keeps its state
    /// (e.g. the AlphaBeta transposition table). Only the AI sides are used.
    pub engine_red: EngineSetup,
    pub engine_black: EngineSetup,
    /// Difficulty the current engines were built for.
    pub engine_diff: u8,
    /// Whether a CJK font loaded; if not, pieces are drawn as letters.
    pub cjk_ok: bool,
    pub save_path: String,
    pub message: String,
}

impl XiangqiApp {
    /// The game satisfies what its methods need and both engines are ready.
    pub open spec fn wf(&self) -> bool {
        &&& self.game.wf()
        &&& self.engine_red.ready()
        &&& self.engine_black.ready()
    }

    /// The status shown: a resignation overrides the computed one.
    pub open spec fn eff_status_spec(&self) -> GameStatus {
        match self.forced {
            Some(s) => s,
            None => self.status,
        }
    }

    /// The game is decided: a win, a stalemate, a draw or a perpetual-check /
    /// chase loss.
    pub open spec fn game_over_spec(&self) -> bool {
        match self.eff_status_spec() {
            GameStatus::Win(_) | GameStatus::Stalemate(_) | GameStatus::Draw(_)
            | GameStatus::PerpetualLoss { .. } => true,
            _ => false,
        }
    }

    /// The engine that plays `c`.
    pub open spec fn engine_for_spec(&self, c: Color) -> EngineSetup {
        if c == Color::Red {
            self.engine_red
        } else {
            self.engine_black
        }
    }

    /// The side to move is engine-controlled, no engine turn is under way,
    /// the game goes on, and its history has room for one more move.
    pub open spec fn engine_turn_due(&self) -> bool {
        &&& !self.thinking
        &&& !self.game_over_spec()
        &&& self.is_ai_spec(self.game.side_to_move)
        &&& self.game.history@.len() < u32::MAX
    }

    pub open spec fn is_ai_spec(&self, c: Color) -> bool {
        match self.mode {
            GameMode::AiVsAi => true,
            GameMode::HumanVsAi => c != self.human_color,
        }
    }

    pub open spec fn human_can_move_spec(&self) -> bool {
        &&& self.mode == GameMode::HumanVsAi
        &&& !self.thinking
        &&& !self.game_over_spec()
        &&& self.game.side_to_move == self.human_color
    }

    pub open spec fn flip_spec(&self) -> bool {
        self.mode == GameMode::HumanVsAi && self.human_color == Color::Black
    }

    pub fn bootstrap(cjk_ok: bool) -> (app: Self)
        ensures
            app.wf(),
            app.game.board.cells@ == crate::board::initial_cells(),
            app.game.history@.len() == 0,
            app.game.side_to_move == Color::Red,
            app.human_color == Color::Red,
            app.pending_color == Color::Red,
            app.difficulty == 3,
            app.selected is None,
            app.forced is None,
            app.mode == GameMode::HumanVsAi,
            app.pending_mode == GameMode::HumanVsAi,
            !app.thinking,
            !app.ai_stalled,
            app.cjk_ok == cjk_ok,
            app.save_path@ == "xiangqi_save.json"@,
            app.message@.len() == 0,
            app.status == status_spec(app.game),
    {
        let difficulty: u8 = 3;
        let mut app = XiangqiApp {
            game: GameState::new(),
            human_color: Color::Red,
            pending_color: Color::Red,
            difficulty,
            selected: None,
            status: GameStatus::Ongoing,
            forced: None,
            mode: GameMode::HumanVsAi,
            pending_mode: GameMode::HumanVsAi,
            red_kind: EngineKind::AlphaBeta,
            black_kind: EngineKind::AlphaBeta,
            pending_red_kind: EngineKind::AlphaBeta,
            pending_black_kind: EngineKind::AlphaBeta,
            thinking: false,
            req_id: 0,
            ai_stalled: false,
            engine_red: make_engine(EngineKind::AlphaBeta, difficulty, Color::Red),
            engine_black: make_engine(EngineKind::AlphaBeta, difficulty, Color::Black),
            engine_diff: difficulty,
            cjk_ok,
            save_path: String::from_str("xiangqi_save.json"),
            message: String::new(),
        };
        app.status = app.game.status();
        app
    }

    /// Construct without a window.
    pub fn headless() -> (app: Self)
        ensures
            app.wf(),
            app.game.board.cells@ == crate::board::initial_cells(),
            app.game.history@.len() == 0,
            app.game.side_to_move == Color::Red,
            app.human_color == Color::Red,
            app.pending_color == Color::Red,
            app.difficulty == 3,
            app.mode == GameMode::HumanVsAi,
            app.pending_mode == GameMode::HumanVsAi,
            app.selected is None,
            app.forced is None,
            !app.thinking,
            !app.ai_stalled,
            app.cjk_ok,
            app.save_path@ == "xiangqi_save.json"@,
            app.message@.len() == 0,
            app.status == status_spec(app.game),
    {
        Self::bootstrap(true)
    }
}


impl XiangqiApp {
    /// Rebuild both engines (fresh state). Called on a new game or when the
    /// difficulty changes.
    pub fn rebuild_engines(&mut self)
        requires
            old(self).game.wf(),
        ensures
            final(self).wf(),
            final(self).game == old(self).game,
            final(self).engine_diff == old(self).difficulty,
            !final(self).ai_stalled,
            final(self).difficulty == old(self).difficulty,
            final(self).mode == old(self).mode,
            final(self).human_color == old(self).human_color,
            final(self).thinking == old(self).thinking,
            final(self).selected == old(self).selected,
            final(self).forced == old(self).forced,
            final(self).status == old(self).status,
            final(self).pending_color == old(self).pending_color,
            final(self).pending_mode == old(self).pending_mode,
            final(self).red_kind == old(self).red_kind,
            final(self).black_kind == old(self).black_kind,
            final(self).req_id == old(self).req_id,
    {
        self.engine_red = make_engine(self.red_kind, self.difficulty, Color::Red);
        self.engine_black = make_engine(self.black_kind, self.difficulty, Color::Black);
        self.engine_diff = self.difficulty;
        self.ai_stalled = false;  // a config change is a fresh chance to run
    }

    /// The AI side in Human-vs-AI.
    pub fn ai_color(&self) -> (c: Color)
        ensures
            c == self.human_color.other(),
    {
        self.human_color.opposite()
    }

    /// Whether `c` is engine-controlled: both sides in AI-vs-AI, otherwise the
    /// non-human side.
    pub fn is_ai(&self, c: Color) -> (b: bool)
        ensures
            b == self.is_ai_spec(c),
    {
        match self.mode {
            GameMode::AiVsAi => true,
            GameMode::HumanVsAi => c != self.human_color,
        }
    }

    pub fn kind_for(&self, c: Color) -> (k: EngineKind)
        ensures
            k == (if c == Color::Red {
                self.red_kind
            } else {
                self.black_kind
            }),
    {
        match c {
            Color::Red => self.red_kind,
            Color::Black => self.black_kind,
        }
    }

    /// True when the human side sits at the bottom-flipped board. There is no
    /// human in AI-vs-AI, so the board stays in Red's orientation.
    pub fn flip(&self) -> (b: bool)
        ensures
            b == self.flip_spec(),
    {
        self.mode == GameMode::HumanVsAi && self.human_color == Color::Black
    }

    /// Status to display: a resignation overrides the computed status.
    pub fn eff_status(&self) -> (s: GameStatus)
        ensures
            s == self.eff_status_spec(),
    {
        match self.forced {
            Some(s) => s,
            None => self.status,
        }
    }

    pub fn game_over(&self) -> (b: bool)
        ensures
            b == self.game_over_spec(),
    {
        match self.eff_status() {
            GameStatus::Win(_) | GameStatus::Stalemate(_) | GameStatus::Draw(_)
            | GameStatus::PerpetualLoss { .. } => true,
            _ => false,
        }
    }

    /// The human concedes; the AI side wins.
    pub fn resign(&mut self)
        requires
            old(self).wf(),
        ensures
            final(self).wf(),
            final(self).game == old(self).game,
            old(self).game_over_spec() ==> *final(self) == *old(self),
            !old(self).game_over_spec() ==> final(self).forced == Some(
                GameStatus::Win(old(self).human_color.other()),
            ) && final(self).selected is None && final(self).req_id == old(self).req_id.wrapping_add(1),
            final(self).mode == old(self).mode,
            final(self).human_color == old(self).human_color,
            final(self).thinking == old(self).thinking,
    {
        if self.game_over() {
            return;
        }
        self.forced = Some(GameStatus::Win(self.ai_color()));
        self.selected = None;
        self.req_id = self.req_id.wrapping_add(1);
    }

    pub fn human_can_move(&self) -> (b: bool)
        ensures
            b == self.human_can_move_spec(),
    {
        self.mode == GameMode::HumanVsAi && !self.thinking && !self.game_over()
            && self.game.side_to_move == self.human_color
    }
}


impl XiangqiApp {
    /// The settings a turn leaves alone.
    pub open spec fn same_setup(&self, other: &XiangqiApp) -> bool {
        &&& self.human_color == other.human_color
        &&& self.pending_color == other.pending_color
        &&& self.difficulty == other.difficulty
        &&& self.mode == other.mode
        &&& self.pending_mode == other.pending_mode
        &&& self.red_kind == other.red_kind
        &&& self.black_kind == other.black_kind
        &&& self.pending_red_kind == other.pending_red_kind
        &&& self.pending_black_kind == other.pending_black_kind
        &&& self.engine_diff == other.engine_diff
        &&& self.cjk_ok == other.cjk_ok
        &&& self.save_path@ == other.save_path@
    }

    /// `self` is `before` after a click on square `sq`: with the human to
    /// move and a selected piece that can legally go to `sq`, the move is
    /// played; otherwise `sq` becomes the selection if it holds one of the
    /// human's pieces, and the selection is cleared if not.
    pub open spec fn clicked(&self, before: &XiangqiApp, sq: usize) -> bool {
        let mv = Move { from: before.selected.unwrap(), to: sq };
        &&& self.same_setup(before)
        &&& self.thinking == before.thinking
        &&& self.forced == before.forced
        &&& self.ai_stalled == before.ai_stalled
        &&& self.message@ == before.message@
        &&& if !before.human_can_move_spec() {
            &&& self.game.same_as(&before.game)
            &&& self.selected == before.selected
            &&& self.status == before.status
            &&& self.req_id == before.req_id
        } else if before.selected is Some && legal_move(
            before.game.board.cells@,
            before.game.side_to_move,
            mv,
        ) {
            &&& self.game.applied_from(&before.game, mv)
            &&& self.selected is None
            &&& self.req_id == before.req_id.wrapping_add(1)
            &&& self.status == status_spec(self.game)
        } else {
            &&& self.game.same_as(&before.game)
            &&& self.selected == (if (before.game.board.cells@[sq as int] matches Some(p) && p.color
                == before.human_color) {
                Some(sq)
            } else {
                None
            })
            &&& self.status == before.status
            &&& self.req_id == before.req_id
        }
    }

    #[verifier::spinoff_prover]
    #[verifier::rlimit(50)]
    pub fn on_click_square(&mut self, sq: usize)
        requires
            old(self).wf(),
            sq < 90,
        ensures
            final(self).wf(),
            final(self).clicked(old(self), sq),
    {
        if !self.human_can_move() {
            return;
        }
        let moved = match self.selected {
            Some(sel) => self.play_if_legal(Move { from: sel, to: sq }),
            None => false,
        };
        if moved {
            self.selected = None;
            self.req_id = self.req_id.wrapping_add(1);
            return;
        }
        // (Re)select one of our own pieces, otherwise clear.
        match self.game.board.get(sq) {
            Some(p) => {
                if p.color == self.human_color {
                    self.selected = Some(sq);
                } else {
                    self.selected = None;
                }
            },
            None => {
                self.selected = None;
            },
        }
    }

    /// Translate an on-screen intersection (cell indices) to a board square
    /// and handle it. Shared by the renderer and tests so the flip mapping
    /// is exercised exactly as the UI uses it.
    pub fn handle_screen_click(&mut self, sf: i32, sr: i32)
        requires
            old(self).wf(),
        ensures
            final(self).wf(),
            !(0 <= sf < 9 && 0 <= sr < 10) ==> *final(self) == *old(self),
            (0 <= sf < 9 && 0 <= sr < 10) ==> final(self).clicked(
                old(self),
                sq(
                    to_screen_spec(old(self).flip_spec(), sf as int, sr as int).0,
                    to_screen_spec(old(self).flip_spec(), sf as int, sr as int).1,
                ) as usize,
            ),
    {
        if !(0 <= sf && sf < FILES as i32) || !(0 <= sr && sr < RANKS as i32) {
            return;
        }
        let (f, r) = from_screen(self.flip(), sf, sr);
        self.on_click_square(idx(f, r));
    }
}


impl XiangqiApp {
    pub fn new_game(&mut self)
        requires
            old(self).wf(),
        ensures
            final(self).wf(),
            final(self).game.board.cells@ == crate::board::initial_cells(),
            final(self).game.history@.len() == 0,
            final(self).game.side_to_move == Color::Red,
            final(self).game.tracks(),
            final(self).human_color == old(self).pending_color,
            final(self).mode == old(self).pending_mode,
            final(self).red_kind == old(self).pending_red_kind,
            final(self).black_kind == old(self).pending_black_kind,
            final(self).pending_color == old(self).pending_color,
            final(self).pending_mode == old(self).pending_mode,
            final(self).difficulty == old(self).difficulty,
            final(self).engine_diff == old(self).difficulty,
            final(self).selected is None,
            final(self).forced is None,
            !final(self).thinking,
            !final(self).ai_stalled,
            final(self).req_id == old(self).req_id.wrapping_add(1),
            final(self).status == status_spec(final(self).game),
            final(self).message@.len() == 0,
    {
        self.game = GameState::new();
        self.human_color = self.pending_color;
        self.mode = self.pending_mode;
        self.red_kind = self.pending_red_kind;
        self.black_kind = self.pending_black_kind;
        self.selected = None;
        self.forced = None;
        self.thinking = false;
        self.req_id = self.req_id.wrapping_add(1);
        self.rebuild_engines();
        self.status = self.game.status();
        self.message = String::new();
    }

    /// Take back the last ply; in Human-vs-AI, also the AI's reply before it
    /// so it is the human's turn again. Nothing happens while an engine is
    /// thinking or when there is nothing to undo.
    #[verifier::spinoff_prover]
    pub fn undo(&mut self)
        requires
            old(self).wf(),
        ensures
            final(self).wf(),
            final(self).same_setup(old(self)),
            final(self).thinking == old(self).thinking,
            old(self).thinking || old(self).game.history@.len() == 0 ==> {
                &&& final(self).game.same_as(&old(self).game)
                &&& final(self).selected == old(self).selected
                &&& final(self).forced == old(self).forced
                &&& final(self).req_id == old(self).req_id
                &&& final(self).status == old(self).status
                &&& final(self).ai_stalled == old(self).ai_stalled
                &&& final(self).message@ == old(self).message@
            },
            !old(self).thinking && old(self).game.history@.len() > 0 ==> {
                &&& if old(self).mode == GameMode::HumanVsAi && old(self).game.side_to_move.other()
                    != old(self).human_color && old(self).game.history@.len() >= 2 {
                    exists|mid: GameState|
                        mid.undone_from(&old(self).game) && #[trigger] final(self).game.undone_from(
                            &mid,
                        )
                } else {
                    final(self).game.undone_from(&old(self).game)
                }
                &&& final(self).selected is None
                &&& final(self).forced is None
                &&& final(self).req_id == old(self).req_id.wrapping_add(1)
                &&& !final(self).ai_stalled
                &&& final(self).status == status_spec(final(self).game)
                &&& final(self).message@.len() == 0
            },
    {
        if self.thinking {
            return;
        }
        if !self.game.undo() {
            return;
        }
        let ghost mid = self.game;
        let ghost two = self.mode == GameMode::HumanVsAi && self.game.side_to_move != self.human_color
            && self.game.history@.len() > 0;
        // In Human-vs-AI, step back past the AI's reply too so it is the
        // human's turn again. In AI-vs-AI a single ply is the natural step.
        if self.mode == GameMode::HumanVsAi && self.game.side_to_move != self.human_color
            && self.game.history.len() > 0 {
            self.game.undo();
        }
        let ghost last = self.game;
        self.selected = None;
        self.forced = None;
        self.req_id = self.req_id.wrapping_add(1);
        self.ai_stalled = false;
        self.status = self.game.status();
        self.message = String::new();
        proof {
            if two {
                assert(last.undone_from(&mid));
                assert(self.game.undone_from(&mid));
                assert(mid.undone_from(&old(self).game));
            } else {
                assert(self.game.undone_from(&old(self).game));
            }
        }
    }

    /// The squares the selected piece may move to (none without a selection).
    pub fn legal_targets(&mut self) -> (t: Vec<usize>)
        requires
            old(self).wf(),
        ensures
            final(self).wf(),
            final(self).game.same_as(&old(self).game),
            final(self).selected == old(self).selected,
            final(self).same_setup(old(self)),
            old(self).selected is None ==> t@.len() == 0,
            old(self).selected matches Some(sel) ==> forall|to: usize|
                t@.contains(to) <==> legal_move(
                    old(self).game.board.cells@,
                    old(self).game.side_to_move,
                    Move { from: sel, to },
                ),
            t@.no_duplicates(),
    {
        let sel = match self.selected {
            Some(s) => s,
            None => {
                return Vec::new();
            },
        };
        let moves = self.game.legal_moves();
        let ghost cells = old(self).game.board.cells@;
        let ghost side = old(self).game.side_to_move;
        let mut out: Vec<usize> = Vec::new();
        let mut i: usize = 0;
        while i < moves.len()
            invariant
                0 <= i <= moves@.len(),
                moves@.no_duplicates(),
                forall|k: int| 0 <= k < moves@.len() ==> legal_move(cells, side, #[trigger] moves@[k]),
                forall|to: usize|
                    out@.contains(to) <==> exists|k: int|
                        0 <= k < i && #[trigger] moves@[k] == (Move { from: sel, to }),
                out@.no_duplicates(),
            decreases moves@.len() - i,
        {
            let m = moves[i];
            if m.from == sel {
                proof {
                    assert forall|k: int| 0 <= k < i implies moves@[k] != m by {}
                    assert(!out@.contains(m.to)) by {
                        if out@.contains(m.to) {
                            let k = choose|k: int|
                                0 <= k < i && #[trigger] moves@[k] == (Move { from: sel, to: m.to });
                            assert(moves@[k] == moves@[i as int]);
                        }
                    }
                }
                let ghost before = out@;
                out.push(m.to);
                proof {
                    assert forall|to: usize|
                        out@.contains(to) <==> exists|k: int|
                            0 <= k < i + 1 && #[trigger] moves@[k] == (Move { from: sel, to }) by {
                        if out@.contains(to) && to != m.to {
                            let j = choose|j: int| 0 <= j < out@.len() && out@[j] == to;
                            assert(before[j] == to);
                            assert(before.contains(to));
                        }
                        if to == m.to {
                            assert(out@[before.len() as int] == to);
                        }
                        if exists|k: int| 0 <= k < i + 1 && #[trigger] moves@[k] == (Move { from: sel, to }) {
                            let k = choose|k: int| 0 <= k < i + 1 && #[trigger] moves@[k] == (Move { from: sel, to });
                            if k < i {
                                assert(before.contains(to));
                                let j = choose|j: int| 0 <= j < before.len() && before[j] == to;
                                assert(out@[j] == to);
                            }
                        }
                    }
                }
            }
            i = i + 1;
        }
        proof {
            assert forall|to: usize|
                out@.contains(to) <==> legal_move(cells, side, Move { from: sel, to }) by {
                let m = Move { from: sel, to };
                if legal_move(cells, side, m) {
                    assert(moves@.contains(m));
                }
            }
        }
        out
    }
}


impl XiangqiApp {
    /// Stop the engine loop with a message.
    fn stall(&mut self)
        ensures
            final(self).ai_stalled,
            final(self).message@ == stalled_message(),
            final(self).game == old(self).game,
            final(self).status == old(self).status,
            final(self).thinking == old(self).thinking,
            final(self).req_id == old(self).req_id,
            final(self).selected == old(self).selected,
            final(self).forced == old(self).forced,
            final(self).same_setup(old(self)),
            final(self).engine_red == old(self).engine_red,
            final(self).engine_black == old(self).engine_black,
    {
        self.ai_stalled = true;
        self.message = String::from_str(
            "AI 无法走子（引擎无响应或环境异常）。请重开对局，或检查 Python、torch 与模型文件。",
        );
    }

    /// Play `m` if it is legal in the current game, refreshing the status.
    fn play_if_legal(&mut self, m: Move) -> (played: bool)
        requires
            old(self).wf(),
        ensures
            final(self).wf(),
            final(self).same_setup(old(self)),
            final(self).thinking == old(self).thinking,
            final(self).selected == old(self).selected,
            final(self).forced == old(self).forced,
            final(self).req_id == old(self).req_id,
            final(self).ai_stalled == old(self).ai_stalled,
            final(self).message@ == old(self).message@,
            played == legal_move(old(self).game.board.cells@, old(self).game.side_to_move, m),
            played ==> final(self).game.applied_from(&old(self).game, m) && final(self).status
                == status_spec(final(self).game),
            !played ==> final(self).game.same_as(&old(self).game) && final(self).status == old(
                self,
            ).status,
    {
        if self.game.is_legal(m) {
            proof {
                crate::moves::lemma_pseudo_move_distinct(
                    old(self).game.board.cells@,
                    old(self).game.side_to_move,
                    m,
                );
            }
            self.game.apply(m);
            self.status = self.game.status();
            true
        } else {
            false
        }
    }
}

impl XiangqiApp {
    /// Apply a difficulty change while idle (rebuilds both engines).
    pub fn sync_difficulty(&mut self)
        requires
            old(self).wf(),
        ensures
            final(self).wf(),
            final(self).game == old(self).game,
            !old(self).thinking && old(self).difficulty != old(self).engine_diff ==> final(self).engine_diff
                == old(self).difficulty && !final(self).ai_stalled,
            old(self).thinking || old(self).difficulty == old(self).engine_diff ==> *final(self)
                == *old(self),
    {
        if !self.thinking && self.difficulty != self.engine_diff {
            self.rebuild_engines();
        }
    }

    /// Start an engine turn when the side to move is engine-controlled and
    /// the game goes on: marks the session as thinking and returns the request
    /// id and the side the engine plays. In AI-vs-AI this fires for whichever
    /// colour is on move, so the match auto-advances.
    pub fn begin_ai_turn(&mut self) -> (r: Option<(u64, Color)>)
        requires
            old(self).wf(),
        ensures
            final(self).wf(),
            final(self).game == old(self).game,
            final(self).same_setup(old(self)),
            r is Some <==> !old(self).thinking && !old(self).game_over_spec() && !old(self).ai_stalled
                && old(self).is_ai_spec(old(self).game.side_to_move),
            r matches Some(x) ==> x == (old(self).req_id, old(self).game.side_to_move)
                && final(self).thinking,
            r is None ==> *final(self) == *old(self),
    {
        if self.thinking || self.game_over() || self.ai_stalled {
            return None;
        }
        let side = self.game.side_to_move;
        if !self.is_ai(side) {
            return None;
        }
        self.thinking = true;
        Some((self.req_id, side))
    }

    /// An engine turn ended with `mv` for request `id`. A reply to the current
    /// request plays the move if it is legal; no usable move on a live
    /// position stops the engine loop with a message. A stale reply is
    /// dropped.
    #[verifier::spinoff_prover]
    pub fn finish_ai_turn(&mut self, id: u64, mv: Option<Move>)
        requires
            old(self).wf(),
        ensures
            final(self).wf(),
            final(self).same_setup(old(self)),
            !final(self).thinking,
            final(self).req_id == old(self).req_id,
            final(self).selected == old(self).selected,
            final(self).forced == old(self).forced,
            id == old(self).req_id && (mv matches Some(m) && legal_move(
                old(self).game.board.cells@,
                old(self).game.side_to_move,
                m,
            )) ==> final(self).game.applied_from(&old(self).game, mv.unwrap()) && final(self).status
                == status_spec(final(self).game) && final(self).ai_stalled == old(self).ai_stalled,
            id == old(self).req_id && !(mv matches Some(m) && legal_move(
                old(self).game.board.cells@,
                old(self).game.side_to_move,
                m,
            )) ==> final(self).game.same_as(&old(self).game) && final(self).status == old(self).status
                && final(self).ai_stalled == (old(self).ai_stalled || !old(self).game_over_spec())
                && (!old(self).game_over_spec() ==> final(self).message@ == stalled_message()),
            id != old(self).req_id ==> final(self).game == old(self).game && final(self).status
                == old(self).status && final(self).ai_stalled == old(self).ai_stalled,
    {
        self.thinking = false;
        if id == self.req_id {
            let played = match mv {
                Some(m) => self.play_if_legal(m),
                None => false,
            };
            if !played && !self.game_over() {
                // No usable move on a live position means the engine failed
                // (most often: the AlphaZero sidecar could not start). Stop
                // the auto-loop instead of respawning every frame; New Game /
                // Undo / a difficulty change retries.
                self.stall();
            }
        }
    }

    /// Synchronous engine move for the side to move (no threads): the
    /// engine of the side to move plays if that side is engine-controlled and
    /// the game goes on.
    pub fn run_ai_blocking(&mut self)
        requires
            old(self).wf(),
        ensures
            final(self).wf(),
            final(self).same_setup(old(self)),
            final(self).thinking == old(self).thinking,
            final(self).selected == old(self).selected,
            final(self).forced == old(self).forced,
            old(self).thinking || old(self).game_over_spec() || !old(self).is_ai_spec(
                old(self).game.side_to_move,
            ) ==> final(self).game == old(self).game && final(self).status == old(self).status,
            final(self).game.same_as(&old(self).game) || exists|m: Move|
                legal_move(old(self).game.board.cells@, old(self).game.side_to_move, m)
                    && #[trigger] final(self).game.applied_from(&old(self).game, m)
                    && final(self).status == status_spec(final(self).game),
            old(self).engine_turn_due() && old(self).engine_for_spec(old(self).game.side_to_move) is AlphaBeta
                && has_legal_move(old(self).game.board.cells@, old(self).game.side_to_move) ==> exists|
                m: Move|
                legal_move(old(self).game.board.cells@, old(self).game.side_to_move, m)
                    && #[trigger] final(self).game.applied_from(&old(self).game, m)
                    && final(self).status == status_spec(final(self).game),
            old(self).engine_turn_due() && (old(self).engine_for_spec(old(self).game.side_to_move) is AlphaZero
                || !has_legal_move(old(self).game.board.cells@, old(self).game.side_to_move))
                ==> final(self).game.same_as(&old(self).game) && final(self).status == old(self).status,
    {
        let side = self.game.side_to_move;
        if self.thinking || self.game_over() || !self.is_ai(side) {
            return;
        }
        if self.game.history.len() >= 4_294_967_295 {
            return;
        }
        let mv = match side {
            Color::Red => self.engine_red.best_move(&self.game),
            Color::Black => self.engine_black.best_move(&self.game),
        };
        match mv {
            Some(m) => {
                let played = self.play_if_legal(m);
                proof {
                    if played {
                        assert(self.game.applied_from(&old(self).game, m));
                    }
                }
            },
            None => {},
        }
    }

    /// A save went to the file named by `save_path`.
    pub fn note_saved(&mut self)
        ensures
            final(self).message@ == "已保存到 "@ + old(self).save_path@,
            final(self).save_path@ == old(self).save_path@,
            final(self).game == old(self).game,
            final(self).wf() == old(self).wf(),
    {
        let mut msg = String::from_str("已保存到 ");
        msg.append(self.save_path.as_str());
        self.message = msg;
    }

    /// Take over a loaded save: the game is replaced and the session reset
    /// with a message naming the file; an invalid save only sets a message.
    pub fn load_save(&mut self, save: SaveGame)
        requires
            old(self).wf(),
        ensures
            final(self).wf(),
            final(self).same_setup(old(self)),
            save.loadable() ==> {
                &&& final(self).game.loaded_from(&save)
                &&& final(self).selected is None
                &&& final(self).forced is None
                &&& !final(self).thinking
                &&& !final(self).ai_stalled
                &&& final(self).req_id == old(self).req_id.wrapping_add(1)
                &&& final(self).status == status_spec(final(self).game)
                &&& final(self).message@ == "已从 "@ + old(self).save_path@ + " 载入"@
            },
            !save.loadable() ==> final(self).game == old(self).game && final(self).message@
                == "存档数据无效"@,
    {
        let ghost s0 = save;
        match GameState::from_save(save) {
            Some(g) => {
                self.game = g;
                self.selected = None;
                self.forced = None;
                self.thinking = false;
                self.req_id = self.req_id.wrapping_add(1);
                self.ai_stalled = false;
                self.status = self.game.status();
                let mut msg = String::from_str("已从 ");
                msg.append(self.save_path.as_str());
                msg.append(" 载入");
                self.message = msg;
            },
            None => {
                self.message = String::from_str("存档数据无效");
            },
        }
    }
}


impl XiangqiApp {
    /// The status line.
    pub open spec fn status_text_spec(&self) -> Seq<char> {
        match self.eff_status_spec() {
            GameStatus::Win(c) => (if self.forced is Some {
                "认输"@
            } else {
                "将死"@
            }) + "！"@ + side_name(c) + " 胜"@,
            GameStatus::Stalemate(c) => "困毙！"@ + side_name(c) + " 胜"@,
            GameStatus::Draw(DrawReason::Repetition) => "和棋（三次重复局面）"@,
            GameStatus::Draw(DrawReason::NoCapture) => "和棋（60 回合无吃子）"@,
            GameStatus::Check(c) => side_name(c) + " 被将军"@,
            GameStatus::PerpetualLoss { winner, kind } => (if kind == RepKind::Check {
                "长将判负！"@
            } else {
                "长捉判负！"@
            }) + side_name(winner) + " 胜"@,
            GameStatus::Ongoing => {
                let stm = self.game.side_to_move;
                let who = if self.mode == GameMode::HumanVsAi && stm == self.human_color {
                    "你"@
                } else {
                    let k = kind_label(
                        if stm == Color::Red {
                            self.red_kind
                        } else {
                            self.black_kind
                        },
                    );
                    if self.thinking {
                        k + " 思考中…"@
                    } else {
                        k
                    }
                };
                "轮到 "@ + side_name(stm) + "（"@ + who + "）"@
            },
        }
    }

    /// The status line of a check names the side that is in check: with no
    /// resignation and the status judged from the game, a check reads
    /// "红方 被将军" when Red, the side to move, is in check, and "黑方 被将军"
    /// when Black is.
    pub proof fn lemma_check_line_names_checked_side(&self)
        requires
            self.forced is None,
            self.status == status_spec(self.game),
            self.status is Check,
        ensures
            in_check_spec(self.game.board.cells@, self.game.side_to_move),
            self.status == GameStatus::Check(self.game.side_to_move),
            self.status_text_spec() == (if self.game.side_to_move == Color::Red {
                "红方"@
            } else {
                "黑方"@
            }) + " 被将军"@,
    {
    }

    /// When the side to move has no legal move and nobody resigned, the status
    /// line declares the side that just moved the winner: by checkmate when the
    /// side to move stands in check, by stalemate otherwise.
    pub proof fn lemma_no_move_line_names_winner(&self)
        requires
            self.forced is None,
            self.status == status_spec(self.game),
            !has_legal_move(self.game.board.cells@, self.game.side_to_move),
        ensures
            ({
                let winner = if self.game.side_to_move == Color::Red {
                    "黑方"@
                } else {
                    "红方"@
                };
                self.status_text_spec() == if in_check_spec(
                    self.game.board.cells@,
                    self.game.side_to_move,
                ) {
                    "将死！"@ + winner + " 胜"@
                } else {
                    "困毙！"@ + winner + " 胜"@
                }
            }),
    {
        reveal_strlit("将死");
        reveal_strlit("！");
        reveal_strlit("将死！");
        assert("将死"@ + "！"@ =~= "将死！"@);
    }

    pub fn status_text(&self) -> (t: String)
        ensures
            t@ == self.status_text_spec(),
    {
        let mut t = String::new();
        match self.eff_status() {
            GameStatus::Win(c) => {
                t.append(
                    if self.forced.is_some() {
                        "认输"
                    } else {
                        "将死"
                    },
                );
                t.append("！");
                t.append(side_str(c));
                t.append(" 胜");
            },
            GameStatus::Stalemate(c) => {
                t.append("困毙！");
                t.append(side_str(c));
                t.append(" 胜");
            },
            GameStatus::Draw(DrawReason::Repetition) => {
                t.append("和棋（三次重复局面）");
            },
            GameStatus::Draw(DrawReason::NoCapture) => {
                t.append("和棋（60 回合无吃子）");
            },
            GameStatus::Check(c) => {
                t.append(side_str(c));
                t.append(" 被将军");
            },
            GameStatus::PerpetualLoss { winner, kind } => {
                t.append(
                    if kind == RepKind::Check {
                        "长将判负！"
                    } else {
                        "长捉判负！"
                    },
                );
                t.append(side_str(winner));
                t.append(" 胜");
            },
            GameStatus::Ongoing => {
                let stm = self.game.side_to_move;
                t.append("轮到 ");
                t.append(side_str(stm));
                t.append("（");
                if self.mode == GameMode::HumanVsAi && stm == self.human_color {
                    t.append("你");
                } else {
                    t.append(self.kind_for(stm).label());
                    if self.thinking {
                        t.append(" 思考中…");
                    }
                }
                t.append("）");
            },
        }
        proof {
            assert(t@ =~= self.status_text_spec());
        }
        t
    }
}

} // verus!
