//! Pluggable AI interface.
//!
//! To swap in a stronger engine later, implement [`Engine`]; the bundled
//! in-process searcher is [`search::SearchEngine`].
use vstd::prelude::*;

use crate::board::{Color, Move};
use crate::game::{history_in_range, GameState};
use crate::moves::legal_move;

use vstd::string::StringExecFns;

use self::search::{alphabeta_label, decimal, duration_from_millis, millis, push_decimal, SearchEngine};

pub mod alphazero;
pub mod book;
pub mod search;

verus! {

pub trait Engine: Send {
    /// The engine's own invariant, kept from one move to the next.
    spec fn ready(&self) -> bool;

    /// Engine label (for debugging / a future UI).
    fn name(&self) -> String;

    /// Best move for `state.side_to_move`, or `None` if there is no legal move.
    /// A move it gives is legal.
    fn best_move(&mut self, state: &GameState) -> (r: Option<Move>)
        requires
            old(self).ready(),
            history_in_range(state.history@),
            state.history@.len() < u32::MAX,
        ensures
            final(self).ready(),
            r matches Some(m) ==> legal_move(state.board.cells@, state.side_to_move, m),
            !(exists|m: Move| #[trigger] legal_move(state.board.cells@, state.side_to_move, m))
                ==> r is None,
    ;
}

impl Engine for SearchEngine {
    open spec fn ready(&self) -> bool {
        self.wf()
    }

    fn name(&self) -> (s: String)
        ensures
            s@ == alphabeta_label(self.max_depth_view(), self.budget_view()),
    {
        self.label()
    }

    fn best_move(&mut self, state: &GameState) -> (r: Option<Move>)
        ensures
            r is None <==> !exists|m: Move|
                #[trigger] legal_move(state.board.cells@, state.side_to_move, m),
    {
        SearchEngine::best_move(self, state)
    }
}

/// Which engine to build. `AlphaBeta` is the bundled in-process searcher;
/// `AlphaZero` drives the trained network via the Python MCTS sidecar.
#[derive(Debug, Clone, Copy, PartialEq, Eq, Structural, Default)]
pub enum EngineKind {
    #[default]
    AlphaBeta,
    AlphaZero,
}

impl EngineKind {
    /// Short Chinese label for the engine-selection UI.
    pub fn label(self) -> (s: &'static str)
        ensures
            s@ == (match self {
                EngineKind::AlphaBeta => "内置 AlphaBeta"@,
                EngineKind::AlphaZero => "AlphaZero"@,
            }),
    {
        match self {
            EngineKind::AlphaBeta => "内置 AlphaBeta",
            EngineKind::AlphaZero => "AlphaZero",
        }
    }
}

/// An engine as built for a difficulty: the in-process searcher, or the
/// simulation count for the AlphaZero sidecar, which runs as a separate
/// process started by the program around this library.
pub enum EngineSetup {
    AlphaBeta(SearchEngine),
    AlphaZero { sims: u32 },
}

/// Difficulty clamped to 1..=5.
pub open spec fn level(difficulty: u8) -> int {
    if difficulty < 1 {
        1
    } else if difficulty > 5 {
        5
    } else {
        difficulty as int
    }
}

/// Search depth limit of each difficulty.
pub open spec fn depth_for(level: int) -> u8 {
    if level == 1 {
        3
    } else if level == 2 {
        5
    } else if level == 3 {
        7
    } else if level == 4 {
        10
    } else {
        14
    }
}

/// Per-move time budget, in milliseconds, of each difficulty.
pub open spec fn budget_ms_for(level: int) -> u64 {
    if level == 1 {
        120
    } else if level == 2 {
        350
    } else if level == 3 {
        900
    } else if level == 4 {
        2_000
    } else {
        4_500
    }
}

/// MCTS simulations per move of each difficulty.
pub open spec fn sims_for(level: int) -> u32 {
    if level == 1 {
        40
    } else if level == 2 {
        100
    } else if level == 3 {
        200
    } else if level == 4 {
        400
    } else {
        800
    }
}

/// Build an engine of `kind` for a given difficulty (1 = easiest .. 5 =
/// hardest). For `AlphaBeta`, difficulty maps to a max search depth and a
/// per-move time budget (iterative deepening stops at whichever limit is hit
/// first). For `AlphaZero`, difficulty maps to the MCTS simulation count.
pub fn make_engine(kind: EngineKind, difficulty: u8, _perspective: Color) -> (e: EngineSetup)
    ensures
        e.ready(),
        kind == EngineKind::AlphaBeta ==> (e matches EngineSetup::AlphaBeta(s)
            && s.max_depth_view() == depth_for(level(difficulty)) && s.budget_view()
            == duration_from_millis(budget_ms_for(level(difficulty))) && s.nodes_view() == 0
            && s.next_node_free()),
        kind == EngineKind::AlphaZero ==> e == (EngineSetup::AlphaZero {
            sims: sims_for(level(difficulty)),
        }),
{
    let d: u8 = if difficulty < 1 {
        1
    } else if difficulty > 5 {
        5
    } else {
        difficulty
    };
    match kind {
        EngineKind::AlphaBeta => {
            let (depth, ms): (u8, u64) = match d {
                1 => (3, 120),
                2 => (5, 350),
                3 => (7, 900),
                4 => (10, 2_000),
                _ => (14, 4_500),
            };
            assert(depth == depth_for(level(difficulty)) && ms == budget_ms_for(level(difficulty)));
            EngineSetup::AlphaBeta(SearchEngine::new(depth, millis(ms)))
        },
        EngineKind::AlphaZero => {
            let sims: u32 = match d {
                1 => 40,
                2 => 100,
                3 => 200,
                4 => 400,
                _ => 800,
            };
            EngineSetup::AlphaZero { sims }
        },
    }
}

impl Engine for EngineSetup {
    open spec fn ready(&self) -> bool {
        match self {
            EngineSetup::AlphaBeta(s) => s.wf(),
            EngineSetup::AlphaZero { .. } => true,
        }
    }

    fn name(&self) -> (r: String)
        ensures
            match self {
                EngineSetup::AlphaBeta(s) => r@ == alphabeta_label(s.max_depth_view(), s.budget_view()),
                EngineSetup::AlphaZero { sims } => r@ == "AlphaZero (MCTS sims="@ + decimal(
                    *sims as nat,
                ) + ")"@,
            },
    {
        match self {
            EngineSetup::AlphaBeta(s) => s.label(),
            EngineSetup::AlphaZero { sims } => {
                let mut r = String::from_str("AlphaZero (MCTS sims=");
                push_decimal(&mut r, *sims);
                r.append(")");
                proof {
                    assert(r@ =~= "AlphaZero (MCTS sims="@ + decimal(*sims as nat) + ")"@);
                }
                r
            },
        }
    }

    /// The searcher's move; the AlphaZero setup gives none here, its moves
    /// come from the sidecar process.
    fn best_move(&mut self, state: &GameState) -> (r: Option<Move>)
        ensures
            *old(self) is AlphaZero ==> r is None,
            *old(self) is AlphaBeta ==> (r is None <==> !exists|m: Move|
                #[trigger] legal_move(state.board.cells@, state.side_to_move, m)),
    {
        match self {
            EngineSetup::AlphaBeta(s) => s.best_move(state),
            EngineSetup::AlphaZero { .. } => None,
        }
    }
}

} // verus!
