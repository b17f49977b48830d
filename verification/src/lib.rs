pub mod bot;
pub mod game;
pub mod grid;
pub mod player;

pub use bot::{
    best_indices, generate_indices, search, Eval, Evaluate, BOT_DEPTH, EVAL_HEURISTIC_MAX,
    EVAL_NEUTRAL, EVAL_WIN_WEIGHT, WEIGHTS_SUM,
};
pub use game::{Game, MatchStatus};
pub use grid::{Grid, SubGrid};
pub use player::Player;
