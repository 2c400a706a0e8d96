//! gol_rs — Life-like cellular automata with verified grid, rule, pattern and
//! codec logic.

pub mod cli;
pub mod grid;
pub mod history;
pub mod pattern;
pub mod patterns;
pub mod rle;
pub mod rule;
pub mod save_load;
pub mod render;
pub mod server;
pub mod session;
pub mod simulation;
pub mod sparkline;
pub mod state;
pub mod term;
pub mod text;
pub mod theme;
pub mod transform;
pub mod wire;

pub use grid::{Grid, StepStats};
pub use rule::{CaRule, Rule};
