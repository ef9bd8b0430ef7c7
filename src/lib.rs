//! A bounded leaderboard: the best scores, ranked, and their rendering.

pub mod laws;
pub mod render;
pub mod table;

pub use render::high_scores_html;
pub use table::{HighScoreEntry, HighScoreTable, StateError, CAPACITY};
