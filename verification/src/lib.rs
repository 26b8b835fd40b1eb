//! Draw-history analysis for the airship / racing lottery games: which game is
//! queried, how a consecutive-pattern query such as `單單雙` is read, which
//! stretches of consecutive draws (ordered by draw number) follow it, how draw
//! times are shown in Beijing time, and the state of the viewer that drives all
//! of this.
#![allow(non_snake_case)]

pub mod game;
pub mod text;
pub mod pattern;
pub mod draw;
pub mod order;
pub mod search;
pub mod clock;
pub mod viewer;
pub mod display;
pub mod laws;
pub mod pattern_laws;
pub mod display_laws;

pub use game::GameType;
pub use draw::DrawResult;
pub use pattern::{Rule, matches_rule, parse_pattern};
pub use viewer::MyApp;
pub use display::DisplayItem;
