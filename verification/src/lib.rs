//! Rating and ranking of players who compete as two-person teams.
//!
//! The library holds the exact, integer part of the engine:
//!
//! - `team`, `level`, `instant`: the values a tournament is made of;
//! - `tournament`: validation of finishing placements, and the
//!   strength-of-field bonus of every place under a rank table;
//! - `record`: the bounded record of a player's best results;
//! - `ranking`: ranks from ratings, and the schedule by which ranks are
//!   derived anew while tournaments are fed in the order of their time;
//! - `score`: integers that order as the points and ratings do, which are
//!   binary floating-point numbers and are added up by the caller;
//! - `parse`: results as rows of text fields.

pub mod team;
pub mod level;
pub mod instant;
pub mod score;
pub mod tournament;
pub mod record;
pub mod ranking;
pub mod parse;
