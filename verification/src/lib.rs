//! The card game Set: cards and the Set rule, the game state with its
//! claims, the team-mode roster, and what a terminal front end reads and
//! shows.

pub mod card;
pub mod cli;
pub mod display;
pub mod game;
pub mod game_end;
pub mod game_laws;
pub mod players;
pub mod set_listing;
pub mod text;
pub mod turn;
