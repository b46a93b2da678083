pub mod bag;
pub mod board;
pub mod dsu;
pub mod key_action;
pub mod locations;
pub mod movement;
pub mod pc;
pub mod pc_state;
pub mod picture;
pub mod piece;
pub mod placement;
pub mod search_state;
pub mod setup;
pub mod solver;
pub mod stats;
