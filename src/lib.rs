//! The core of a two-player connect-four game: the board state machine
//! (legality, moves and their undo, win and draw detection), a depth-limited
//! negamax search for an automated player, and the turn logic that reacts to
//! game events.

pub mod player;
pub mod board;
pub mod search;
pub mod events;
