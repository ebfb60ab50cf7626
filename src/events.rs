use vstd::prelude::*;

use crate::board::{empty_view, Board, BoardState, BoardView, GameResult, Move};
use crate::player::Player;

verus! {

/// The pause before the next turn, in milliseconds.
pub const TURN_DELAY_MS: u32 = 100;

/// The pause between the end of a game and the next one, in milliseconds.
pub const RESET_DELAY_MS: u32 = 5000;

/// What happens in a game, in the order the turn logic handles it.
#[derive(Clone, Copy, Debug, PartialEq, Eq, Structural)]
pub enum GameEvent {
    StartGame(Player),
    RequestMove(Player),
    DoMove(Move),
    EndGame(GameResult),
    ResetBoard,
}

/// An event to deliver after a pause of the given milliseconds.
#[derive(Clone, Copy, Debug, PartialEq, Eq, Structural)]
pub struct DelayEvent(pub GameEvent, pub u32);

/// The board after the turn logic handles `event` on `v`, and the event it
/// schedules next: a move is placed (if legal) and followed by a request to
/// the player to move or by the end of the game; the end of a game schedules
/// a reset; a reset empties the board and starts a game with its first
/// player; a start asks that player for a move; a request is left to the players.
pub open spec fn turn_step(v: BoardView, event: GameEvent) -> (BoardView, Option<DelayEvent>) {
    match event {
        GameEvent::DoMove(m) => {
            let after = if v.is_legal(m) {
                v.apply(m)
            } else {
                v
            };
            let next = match after.state() {
                BoardState::Playing => GameEvent::RequestMove(after.cur),
                BoardState::GameOver(result) => GameEvent::EndGame(result),
            };
            (after, Some(DelayEvent(next, TURN_DELAY_MS)))
        },
        GameEvent::EndGame(_) => (v, Some(DelayEvent(GameEvent::ResetBoard, RESET_DELAY_MS))),
        GameEvent::StartGame(p) => (v, Some(DelayEvent(GameEvent::RequestMove(p), TURN_DELAY_MS))),
        GameEvent::ResetBoard => (
            empty_view(7, 6),
            Some(DelayEvent(GameEvent::StartGame(Player::PlayerOne), TURN_DELAY_MS)),
        ),
        GameEvent::RequestMove(_) => (v, None),
    }
}

/// Handles one game event on the authoritative board and returns the event
/// to schedule next, as `turn_step` describes.
pub fn on_game_event(board: &mut Board, event: GameEvent) -> (r: Option<DelayEvent>)
    requires
        old(board).wf(),
    ensures
        final(board).wf(),
        (final(board)@, r) == turn_step(old(board)@, event),
{
    match event {
        GameEvent::DoMove(m) => {
            board.do_move(m);
            let next = match board.get_board_state() {
                BoardState::Playing => GameEvent::RequestMove(board.cur_player),
                BoardState::GameOver(result) => GameEvent::EndGame(result),
            };
            Some(DelayEvent(next, TURN_DELAY_MS))
        },
        GameEvent::EndGame(_) => Some(DelayEvent(GameEvent::ResetBoard, RESET_DELAY_MS)),
        GameEvent::StartGame(player) => Some(
            DelayEvent(GameEvent::RequestMove(player), TURN_DELAY_MS),
        ),
        GameEvent::ResetBoard => {
            *board = Board::new();
            Some(DelayEvent(GameEvent::StartGame(board.cur_player), TURN_DELAY_MS))
        },
        GameEvent::RequestMove(_) => None,
    }
}

} // verus!
