//! The messages exchanged with players over a room's connection.

use vstd::prelude::*;

use crate::board::Board;
use crate::tile::{PlacedTile, Tile};

verus! {

/// What a player sends.
#[derive(Clone, Debug)]
pub enum ClientMessage {
    PlaceTiles { tiles: Vec<PlacedTile> },
    ExchangeTiles { indices: Vec<usize> },
    PassTurn,
}

/// What the server sends to the players of a room.
#[derive(Clone, Debug)]
pub enum ServerMessage {
    RoomJoined { room_code: String, player_id: String },
    WaitingForOpponent,
    GameStarted { board: Board, your_rack: Vec<Tile>, players: Vec<PlayerInfo>, current_player: String },
    MoveAccepted {
        board: Board,
        scores: Vec<PlayerScore>,
        next_player: String,
        your_new_rack: Option<Vec<Tile>>,
    },
    MoveRejected { reason: String },
    TurnChanged { current_player: String },
    GameOver { scores: Vec<PlayerScore>, winner: String },
    Error { message: String },
}

/// A player as the other players see them.
#[derive(Clone, Debug)]
pub struct PlayerInfo {
    pub id: String,
    pub name: String,
}

/// A player's score as announced to the room.
#[derive(Clone, Debug)]
pub struct PlayerScore {
    pub player_id: String,
    pub player_name: String,
    pub score: u32,
}

} // verus!
