//! A game room: its players, their racks and scores, whose turn it is, the
//! game once started, and the channel on which the room's messages go out.

use vstd::prelude::*;

use crate::board::{copy_board, with_tiles};
use crate::game::{draw_count, move_applicable, GameState};
use crate::lobby::RoomInfo;
use crate::messages::{PlayerInfo, PlayerScore, ServerMessage};
use crate::scoring::{checked_score, move_score, placed_on_board};
use crate::tile::{copy_tiles, lemma_standard_bag_len, standard_bag, PlacedTile, Tile};
use crate::validation::{error_text, move_verdict, validate_move};

verus! {

/// How many messages the room's channel holds for a slow receiver.
pub const BROADCAST_CAPACITY: usize = 32;

/// How many players a room admits.
pub const MAX_PLAYERS: usize = 4;

/// How many tiles a rack holds at the start.
pub const RACK_SIZE: usize = 7;

/// tokio's broadcast sender, declared so that a room can hold one; its
/// contents stay opaque.
#[verifier::external_type_specification]
#[verifier::external_body]
#[verifier::reject_recursive_types(T)]
pub struct ExBroadcastSender<T>(tokio::sync::broadcast::Sender<T>);

/// The sending half of a new broadcast channel for the room's messages.
///
/// Calls `tokio::sync::broadcast::channel` with `BROADCAST_CAPACITY` (not
/// zero, so it does not panic) and drops the first receiver. Nothing is
/// claimed of the sender.
#[verifier::external_body]
fn open_channel() -> tokio::sync::broadcast::Sender<ServerMessage> {
    let (tx, _rx) = tokio::sync::broadcast::channel(BROADCAST_CAPACITY);
    tx
}

/// A player of a room.
#[derive(Clone, Debug)]
pub struct Player {
    pub id: String,
    pub name: String,
    pub rack: Vec<Tile>,
    pub score: u32,
}

/// A game room.
#[derive(Debug)]
pub struct Room {
    pub code: String,
    pub players: Vec<Player>,
    pub game_state: Option<GameState>,
    pub current_player_idx: usize,
    pub ws_connected: usize,
    pub tx: tokio::sync::broadcast::Sender<ServerMessage>,
}

/// Some player has this id.
pub open spec fn holds_player(players: Seq<Player>, id: Seq<char>) -> bool {
    exists|i: int| 0 <= i < players.len() && #[trigger] players[i].id@ == id
}

/// The index of the first player at or after `i` with this id, or the number
/// of players if there is none.
pub open spec fn first_with_id(players: Seq<Player>, id: Seq<char>, i: int) -> int
    decreases players.len() - i,
{
    if i >= players.len() {
        players.len() as int
    } else if players[i].id@ == id {
        i
    } else {
        first_with_id(players, id, i + 1)
    }
}

/// The tiles of all racks, player after player.
pub open spec fn all_racks(players: Seq<Player>) -> Seq<Tile>
    decreases players.len(),
{
    if players.len() == 0 {
        Seq::empty()
    } else {
        all_racks(players.drop_last()) + players.last().rack@
    }
}

/// `x`, but at most `hi`.
pub open spec fn clip(x: int, hi: int) -> int {
    if x < hi {
        x
    } else {
        hi
    }
}

/// Two player lists hold the same players with the same ids, names and
/// scores; racks may differ.
pub open spec fn same_people(a: Seq<Player>, b: Seq<Player>) -> bool {
    &&& a.len() == b.len()
    &&& forall|i: int| 0 <= i < a.len() ==> #[trigger] a[i].id == b[i].id && a[i].name == b[i].name
        && a[i].score == b[i].score
}

/// What to do with a new connection to the room.
#[derive(Debug)]
pub enum Connection {
    /// The player is not in the room: send this and close the connection.
    Refused(ServerMessage),
    /// Send this to the new connection only.
    Reply(ServerMessage),
    /// The game has just started: send each of these to the whole room.
    Broadcast(Vec<ServerMessage>),
}

/// Whether `place_tiles` may be asked to handle this move: when it is the
/// player's turn and a game is on, the move, if accepted, lands on the board,
/// its score fits in a `u32`, and so does the player's new total.
pub open spec fn move_acceptable(room: Room, id: Seq<char>, tiles: Seq<PlacedTile>) -> bool {
    room.is_current(id) && room.game_state is Some ==> {
        let g = room.game_state->0;
        &&& move_applicable(g, tiles)
        &&& move_verdict(g.board, tiles, g.is_first_move) is Ok ==> room.players@[first_with_id(
            room.players@,
            id,
            0,
        )].score + move_score(g.board, tiles) <= u32::MAX
    }
}

/// The announced scores are the players' own, in order.
pub open spec fn scores_match(s: Seq<PlayerScore>, players: Seq<Player>) -> bool {
    &&& s.len() == players.len()
    &&& forall|i: int| 0 <= i < s.len() ==> {
        &&& (#[trigger] s[i]).player_id == players[i].id
        &&& s[i].player_name == players[i].name
        &&& s[i].score == players[i].score
    }
}

/// The announced players are the room's, in order.
pub open spec fn infos_match(v: Seq<PlayerInfo>, players: Seq<Player>) -> bool {
    &&& v.len() == players.len()
    &&& forall|i: int| 0 <= i < v.len() ==> (#[trigger] v[i]).id == players[i].id && v[i].name == players[i].name
}

/// The message is a rejection with this reason.
pub open spec fn rejected_with(msg: Option<ServerMessage>, text: Seq<char>) -> bool {
    match msg {
        Some(ServerMessage::MoveRejected { reason }) => reason@ == text,
        _ => false,
    }
}

/// The room after an accepted move, and what the room is told.
pub open spec fn move_accepted(
    before: Room,
    after: Room,
    id: Seq<char>,
    tiles: Seq<PlacedTile>,
    msg: Option<ServerMessage>,
    g: GameState,
) -> bool {
    let c = draw_count(tiles.len() as int, g.bag@.len() as int);
    let k = first_with_id(before.players@, id, 0);
    &&& match after.game_state {
        Some(g2) => {
            &&& g2.board.grid() == with_tiles(g.board.grid(), tiles)
            &&& !g2.is_first_move
            &&& g2.bag@ == g.bag@.skip(c)
            &&& match msg {
                Some(ServerMessage::MoveAccepted { board, scores, next_player, your_new_rack }) => {
                    &&& board.grid() == g2.board.grid()
                    &&& scores_match(scores@, after.players@)
                    &&& next_player@ == after.current_id()
                    &&& match your_new_rack {
                        Some(rack) => rack@ == after.players@[k].rack@,
                        None => false,
                    }
                },
                _ => false,
            }
        },
        None => false,
    }
    &&& after.players@.len() == before.players@.len()
    &&& forall|j: int| 0 <= j < before.players@.len() && j != k ==> #[trigger] after.players@[j] == before.players@[j]
    &&& after.players@[k].id == before.players@[k].id
    &&& after.players@[k].name == before.players@[k].name
    &&& after.players@[k].score == before.players@[k].score + move_score(g.board, tiles)
    &&& after.players@[k].rack@ == g.bag@.take(c)
    &&& after.current_player_idx == (before.current_player_idx + 1) % (before.players@.len() as int)
    &&& after.code == before.code
    &&& after.ws_connected == before.ws_connected
    &&& after.tx == before.tx
}

/// What placing tiles does: out of turn, a rejection; with no game, nothing;
/// a move the rules refuse, a rejection with the rule's message; otherwise
/// the accepted move. Only an accepted move changes the room.
pub open spec fn place_tiles_outcome(
    before: Room,
    after: Room,
    id: Seq<char>,
    tiles: Seq<PlacedTile>,
    msg: Option<ServerMessage>,
) -> bool {
    if !before.is_current(id) {
        after == before && rejected_with(msg, "Not your turn"@)
    } else {
        match before.game_state {
            None => after == before && msg is None,
            Some(g) => match move_verdict(g.board, tiles, g.is_first_move) {
                Err(e) => after == before && rejected_with(msg, error_text(e)),
                Ok(()) => move_accepted(before, after, id, tiles, msg, g),
            },
        }
    }
}

/// The room after its game starts: a fresh board, the first move to come,
/// every tile of the standard bag either in a rack or in the bag, racks of
/// seven drawn in turn while tiles last, and nothing else changed.
pub open spec fn started_from(before: Room, after: Room) -> bool {
    &&& after.game_state matches Some(g) && {
        &&& g.board.is_fresh()
        &&& g.is_first_move
        &&& (all_racks(after.players@) + g.bag@).to_multiset() == standard_bag().to_multiset()
    }
    &&& same_people(after.players@, before.players@)
    &&& forall|i: int| 0 <= i < after.players@.len() ==> (#[trigger] after.players@[i]).rack@.len()
        == clip(RACK_SIZE * (i + 1), 88) - clip(RACK_SIZE * i, 88)
    &&& after.code == before.code
    &&& after.current_player_idx == before.current_player_idx
    &&& after.ws_connected == before.ws_connected
    &&& after.tx == before.tx
}

/// The "game started" message for one player: the board, their rack, the
/// players, and whose turn it is.
pub open spec fn game_started_message(m: ServerMessage, room: Room, g: GameState, rack: Seq<Tile>) -> bool {
    match m {
        ServerMessage::GameStarted { board, your_rack, players, current_player } => {
            &&& board.grid() == g.board.grid()
            &&& your_rack@ == rack
            &&& infos_match(players@, room.players@)
            &&& current_player@ == room.current_id()
        },
        _ => false,
    }
}

/// What a new connection does. A player not in the room is refused with an
/// error and nothing changes. Otherwise the count of connections goes up by
/// one; during a game the player is sent the game as it stands; before a
/// game, if the room can now start, the game starts and each player is sent
/// their own "game started"; else the player is told to wait.
pub open spec fn connect_outcome(before: Room, after: Room, id: Seq<char>, c: Connection) -> bool {
    if !holds_player(before.players@, id) {
        &&& after == before
        &&& c matches Connection::Refused(ServerMessage::Error { message }) && message@ == "Player not in room"@
    } else {
        let counted = Room { ws_connected: (before.ws_connected + 1) as usize, ..before };
        match before.game_state {
            Some(g) => {
                &&& after == counted
                &&& c matches Connection::Reply(m) && game_started_message(
                    m,
                    before,
                    g,
                    before.players@[first_with_id(before.players@, id, 0)].rack@,
                )
            },
            None => {
                if before.players@.len() >= 2 && before.ws_connected + 1 >= 2 {
                    &&& started_from(counted, after)
                    &&& after.game_state matches Some(g) && c matches Connection::Broadcast(msgs) && {
                        &&& msgs@.len() == after.players@.len()
                        &&& forall|i: int| 0 <= i < msgs@.len() ==> game_started_message(
                            #[trigger] msgs@[i],
                            after,
                            g,
                            after.players@[i].rack@,
                        )
                    }
                } else {
                    &&& after == counted
                    &&& c matches Connection::Reply(ServerMessage::WaitingForOpponent)
                }
            },
        }
    }
}

pub proof fn lemma_first_with_id(players: Seq<Player>, id: Seq<char>, i: int)
    requires
        0 <= i <= players.len(),
    ensures
        i <= first_with_id(players, id, i) <= players.len(),
        first_with_id(players, id, i) < players.len() ==> players[first_with_id(players, id, i)].id@ == id,
        forall|j: int| i <= j < players.len() && (#[trigger] players[j]).id@ == id ==> first_with_id(players, id, i) <= j,
    decreases players.len() - i,
{
    if i < players.len() && players[i].id@ != id {
        lemma_first_with_id(players, id, i + 1);
    }
}

/// A player of the room who connects while its game runs is sent the game
/// with their own rack: the rack of the player with that id (the first one,
/// should two share it), never another player's; the room only counts the
/// new connection.
pub proof fn lemma_reconnect_gets_own_rack(before: Room, after: Room, id: Seq<char>, c: Connection)
    requires
        connect_outcome(before, after, id, c),
        before.game_state is Some,
        holds_player(before.players@, id),
        before.ws_connected < usize::MAX,
    ensures
        c matches Connection::Reply(ServerMessage::GameStarted { your_rack, .. }) && exists|k: int|
            0 <= k < before.players@.len() && (#[trigger] before.players@[k]).id@ == id
                && your_rack@ == before.players@[k].rack@ && forall|j: int|
                0 <= j < k ==> (#[trigger] before.players@[j]).id@ != id,
        after.players == before.players,
        after.game_state == before.game_state,
        after.ws_connected == before.ws_connected + 1,
{
    lemma_first_with_id(before.players@, id, 0);
    let k = first_with_id(before.players@, id, 0);
    let w = choose|i: int| 0 <= i < before.players@.len() && #[trigger] before.players@[i].id@ == id;
    assert(k <= w);
    assert forall|j: int| 0 <= j < k implies (#[trigger] before.players@[j]).id@ != id by {
        if before.players@[j].id@ == id {
            assert(k <= j);
        }
    }
}

/// When a connection starts the game, every player is sent their own rack:
/// message `i` goes with the rack now held by player `i`, the same player as
/// before, a rack of seven tiles while the bag lasts.
pub proof fn lemma_game_start_deals_own_racks(before: Room, after: Room, id: Seq<char>, c: Connection)
    requires
        connect_outcome(before, after, id, c),
        holds_player(before.players@, id),
        before.game_state is None,
        before.players@.len() >= 2,
        before.ws_connected >= 1,
        before.ws_connected < usize::MAX,
    ensures
        c matches Connection::Broadcast(msgs) && {
            &&& msgs@.len() == before.players@.len()
            &&& forall|i: int|
                0 <= i < msgs@.len() ==> (#[trigger] msgs@[i] matches ServerMessage::GameStarted { your_rack, .. } && {
                    &&& your_rack@ == after.players@[i].rack@
                    &&& after.players@[i].id == before.players@[i].id
                    &&& RACK_SIZE * (i + 1) <= 88 ==> your_rack@.len() == RACK_SIZE
                })
        },
{
    if let Connection::Broadcast(msgs) = c {
        assert forall|i: int| 0 <= i < msgs@.len() implies (#[trigger] msgs@[i] matches ServerMessage::GameStarted {
            your_rack,
            ..
        } && {
            &&& your_rack@ == after.players@[i].rack@
            &&& after.players@[i].id == before.players@[i].id
            &&& RACK_SIZE * (i + 1) <= 88 ==> your_rack@.len() == RACK_SIZE
        }) by {
            assert(after.players@[i].rack@.len() == clip(RACK_SIZE * (i + 1), 88) - clip(RACK_SIZE * i, 88));
        }
    }
}

impl Room {
    /// The player whose turn it is has this id.
    pub open spec fn is_current(&self, id: Seq<char>) -> bool {
        &&& self.current_player_idx < self.players@.len()
        &&& self.players@[self.current_player_idx as int].id@ == id
    }

    /// The id of the player whose turn it is, or the empty string.
    pub open spec fn current_id(&self) -> Seq<char> {
        if self.current_player_idx < self.players@.len() {
            self.players@[self.current_player_idx as int].id@
        } else {
            Seq::empty()
        }
    }

    /// An empty room with this code.
    pub fn new(code: String) -> (r: Room)
        ensures
            r.code == code,
            r.players@.len() == 0,
            r.game_state is None,
            r.current_player_idx == 0,
            r.ws_connected == 0,
    {
        Room {
            code,
            players: Vec::new(),
            game_state: None,
            current_player_idx: 0,
            ws_connected: 0,
            tx: open_channel(),
        }
    }

    /// Add a player. Returns false if the room is full or the game is in
    /// progress, leaving the room unchanged.
    pub fn add_player(&mut self, id: String, name: String) -> (added: bool)
        ensures
            added == (old(self).players@.len() < MAX_PLAYERS && old(self).game_state is None),
            old(self).players@.len() <= MAX_PLAYERS ==> final(self).players@.len() <= MAX_PLAYERS,
            !added ==> *final(self) == *old(self),
            added ==> {
                &&& final(self).players@.len() == old(self).players@.len() + 1
                &&& final(self).players@.drop_last() == old(self).players@
                &&& final(self).players@.last().id == id
                &&& final(self).players@.last().name == name
                &&& final(self).players@.last().rack@.len() == 0
                &&& final(self).players@.last().score == 0
                &&& final(self).code == old(self).code
                &&& final(self).game_state == old(self).game_state
                &&& final(self).current_player_idx == old(self).current_player_idx
                &&& final(self).ws_connected == old(self).ws_connected
                &&& final(self).tx == old(self).tx
            },
    {
        if self.players.len() >= MAX_PLAYERS || self.game_state.is_some() {
            return false;
        }
        self.players.push(Player { id, name, rack: Vec::new(), score: 0 });
        assert(self.players@.drop_last() =~= old(self).players@);
        true
    }

    /// Whether a player with this id is in the room.
    pub fn has_player(&self, player_id: &str) -> (b: bool)
        ensures
            b == holds_player(self.players@, player_id@),
    {
        let wanted = player_id.to_owned();
        let n = self.players.len();
        let mut i: usize = 0;
        while i < n
            invariant
                n == self.players@.len(),
                i <= n,
                wanted@ == player_id@,
                forall|j: int| 0 <= j < i ==> #[trigger] self.players@[j].id@ != player_id@,
            decreases n - i,
        {
            if self.players[i].id == wanted {
                return true;
            }
            i = i + 1;
        }
        false
    }

    /// Whether the game should start now: two players or more, no game yet,
    /// and two connections or more.
    pub fn should_start(&self) -> (b: bool)
        ensures
            b == (self.players@.len() >= 2 && self.game_state is None && self.ws_connected >= 2),
    {
        self.players.len() >= 2 && self.game_state.is_none() && self.ws_connected >= 2
    }

    /// Start a game: a fresh board and a shuffled bag, from which each player
    /// in turn draws a rack of seven tiles.
    pub fn start_game(&mut self)
        ensures
            started_from(*old(self), *final(self)),
    {
        let mut state = GameState::new();
        let ghost shuffled = state.bag@;
        proof {
            lemma_standard_bag_len();
            broadcast use vstd::seq_lib::group_to_multiset_ensures;
            assert(shuffled.len() == 88) by {
                assert(shuffled.to_multiset().len() == standard_bag().to_multiset().len());
            }
        }
        let n = self.players.len();
        let mut i: usize = 0;
        assert(all_racks(self.players@.take(0)) =~= shuffled.take(0));
        assert(shuffled.skip(0) =~= shuffled);
        while i < n
            invariant
                n == self.players@.len(),
                i <= n,
                shuffled.len() == 88,
                state.board.is_fresh(),
                state.is_first_move,
                shuffled.to_multiset() == standard_bag().to_multiset(),
                state.bag@ == shuffled.skip(clip(RACK_SIZE * i, 88)),
                all_racks(self.players@.take(i as int)) == shuffled.take(clip(RACK_SIZE * i, 88)),
                same_people(self.players@, old(self).players@),
                forall|j: int| i <= j < n ==> #[trigger] self.players@[j] == old(self).players@[j],
                forall|j: int| 0 <= j < i ==> (#[trigger] self.players@[j]).rack@.len()
                    == clip(RACK_SIZE * (j + 1), 88) - clip(RACK_SIZE * j, 88),
                self.code == old(self).code,
                self.game_state == old(self).game_state,
                self.current_player_idx == old(self).current_player_idx,
                self.ws_connected == old(self).ws_connected,
                self.tx == old(self).tx,
            decreases n - i,
        {
            let ghost before = self.players@;
            let rack = state.draw_tiles(RACK_SIZE);
            let ghost c0 = clip(RACK_SIZE * i, 88);
            let ghost c1 = clip(RACK_SIZE * (i + 1), 88);
            assert(rack@ =~= shuffled.subrange(c0, c1));
            assert(state.bag@ =~= shuffled.skip(c1));
            let mut p = self.players.remove(i);
            p.rack = rack;
            self.players.insert(i, p);
            assert(self.players@ =~= before.update(i as int, self.players@[i as int]));
            assert(same_people(self.players@, before));
            assert(self.players@.take(i + 1).drop_last() =~= before.take(i as int));
            assert(shuffled.take(c0) + shuffled.subrange(c0, c1) =~= shuffled.take(c1));
            i = i + 1;
        }
        assert(self.players@.take(n as int) =~= self.players@);
        assert(all_racks(self.players@) + state.bag@ =~= shuffled);
        self.game_state = Some(state);
    }

    /// The id of the player whose turn it is, if that index names a player.
    pub fn current_player_id(&self) -> (id: Option<&str>)
        ensures
            id matches Some(s) ==> self.current_player_idx < self.players@.len() && s@ == self.current_id(),
            id is None ==> self.current_player_idx >= self.players@.len(),
    {
        if self.current_player_idx < self.players.len() {
            Some(self.players[self.current_player_idx].id.as_str())
        } else {
            None
        }
    }

    /// Pass the turn to the next player, wrapping around.
    pub fn advance_turn(&mut self)
        requires
            old(self).players@.len() > 0,
            old(self).current_player_idx < usize::MAX,
        ensures
            final(self).current_player_idx == (old(self).current_player_idx + 1) % (old(self).players@.len() as int),
            final(self).current_player_idx < final(self).players@.len(),
            final(self).players == old(self).players,
            final(self).code == old(self).code,
            final(self).game_state == old(self).game_state,
            final(self).ws_connected == old(self).ws_connected,
            final(self).tx == old(self).tx,
    {
        self.current_player_idx = (self.current_player_idx + 1) % self.players.len();
    }

    /// Each player's id, name and score, in the order the players joined.
    pub fn scores(&self) -> (s: Vec<PlayerScore>)
        ensures
            s@.len() == self.players@.len(),
            forall|i: int| 0 <= i < s@.len() ==> {
                &&& (#[trigger] s@[i]).player_id == self.players@[i].id
                &&& s@[i].player_name == self.players@[i].name
                &&& s@[i].score == self.players@[i].score
            },
    {
        let mut s: Vec<PlayerScore> = Vec::new();
        let n = self.players.len();
        let mut i: usize = 0;
        while i < n
            invariant
                n == self.players@.len(),
                i <= n,
                s@.len() == i,
                forall|j: int| 0 <= j < i ==> {
                    &&& (#[trigger] s@[j]).player_id == self.players@[j].id
                    &&& s@[j].player_name == self.players@[j].name
                    &&& s@[j].score == self.players@[j].score
                },
            decreases n - i,
        {
            let p = &self.players[i];
            s.push(PlayerScore { player_id: p.id.clone(), player_name: p.name.clone(), score: p.score });
            i = i + 1;
        }
        s
    }

    /// Each player's id and name, in the order the players joined.
    pub fn player_infos(&self) -> (v: Vec<PlayerInfo>)
        ensures
            v@.len() == self.players@.len(),
            forall|i: int| 0 <= i < v@.len() ==> (#[trigger] v@[i]).id == self.players@[i].id && v@[i].name
                == self.players@[i].name,
    {
        let mut v: Vec<PlayerInfo> = Vec::new();
        let n = self.players.len();
        let mut i: usize = 0;
        while i < n
            invariant
                n == self.players@.len(),
                i <= n,
                v@.len() == i,
                forall|j: int| 0 <= j < i ==> (#[trigger] v@[j]).id == self.players@[j].id && v@[j].name
                    == self.players@[j].name,
            decreases n - i,
        {
            let p = &self.players[i];
            v.push(PlayerInfo { id: p.id.clone(), name: p.name.clone() });
            i = i + 1;
        }
        v
    }

    /// Whether it is the turn of the player with this id.
    fn is_current_player(&self, player_id: &str) -> (b: bool)
        ensures
            b == self.is_current(player_id@),
            b ==> self.current_player_idx < usize::MAX,
    {
        if self.current_player_idx < self.players.len() {
            let wanted = player_id.to_owned();
            self.players[self.current_player_idx].id == wanted
        } else {
            false
        }
    }

    /// The id of the player whose turn it is, or the empty string.
    fn current_player_string(&self) -> (s: String)
        ensures
            s@ == self.current_id(),
    {
        if self.current_player_idx < self.players.len() {
            self.players[self.current_player_idx].id.clone()
        } else {
            String::new()
        }
    }

    /// The index of the first player with this id, or the number of players.
    fn find_player(&self, player_id: &str) -> (k: usize)
        ensures
            k == first_with_id(self.players@, player_id@, 0),
    {
        let wanted = player_id.to_owned();
        let n = self.players.len();
        let mut i: usize = 0;
        while i < n
            invariant
                n == self.players@.len(),
                i <= n,
                wanted@ == player_id@,
                first_with_id(self.players@, player_id@, 0) == first_with_id(self.players@, player_id@, i as int),
            decreases n - i,
        {
            if self.players[i].id == wanted {
                return i;
            }
            i = i + 1;
        }
        n
    }

    /// The room as listed by the lobby.
    pub fn info(&self) -> (i: RoomInfo)
        ensures
            i.code == self.code,
            i.player_count == self.players@.len(),
            i.in_progress == self.game_state is Some,
    {
        RoomInfo {
            code: self.code.clone(),
            player_count: self.players.len(),
            in_progress: self.game_state.is_some(),
        }
    }

    /// A player's connection closes.
    pub fn disconnect(&mut self)
        ensures
            final(self).ws_connected == (if old(self).ws_connected > 0 { old(self).ws_connected - 1 } else { 0 }),
            final(self).players == old(self).players,
            final(self).code == old(self).code,
            final(self).game_state == old(self).game_state,
            final(self).current_player_idx == old(self).current_player_idx,
            final(self).tx == old(self).tx,
    {
        self.ws_connected = self.ws_connected.saturating_sub(1);
    }

    /// A player passes: when it is their turn, the turn moves on and the room
    /// is told whose turn it is; otherwise nothing happens.
    pub fn pass_turn(&mut self, player_id: &str) -> (msg: Option<ServerMessage>)
        ensures
            !old(self).is_current(player_id@) ==> msg is None && *final(self) == *old(self),
            old(self).is_current(player_id@) ==> {
                &&& final(self).current_player_idx == (old(self).current_player_idx + 1) % (old(
                    self,
                ).players@.len() as int)
                &&& final(self).players == old(self).players
                &&& final(self).game_state == old(self).game_state
                &&& final(self).code == old(self).code
                &&& final(self).ws_connected == old(self).ws_connected
                &&& final(self).tx == old(self).tx
                &&& msg matches Some(ServerMessage::TurnChanged { current_player }) && current_player@
                    == final(self).current_id()
            },
    {
        if self.is_current_player(player_id) {
            self.advance_turn();
            let next = self.current_player_string();
            Some(ServerMessage::TurnChanged { current_player: next })
        } else {
            None
        }
    }

    /// A player places tiles. Out of turn the move is rejected with "Not
    /// your turn"; with no game nothing happens; a move the rules refuse is
    /// rejected with the rule's message; an accepted move is scored and laid
    /// on the board, the player draws as many tiles as they placed, gains the
    /// score and takes the drawn tiles as their rack, the turn moves on, and the
    /// room is told the new board, scores, next player and rack. Only a
    /// rejection leaves the room as it was.
    pub fn place_tiles(&mut self, player_id: &str, tiles: &[PlacedTile]) -> (msg: Option<ServerMessage>)
        requires
            move_acceptable(*old(self), player_id@, tiles@),
        ensures
            place_tiles_outcome(*old(self), *final(self), player_id@, tiles@, msg),
    {
        if !self.is_current_player(player_id) {
            return Some(ServerMessage::MoveRejected { reason: String::from_str("Not your turn") });
        }
        let mut state = match self.game_state.take() {
            Some(g) => g,
            None => {
                return None;
            },
        };
        let ghost g0 = state;
        match state.apply_move(tiles) {
            Err(reason) => {
                self.game_state = Some(state);
                Some(ServerMessage::MoveRejected { reason })
            },
            Ok(score) => {
                let new_rack = state.draw_tiles(tiles.len());
                let board = copy_board(&state.board);
                self.game_state = Some(state);
                let k = self.find_player(player_id);
                proof {
                    lemma_first_with_id(self.players@, player_id@, 0);
                }
                let ghost before = self.players@;
                let mut p = self.players.remove(k);
                p.score = p.score + score;
                p.rack = copy_tiles(&new_rack);
                self.players.insert(k, p);
                assert forall|j: int| 0 <= j < before.len() && j != k implies #[trigger] self.players@[j] == before[j] by {}
                self.advance_turn();
                let scores = self.scores();
                let next_player = self.current_player_string();
                Some(ServerMessage::MoveAccepted { board, scores, next_player, your_new_rack: Some(new_rack) })
            },
        }
    }

    /// The "game started" message for each player, in order.
    fn game_started_messages(&self, g: &GameState) -> (msgs: Vec<ServerMessage>)
        ensures
            msgs@.len() == self.players@.len(),
            forall|i: int| 0 <= i < msgs@.len() ==> game_started_message(
                #[trigger] msgs@[i],
                *self,
                *g,
                self.players@[i].rack@,
            ),
    {
        let mut msgs: Vec<ServerMessage> = Vec::new();
        let n = self.players.len();
        let mut i: usize = 0;
        while i < n
            invariant
                n == self.players@.len(),
                i <= n,
                msgs@.len() == i,
                forall|j: int| 0 <= j < i ==> game_started_message(
                    #[trigger] msgs@[j],
                    *self,
                    *g,
                    self.players@[j].rack@,
                ),
            decreases n - i,
        {
            let m = ServerMessage::GameStarted {
                board: copy_board(&g.board),
                your_rack: copy_tiles(&self.players[i].rack),
                players: self.player_infos(),
                current_player: self.current_player_string(),
            };
            msgs.push(m);
            i = i + 1;
        }
        msgs
    }

    /// A player opens a connection to the room.
    pub fn connect(&mut self, player_id: &str) -> (c: Connection)
        requires
            holds_player(old(self).players@, player_id@) ==> old(self).ws_connected < usize::MAX,
        ensures
            connect_outcome(*old(self), *final(self), player_id@, c),
    {
        if !self.has_player(player_id) {
            return Connection::Refused(ServerMessage::Error { message: String::from_str("Player not in room") });
        }
        self.ws_connected = self.ws_connected + 1;
        match &self.game_state {
            Some(g) => {
                let k = self.find_player(player_id);
                proof {
                    lemma_first_with_id(self.players@, player_id@, 0);
                }
                let m = ServerMessage::GameStarted {
                    board: copy_board(&g.board),
                    your_rack: copy_tiles(&self.players[k].rack),
                    players: self.player_infos(),
                    current_player: self.current_player_string(),
                };
                Connection::Reply(m)
            },
            None => {
                if self.should_start() {
                    self.start_game();
                    match &self.game_state {
                        Some(g) => Connection::Broadcast(self.game_started_messages(g)),
                        None => Connection::Reply(ServerMessage::WaitingForOpponent),
                    }
                } else {
                    Connection::Reply(ServerMessage::WaitingForOpponent)
                }
            },
        }
    }

    /// Whether `place_tiles` may be asked to handle this move (see
    /// `move_acceptable`).
    pub fn move_allowed(&self, player_id: &str, tiles: &[PlacedTile]) -> (b: bool)
        ensures
            b == move_acceptable(*self, player_id@, tiles@),
    {
        if !self.is_current_player(player_id) {
            return true;
        }
        let g = match &self.game_state {
            Some(g) => g,
            None => {
                return true;
            },
        };
        if validate_move(&g.board, tiles, g.is_first_move).is_err() {
            return true;
        }
        if !placed_on_board(&g.board, tiles) {
            return false;
        }
        let score = match checked_score(&g.board, tiles) {
            Some(s) => s,
            None => {
                return false;
            },
        };
        let k = self.find_player(player_id);
        proof {
            lemma_first_with_id(self.players@, player_id@, 0);
        }
        self.players[k].score.checked_add(score).is_some()
    }
}

} // verus!
