//! Creating, joining and listing rooms.

use vstd::prelude::*;

use rand::distributions::Alphanumeric;
use rand::Rng;

use crate::room::Room;
use crate::text::push_char;

verus! {

/// A request to open a room.
#[derive(Clone, Debug)]
pub struct CreateRoomRequest {
    pub player_name: String,
}

/// The room a player is in, and the id the player plays under.
#[derive(Clone, Debug)]
pub struct RoomResponse {
    pub room_code: String,
    pub player_id: String,
}

/// A request to join a room.
#[derive(Clone, Debug)]
pub struct JoinRoomRequest {
    pub player_name: String,
}

/// A room as the lobby lists it.
#[derive(Clone, Debug)]
pub struct RoomInfo {
    pub code: String,
    pub player_count: usize,
    pub in_progress: bool,
}

/// An ASCII letter or digit.
pub open spec fn is_ascii_alphanumeric(c: char) -> bool {
    ('a' <= c <= 'z') || ('A' <= c <= 'Z') || ('0' <= c <= '9')
}

/// An upper-case ASCII letter or a digit.
pub open spec fn is_code_char(c: char) -> bool {
    ('A' <= c <= 'Z') || ('0' <= c <= '9')
}

/// A lower-case hexadecimal digit.
pub open spec fn is_lower_hex(c: char) -> bool {
    ('a' <= c <= 'f') || ('0' <= c <= '9')
}

/// The text of a version-4 UUID in hyphenated lower-case form:
/// 36 characters, hyphens at 8, 13, 18 and 23, hexadecimal digits elsewhere.
pub open spec fn is_hyphenated_uuid(s: Seq<char>) -> bool {
    &&& s.len() == 36
    &&& forall|i: int| 0 <= i < 36 ==> if i == 8 || i == 13 || i == 18 || i == 23 {
        #[trigger] s[i] == '-'
    } else {
        is_lower_hex(s[i])
    }
}

/// A letter in upper case; other characters unchanged.
pub open spec fn upper_ascii(c: char) -> char {
    if 'a' <= c <= 'z' {
        ((c as int) - 32) as char
    } else {
        c
    }
}

/// `len` characters drawn at random from the ASCII letters and digits.
///
/// Samples `rand::distributions::Alphanumeric` through `rand::Rng::sample_iter`
/// on `rand::thread_rng()`, whose source draws each byte from
/// `A-Z`, `a-z` and `0-9`. Claimed: the length, and that every character is
/// an ASCII letter or digit; which ones is left open.
#[verifier::external_body]
fn random_alphanumeric(len: usize) -> (s: String)
    ensures
        s@.len() == len,
        forall|i: int| 0 <= i < len ==> is_ascii_alphanumeric(#[trigger] s@[i]),
{
    rand::thread_rng().sample_iter(&Alphanumeric).take(len).map(char::from).collect()
}

/// A fresh random player id.
///
/// Calls `uuid::Uuid::new_v4` and writes it with `to_string`, whose `Display`
/// writes the hyphenated lower-case form. Claimed: that form; the digits are
/// left open.
#[verifier::external_body]
fn new_player_id() -> (s: String)
    ensures
        is_hyphenated_uuid(s@),
{
    uuid::Uuid::new_v4().to_string()
}

/// The string with its ASCII letters in upper case.
fn to_upper_ascii(s: &String) -> (u: String)
    ensures
        u@ == s@.map_values(|c: char| upper_ascii(c)),
{
    let text = s.as_str();
    let n = text.unicode_len();
    let mut u = String::new();
    let mut i: usize = 0;
    while i < n
        invariant
            n == s@.len(),
            text@ == s@,
            i <= n,
            u@ == s@.take(i as int).map_values(|c: char| upper_ascii(c)),
        decreases n - i,
    {
        let c = text.get_char(i);
        let up = if 'a' <= c && c <= 'z' {
            ((c as u32) - 32) as u8 as char
        } else {
            c
        };
        assert(up == upper_ascii(c));
        push_char(&mut u, up);
        i = i + 1;
        assert(u@ =~= s@.take(i as int).map_values(|c: char| upper_ascii(c)));
    }
    assert(s@.take(n as int) =~= s@);
    u
}

/// A new room code: six random letters and digits, the letters in upper case.
pub fn new_room_code() -> (code: String)
    ensures
        code@.len() == 6,
        forall|i: int| 0 <= i < 6 ==> is_code_char(#[trigger] code@[i]),
{
    let raw = random_alphanumeric(6);
    let code = to_upper_ascii(&raw);
    assert forall|i: int| 0 <= i < 6 implies is_code_char(#[trigger] code@[i]) by {
        assert(is_ascii_alphanumeric(raw@[i]));
        assert(code@[i] == upper_ascii(raw@[i]));
    }
    code
}

/// Open a room for the player who asks: a new code, a new player id, and the
/// room with that player alone in it.
pub fn open_room(req: CreateRoomRequest) -> (r: (Room, RoomResponse))
    ensures
        r.0.code@ == r.1.room_code@,
        r.1.room_code@.len() == 6,
        forall|i: int| 0 <= i < 6 ==> is_code_char(#[trigger] r.1.room_code@[i]),
        is_hyphenated_uuid(r.1.player_id@),
        r.0.players@.len() == 1,
        r.0.players@[0].id@ == r.1.player_id@,
        r.0.players@[0].name == req.player_name,
        r.0.players@[0].rack@.len() == 0,
        r.0.players@[0].score == 0,
        r.0.game_state is None,
        r.0.current_player_idx == 0,
        r.0.ws_connected == 0,
{
    let room_code = new_room_code();
    let player_id = new_player_id();
    let mut room = Room::new(room_code.clone());
    let added = room.add_player(player_id.clone(), req.player_name);
    assert(added);
    (room, RoomResponse { room_code, player_id })
}

impl Room {
    /// A player asks to join: with a new id, unless the room is full or its
    /// game has started, in which case the room is unchanged.
    pub fn join(&mut self, req: JoinRoomRequest) -> (r: Option<RoomResponse>)
        ensures
            r is Some <==> (old(self).players@.len() < crate::room::MAX_PLAYERS && old(self).game_state is None),
            r is None ==> *final(self) == *old(self),
            old(self).players@.len() <= crate::room::MAX_PLAYERS ==> final(self).players@.len()
                <= crate::room::MAX_PLAYERS,
            r matches Some(resp) ==> {
                &&& resp.room_code == old(self).code
                &&& is_hyphenated_uuid(resp.player_id@)
                &&& final(self).players@.len() == old(self).players@.len() + 1
                &&& final(self).players@.drop_last() == old(self).players@
                &&& final(self).players@.last().id@ == resp.player_id@
                &&& final(self).players@.last().name == req.player_name
                &&& final(self).players@.last().rack@.len() == 0
                &&& final(self).players@.last().score == 0
                &&& final(self).code == old(self).code
                &&& final(self).game_state == old(self).game_state
                &&& final(self).current_player_idx == old(self).current_player_idx
                &&& final(self).ws_connected == old(self).ws_connected
                &&& final(self).tx == old(self).tx
            },
    {
        let player_id = new_player_id();
        if self.add_player(player_id.clone(), req.player_name) {
            Some(RoomResponse { room_code: self.code.clone(), player_id })
        } else {
            None
        }
    }
}

} // verus!
