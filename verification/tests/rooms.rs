use equate::lobby::{new_room_code, open_room, CreateRoomRequest, JoinRoomRequest};
use equate::messages::ServerMessage;
use equate::room::{Connection, Room};
use equate::tile::{build_tile_bag, Operator, PlacedTile, Tile};

fn room_with(ids: &[&str]) -> Room {
    let mut room = Room::new("ROOM42".to_string());
    for id in ids {
        assert!(room.add_player(id.to_string(), format!("name-{id}")));
    }
    room
}

fn three_plus_four_at_center() -> Vec<PlacedTile> {
    let tiles = vec![Tile::number(3), Tile::operator(Operator::Add), Tile::number(4), Tile::equals(), Tile::number(7)];
    tiles.into_iter().enumerate().map(|(i, tile)| PlacedTile { tile, row: 9, col: 9 + i }).collect()
}

#[test]
fn new_room_is_empty() {
    let room = Room::new("ABC123".to_string());
    assert_eq!(room.code, "ABC123");
    assert!(room.players.is_empty());
    assert!(room.game_state.is_none());
    assert_eq!(room.current_player_idx, 0);
    assert_eq!(room.ws_connected, 0);
}

#[test]
fn room_admits_four_players() {
    let mut room = room_with(&["a", "b", "c", "d"]);
    assert!(!room.add_player("e".to_string(), "E".to_string()));
    assert_eq!(room.players.len(), 4);
    assert!(room.has_player("c"));
    assert!(!room.has_player("e"));
}

#[test]
fn no_joining_once_started() {
    let mut room = room_with(&["a", "b"]);
    room.start_game();
    assert!(!room.add_player("c".to_string(), "C".to_string()));
}

#[test]
fn start_game_deals_racks_of_seven() {
    let mut room = room_with(&["a", "b"]);
    room.start_game();
    assert_eq!(room.players[0].rack.len(), 7);
    assert_eq!(room.players[1].rack.len(), 7);
    assert_eq!(room.game_state.as_ref().unwrap().bag.len(), 74);
}

#[test]
fn start_game_keeps_every_tile() {
    let mut room = room_with(&["a", "b", "c"]);
    room.start_game();
    let mut dealt: Vec<String> = room.players.iter().flat_map(|p| p.rack.iter()).map(|t| format!("{:?}", t)).collect();
    dealt.extend(room.game_state.as_ref().unwrap().bag.iter().map(|t| format!("{:?}", t)));
    let mut standard: Vec<String> = build_tile_bag().iter().map(|t| format!("{:?}", t)).collect();
    dealt.sort();
    standard.sort();
    assert_eq!(dealt, standard);
}

#[test]
fn should_start_needs_two_players_and_connections() {
    let mut room = room_with(&["a", "b"]);
    assert!(!room.should_start());
    room.ws_connected = 2;
    assert!(room.should_start());
    room.start_game();
    assert!(!room.should_start());
}

#[test]
fn turns_rotate() {
    let mut room = room_with(&["a", "b", "c"]);
    assert_eq!(room.current_player_id(), Some("a"));
    room.advance_turn();
    assert_eq!(room.current_player_id(), Some("b"));
    room.advance_turn();
    room.advance_turn();
    assert_eq!(room.current_player_id(), Some("a"));
    assert_eq!(Room::new("X".to_string()).current_player_id(), None);
}

#[test]
fn scores_list_players_in_order() {
    let mut room = room_with(&["a", "b"]);
    room.players[1].score = 5;
    let s = room.scores();
    assert_eq!(s.len(), 2);
    assert_eq!(s[0].player_id, "a");
    assert_eq!(s[0].player_name, "name-a");
    assert_eq!(s[0].score, 0);
    assert_eq!(s[1].score, 5);
}

#[test]
fn connections_start_the_game() {
    let mut room = room_with(&["a", "b"]);
    match room.connect("zzz") {
        Connection::Refused(ServerMessage::Error { message }) => assert_eq!(message, "Player not in room"),
        other => panic!("unexpected {other:?}"),
    }
    assert_eq!(room.ws_connected, 0);
    assert!(matches!(room.connect("a"), Connection::Reply(ServerMessage::WaitingForOpponent)));
    match room.connect("b") {
        Connection::Broadcast(msgs) => {
            assert_eq!(msgs.len(), 2);
            match &msgs[1] {
                ServerMessage::GameStarted { your_rack, players, current_player, .. } => {
                    assert_eq!(your_rack.len(), 7);
                    assert_eq!(players.len(), 2);
                    assert_eq!(current_player, "a");
                }
                other => panic!("unexpected {other:?}"),
            }
        }
        other => panic!("unexpected {other:?}"),
    }
    assert!(room.game_state.is_some());
    assert_eq!(room.ws_connected, 2);
    match room.connect("b") {
        Connection::Reply(ServerMessage::GameStarted { your_rack, .. }) => {
            assert_eq!(your_rack.len(), 7);
        }
        other => panic!("unexpected {other:?}"),
    }
    assert_eq!(room.ws_connected, 3);
    room.disconnect();
    assert_eq!(room.ws_connected, 2);
}

#[test]
fn moves_out_of_turn_are_rejected() {
    let mut room = room_with(&["a", "b"]);
    room.start_game();
    match room.place_tiles("b", &three_plus_four_at_center()) {
        Some(ServerMessage::MoveRejected { reason }) => assert_eq!(reason, "Not your turn"),
        other => panic!("unexpected {other:?}"),
    }
}

#[test]
fn no_game_no_move() {
    let mut room = room_with(&["a", "b"]);
    assert!(room.place_tiles("a", &three_plus_four_at_center()).is_none());
}

#[test]
fn accepted_move_scores_and_passes_the_turn() {
    let mut room = room_with(&["a", "b"]);
    room.start_game();
    let placed = three_plus_four_at_center();
    assert!(room.move_allowed("a", &placed));
    match room.place_tiles("a", &placed) {
        Some(ServerMessage::MoveAccepted { board, scores, next_player, your_new_rack }) => {
            assert!(board.is_occupied(9, 13));
            assert_eq!(scores[0].score, 22);
            assert_eq!(next_player, "b");
            assert_eq!(your_new_rack.unwrap().len(), 5);
        }
        other => panic!("unexpected {other:?}"),
    }
    assert_eq!(room.players[0].score, 22);
    assert_eq!(room.players[0].rack.len(), 5);
    assert_eq!(room.game_state.as_ref().unwrap().bag.len(), 69);
    assert_eq!(room.current_player_id(), Some("b"));
}

#[test]
fn refused_move_is_explained() {
    let mut room = room_with(&["a", "b"]);
    room.start_game();
    let placed = vec![PlacedTile { tile: Tile::number(1), row: 0, col: 0 }];
    match room.place_tiles("a", &placed) {
        Some(ServerMessage::MoveRejected { reason }) => {
            assert_eq!(reason, "First move must cover the center square")
        }
        other => panic!("unexpected {other:?}"),
    }
    assert_eq!(room.current_player_id(), Some("a"));
}

#[test]
fn passing_moves_the_turn() {
    let mut room = room_with(&["a", "b"]);
    assert!(room.pass_turn("b").is_none());
    match room.pass_turn("a") {
        Some(ServerMessage::TurnChanged { current_player }) => assert_eq!(current_player, "b"),
        other => panic!("unexpected {other:?}"),
    }
}

#[test]
fn room_info() {
    let mut room = room_with(&["a"]);
    let info = room.info();
    assert_eq!(info.code, "ROOM42");
    assert_eq!(info.player_count, 1);
    assert!(!info.in_progress);
    room.start_game();
    assert!(room.info().in_progress);
}

fn check_uuid(id: &str) {
    assert_eq!(id.len(), 36);
    for (i, c) in id.chars().enumerate() {
        if i == 8 || i == 13 || i == 18 || i == 23 {
            assert_eq!(c, '-');
        } else {
            assert!(c.is_ascii_digit() || ('a'..='f').contains(&c));
        }
    }
}

#[test]
fn room_codes_are_six_upper_case_letters_or_digits() {
    for _ in 0..20 {
        let code = new_room_code();
        assert_eq!(code.chars().count(), 6);
        assert!(code.chars().all(|c| c.is_ascii_uppercase() || c.is_ascii_digit()));
    }
}

#[test]
fn opening_a_room_seats_its_creator() {
    let (room, response) = open_room(CreateRoomRequest { player_name: "Ada".to_string() });
    assert_eq!(room.code, response.room_code);
    assert_eq!(room.players.len(), 1);
    assert_eq!(room.players[0].id, response.player_id);
    assert_eq!(room.players[0].name, "Ada");
    check_uuid(&response.player_id);
}

#[test]
fn joining_until_full() {
    let (mut room, _) = open_room(CreateRoomRequest { player_name: "Ada".to_string() });
    for _ in 0..3 {
        let response = room.join(JoinRoomRequest { player_name: "Bob".to_string() }).unwrap();
        assert_eq!(response.room_code, room.code);
        check_uuid(&response.player_id);
    }
    assert_eq!(room.players.len(), 4);
    assert!(room.join(JoinRoomRequest { player_name: "Eve".to_string() }).is_none());
}
