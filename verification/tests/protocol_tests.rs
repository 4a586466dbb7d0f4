use pong::codec::{decode_input, decode_state, encode_input, encode_state, DecodeError};
use pong::game::{GameState, PaddleInput, Role};
use pong::ingest::handle_input;
use pong::mailbox::SnapshotSlot;
use pong::registry::{Rejected, SessionRegistry};

fn input(side: &str, direction: &str, name: &str) -> PaddleInput {
    PaddleInput {
        side: String::from(side),
        direction: String::from(direction),
        name: String::from(name),
    }
}

#[test]
fn registry_roles_first_come_first_served() {
    let mut reg = SessionRegistry::new();
    assert_eq!(reg.role_of("10.0.0.1:4001"), None);
    assert_eq!(reg.resolve_or_assign("10.0.0.1:4001"), Ok(Role::Left));
    // a known endpoint keeps its role
    assert_eq!(reg.resolve_or_assign("10.0.0.1:4001"), Ok(Role::Left));
    assert_eq!(reg.role_of("10.0.0.1:4001"), Some(Role::Left));
    assert_eq!(reg.resolve_or_assign("10.0.0.2:4002"), Ok(Role::Right));
    assert_eq!(reg.role_of("10.0.0.2:4002"), Some(Role::Right));
    // the third distinct endpoint can never join
    assert_eq!(reg.resolve_or_assign("10.0.0.3:4003"), Err(Rejected));
    assert_eq!(reg.role_of("10.0.0.3:4003"), None);
}

#[test]
fn registry_endpoints_lists_registered() {
    let mut reg = SessionRegistry::new();
    assert_eq!(reg.endpoints().len(), 0);
    reg.resolve_or_assign("a:1").unwrap();
    assert_eq!(reg.endpoints(), vec![String::from("a:1")]);
    reg.resolve_or_assign("b:2").unwrap();
    assert_eq!(reg.endpoints(), vec![String::from("a:1"), String::from("b:2")]);
}

#[test]
fn ingestion_sets_name_and_overwrites_side() {
    let mut reg = SessionRegistry::new();
    let mut gs = GameState::new();
    // the first sender lies about its side; the server overrides it
    let out = handle_input(&mut reg, &mut gs, "10.0.0.1:4001", input("right", "Up", "Alice"))
        .unwrap();
    assert_eq!(out.side, "left");
    assert_eq!(out.direction, "Up");
    assert_eq!(out.name, "Alice");
    assert_eq!(gs.player_left_name, "Alice");
    assert_eq!(gs.player_right_name, "Waiting...");
    let out = handle_input(&mut reg, &mut gs, "10.0.0.2:4002", input("left", "Down", "Bob"))
        .unwrap();
    assert_eq!(out.side, "right");
    assert_eq!(gs.player_right_name, "Bob");
    // a later message from a known endpoint does not rename the player
    let out = handle_input(&mut reg, &mut gs, "10.0.0.1:4001", input("left", "Down", "Carol"))
        .unwrap();
    assert_eq!(out.side, "left");
    assert_eq!(gs.player_left_name, "Alice");
}

#[test]
fn third_endpoint_causes_no_state_change() {
    let mut reg = SessionRegistry::new();
    let mut gs = GameState::new();
    handle_input(&mut reg, &mut gs, "10.0.0.1:4001", input("left", "Up", "Alice")).unwrap();
    handle_input(&mut reg, &mut gs, "10.0.0.2:4002", input("right", "Up", "Bob")).unwrap();
    let before = encode_state(&gs);
    let r = handle_input(&mut reg, &mut gs, "10.0.0.3:4003", input("left", "Up", "Mallory"));
    assert_eq!(r, Err(Rejected));
    assert_eq!(encode_state(&gs), before);
    assert_eq!(gs.player_left_name, "Alice");
    assert_eq!(gs.player_right_name, "Bob");
}

#[test]
fn state_round_trip_is_field_for_field() {
    let mut gs = GameState::new();
    gs.ball_x = -7;
    gs.ball_y = 33;
    gs.vel_x = -2;
    gs.vel_y = 1;
    gs.paddle_left = 6;
    gs.paddle_right = 42;
    gs.score_left = 3;
    gs.score_right = 7;
    gs.player_left_name = String::from("Alice");
    gs.player_right_name = String::from("Bob the second");
    let wire = encode_state(&gs);
    let back = decode_state(wire.as_str()).unwrap();
    assert_eq!(back.ball_x, gs.ball_x);
    assert_eq!(back.ball_y, gs.ball_y);
    assert_eq!(back.vel_x, gs.vel_x);
    assert_eq!(back.vel_y, gs.vel_y);
    assert_eq!(back.paddle_left, gs.paddle_left);
    assert_eq!(back.paddle_right, gs.paddle_right);
    assert_eq!(back.screen_width, gs.screen_width);
    assert_eq!(back.screen_height, gs.screen_height);
    assert_eq!(back.tick, gs.tick);
    assert_eq!(back.score_left, gs.score_left);
    assert_eq!(back.score_right, gs.score_right);
    assert_eq!(back.player_left_name, gs.player_left_name);
    assert_eq!(back.player_right_name, gs.player_right_name);
}

#[test]
fn state_round_trip_at_extremes() {
    let mut gs = GameState::new();
    gs.ball_x = i64::MIN;
    gs.ball_y = i64::MAX;
    gs.vel_x = i64::MAX;
    gs.vel_y = i64::MIN;
    gs.tick = u64::MAX;
    gs.score_left = u32::MAX;
    gs.score_right = 0;
    gs.player_left_name = String::new();
    gs.player_right_name = String::from("ünïcödé ☺ name");
    let wire = encode_state(&gs);
    let back = decode_state(wire.as_str()).unwrap();
    assert_eq!(back.ball_x, i64::MIN);
    assert_eq!(back.ball_y, i64::MAX);
    assert_eq!(back.vel_x, i64::MAX);
    assert_eq!(back.vel_y, i64::MIN);
    assert_eq!(back.tick, u64::MAX);
    assert_eq!(back.score_left, u32::MAX);
    assert_eq!(back.score_right, 0);
    assert_eq!(back.player_left_name, "");
    assert_eq!(back.player_right_name, "ünïcödé ☺ name");
}

#[test]
fn input_round_trip() {
    let msg = input("left", "Down", "Žofia ☺");
    let wire = encode_input(&msg);
    let back = decode_input(wire.as_str()).unwrap();
    assert_eq!(back.side, "left");
    assert_eq!(back.direction, "Down");
    assert_eq!(back.name, "Žofia ☺");
}

#[test]
fn input_exact_encoding() {
    let msg = input("left", "Up", "Bob");
    let wire = encode_input(&msg);
    assert_eq!(
        wire,
        "I00000000000000000004left00000000000000000002Up00000000000000000003Bob"
    );
    let back = decode_input(wire.as_str()).unwrap();
    assert_eq!(back.side, "left");
    assert_eq!(back.direction, "Up");
    assert_eq!(back.name, "Bob");
}

#[test]
fn decode_rejects_malformed_datagrams() {
    assert_eq!(decode_state(""), Err(DecodeError));
    assert_eq!(decode_state("hello"), Err(DecodeError));
    assert_eq!(decode_state("S"), Err(DecodeError));
    assert_eq!(decode_input(""), Err(DecodeError));
    assert_eq!(decode_input("I"), Err(DecodeError));
    assert_eq!(decode_input("Inotdigits0000000000xyz"), Err(DecodeError));
    // a snapshot is not an input message and vice versa
    let gs = GameState::new();
    assert_eq!(decode_input(encode_state(&gs).as_str()), Err(DecodeError));
    assert_eq!(
        decode_state(encode_input(&input("left", "Up", "x")).as_str()),
        Err(DecodeError)
    );
}

#[test]
fn decode_rejects_truncated_and_padded() {
    let gs = GameState::new();
    let wire = encode_state(&gs);
    let mut truncated = wire.clone();
    truncated.pop();
    assert_eq!(decode_state(truncated.as_str()), Err(DecodeError));
    let mut padded = wire.clone();
    padded.push('x');
    assert_eq!(decode_state(padded.as_str()), Err(DecodeError));
    assert!(decode_state(wire.as_str()).is_ok());
}

#[test]
fn mailbox_last_snapshot_wins() {
    let mut slot = SnapshotSlot::new();
    assert!(slot.current().is_none());
    let first = GameState::new();
    slot.store(first);
    let mut second = GameState::new();
    second.score_left = 9;
    slot.store(second);
    let seen = slot.current().as_ref().unwrap();
    assert_eq!(seen.score_left, 9);
}
