use worldsync::codec::decode_world;
use worldsync::session::session_close;
use worldsync::session::session_open;
use worldsync::session::session_step;
use worldsync::session::ClientEvent;
use worldsync::session::Reply;
use worldsync::session::SessionPhase;
use worldsync::state::SharedWorldState;
use worldsync::world::CelestialBody;
use worldsync::world::Color;
use worldsync::world::ColorTriple;
use worldsync::world::Vector3;

fn v3(x: f32, y: f32, z: f32) -> Vector3 {
    Vector3 { x: x.to_bits(), y: y.to_bits(), z: z.to_bits() }
}

fn body(seed: u8) -> CelestialBody {
    CelestialBody {
        size: (50.0f32 + seed as f32).to_bits(),
        colors: ColorTriple {
            c0: Color { r: seed, g: 0, b: 0 },
            c1: Color { r: 0, g: seed, b: 0 },
            c2: Color { r: 0, g: 0, b: seed },
        },
        module_type: seed % 5,
        position: v3(seed as f32, 0.0, -(seed as f32)),
    }
}

fn ten_body_world() -> SharedWorldState {
    let bodies: Vec<CelestialBody> = (0u8..10).map(body).collect();
    SharedWorldState::new(bodies, v3(0.0, 0.0, 0.0))
}

#[test]
fn open_greets_and_sends_the_snapshot() {
    let mut state = ten_body_world();
    let (participant, snapshot, greeting) = session_open(&mut state, 1, vec![80, 49]);
    assert_eq!(greeting, b"Welcome to Crux Server!".to_vec());
    assert_eq!(participant.id, 0);
    assert_eq!(participant.level, 1);
    let world = decode_world(&snapshot).expect("the snapshot payload must decode");
    assert_eq!(world.bodies.len(), 10);
    // The snapshot is taken after registration, so it includes the new
    // participant at the spawn position.
    assert_eq!(world.participants.len(), 1);
    assert_eq!(world.participants[0].id, 0);
    assert_eq!(world.participants[0].position, v3(0.0, 0.0, 0.0));
}

#[test]
fn text_frame_is_echoed_with_prefix() {
    let mut state = ten_body_world();
    session_open(&mut state, 1, vec![80]);
    let (phase, reply) = session_step(
        &mut state,
        1,
        SessionPhase::Active,
        ClientEvent::Text(vec![104, 105]),
    );
    assert_eq!(phase, SessionPhase::Active);
    match reply {
        Some(Reply::SendText(bytes)) => assert_eq!(bytes, b"Echo: hi".to_vec()),
        _ => panic!("a text frame must produce a text reply"),
    }
}

#[test]
fn ping_gets_an_immediate_pong_with_the_same_payload() {
    let mut state = ten_body_world();
    session_open(&mut state, 1, vec![80]);
    let payload: Vec<u8> = vec![7, 8, 9];
    let (phase, reply) = session_step(
        &mut state,
        1,
        SessionPhase::Active,
        ClientEvent::Ping(payload.clone()),
    );
    assert_eq!(phase, SessionPhase::Active);
    match reply {
        Some(Reply::SendPong(bytes)) => assert_eq!(bytes, payload),
        _ => panic!("a ping must produce a pong"),
    }
}

#[test]
fn twelve_byte_binary_updates_the_position() {
    let mut state = ten_body_world();
    session_open(&mut state, 1, vec![80]);
    let mut update: Vec<u8> = Vec::new();
    update.extend_from_slice(&4.5f32.to_le_bytes());
    update.extend_from_slice(&(-1.0f32).to_le_bytes());
    update.extend_from_slice(&2.0f32.to_le_bytes());
    let (phase, reply) = session_step(
        &mut state,
        1,
        SessionPhase::Active,
        ClientEvent::Binary(update),
    );
    assert_eq!(phase, SessionPhase::Active);
    assert!(reply.is_none());
    let snap = state.snapshot();
    assert_eq!(snap.participants[0].position, v3(4.5, -1.0, 2.0));
}

#[test]
fn other_binary_lengths_are_ignored() {
    let mut state = ten_body_world();
    session_open(&mut state, 1, vec![80]);
    let (phase, reply) = session_step(
        &mut state,
        1,
        SessionPhase::Active,
        ClientEvent::Binary(vec![1, 2, 3, 4, 5]),
    );
    assert_eq!(phase, SessionPhase::Active);
    assert!(reply.is_none());
    assert_eq!(state.snapshot().participants[0].position, v3(0.0, 0.0, 0.0));
}

#[test]
fn close_events_move_the_session_to_closing() {
    let mut state = ten_body_world();
    session_open(&mut state, 1, vec![80]);
    for event in [
        ClientEvent::CloseRequest,
        ClientEvent::EndOfStream,
        ClientEvent::ReadError,
        ClientEvent::SendFailed,
    ] {
        let (phase, reply) = session_step(&mut state, 1, SessionPhase::Active, event);
        assert_eq!(phase, SessionPhase::Closing);
        assert!(reply.is_none());
    }
    // The world is untouched by any of them.
    assert_eq!(state.snapshot().participants.len(), 1);
}

#[test]
fn broadcast_payloads_are_forwarded_verbatim() {
    let mut state = ten_body_world();
    session_open(&mut state, 1, vec![80]);
    let payload: Vec<u8> = vec![42; 30];
    let (phase, reply) = session_step(
        &mut state,
        1,
        SessionPhase::Active,
        ClientEvent::Broadcast(payload.clone()),
    );
    assert_eq!(phase, SessionPhase::Active);
    match reply {
        Some(Reply::SendBinary(bytes)) => assert_eq!(bytes, payload),
        _ => panic!("a broadcast payload must be forwarded"),
    }
}

#[test]
fn end_to_end_connect_update_disconnect() {
    let mut state = ten_body_world();
    // Connect: the client receives one binary snapshot of the ten bodies;
    // taken after registration, it already lists this connection's
    // participant.
    let (participant, snapshot, _greeting) = session_open(&mut state, 77, vec![80, 55]);
    let world = decode_world(&snapshot).expect("the snapshot payload must decode");
    assert_eq!(world.bodies.len(), 10);
    assert_eq!(world.participants.len(), 1);
    // A 12-byte position update of (0, 0, 0) lands on this participant.
    let update: Vec<u8> = vec![0; 12];
    session_step(&mut state, 77, SessionPhase::Active, ClientEvent::Binary(update));
    let snap = state.snapshot();
    assert_eq!(snap.participants.len(), 1);
    assert_eq!(snap.participants[0].id, participant.id);
    assert_eq!(snap.participants[0].position, v3(0.0, 0.0, 0.0));
    assert_eq!(snap.participants[0].position, Vector3 { x: 0, y: 0, z: 0 });
    // Disconnect: the participant leaves the world.
    let phase = session_close(&mut state, 77);
    assert_eq!(phase, SessionPhase::Closed);
    let after = state.snapshot();
    assert!(after.participants.iter().all(|p| p.id != participant.id));
    assert_eq!(after.participants.len(), 0);
    assert!(!state.registered(77));
}
