use worldsync::state::SharedWorldState;
use worldsync::world::CelestialBody;
use worldsync::world::Color;
use worldsync::world::ColorTriple;
use worldsync::world::Vector3;
use worldsync::world::WorldState;

fn v3(x: f32, y: f32, z: f32) -> Vector3 {
    Vector3 { x: x.to_bits(), y: y.to_bits(), z: z.to_bits() }
}

fn body() -> CelestialBody {
    CelestialBody {
        size: 100.0f32.to_bits(),
        colors: ColorTriple {
            c0: Color { r: 1, g: 2, b: 3 },
            c1: Color { r: 4, g: 5, b: 6 },
            c2: Color { r: 7, g: 8, b: 9 },
        },
        module_type: 2,
        position: v3(500.0, 0.0, -500.0),
    }
}

fn fresh_state() -> SharedWorldState {
    SharedWorldState::new(vec![body()], v3(0.0, 0.0, 0.0))
}

/// The registry and the participant list stay in lockstep: every identity
/// this test registered and did not remove has exactly one participant
/// (found by its unique name here), and the counts agree.
fn assert_lockstep(state: &SharedWorldState, live: &[(u64, u8)]) {
    let snap: WorldState = state.snapshot();
    assert_eq!(snap.participants.len(), live.len());
    for (conn, name_byte) in live {
        assert!(state.registered(*conn));
        assert_eq!(
            snap.participants.iter().filter(|p| p.name == vec![*name_byte]).count(),
            1
        );
    }
}

#[test]
fn add_assigns_sequential_ids_level_and_spawn() {
    let spawn = v3(2.0, 4.0, 8.0);
    let mut state = SharedWorldState::new(vec![body()], spawn);
    let a = state.add_participant(10, vec![65]);
    let b = state.add_participant(11, vec![66]);
    assert_eq!(a.id, 0);
    assert_eq!(b.id, 1);
    assert_eq!(a.level, 1);
    assert_eq!(b.level, 1);
    assert_eq!(a.position, spawn);
    assert_eq!(b.position, spawn);
    assert_eq!(a.name, vec![65]);
    let snap = state.snapshot();
    assert_eq!(snap.participants.len(), 2);
    assert_eq!(snap.participants[0].id, 0);
    assert_eq!(snap.participants[1].id, 1);
}

#[test]
fn registry_stays_in_lockstep_over_call_sequences() {
    let mut state = fresh_state();
    assert_lockstep(&state, &[]);
    state.add_participant(1, vec![97]);
    assert_lockstep(&state, &[(1, 97)]);
    state.add_participant(2, vec![98]);
    assert_lockstep(&state, &[(1, 97), (2, 98)]);
    state.remove_participant(1);
    assert_lockstep(&state, &[(2, 98)]);
    assert!(!state.registered(1));
    state.add_participant(3, vec![99]);
    assert_lockstep(&state, &[(2, 98), (3, 99)]);
    state.remove_participant(77);
    assert_lockstep(&state, &[(2, 98), (3, 99)]);
    state.remove_participant(2);
    state.remove_participant(3);
    assert_lockstep(&state, &[]);
}

#[test]
fn ids_stay_unique_and_monotone_across_removals() {
    let mut state = fresh_state();
    assert_eq!(state.add_participant(1, vec![97]).id, 0);
    assert_eq!(state.add_participant(2, vec![98]).id, 1);
    state.remove_participant(1);
    // The freed id is never reassigned: the next participant gets a fresh,
    // larger id, so no two participants ever share one.
    let fresh = state.add_participant(3, vec![99]);
    assert_eq!(fresh.id, 2);
    let snap = state.snapshot();
    assert_eq!(snap.participants.len(), 2);
    assert!(snap.participants[0].id < snap.participants[1].id);
    // After a disconnect the world no longer contains that id.
    state.remove_participant(3);
    assert!(state.snapshot().participants.iter().all(|p| p.id != fresh.id));
}

#[test]
fn remove_is_idempotent_and_precise() {
    let mut state = fresh_state();
    state.add_participant(7, vec![120]);
    state.add_participant(8, vec![121]);
    state.remove_participant(7);
    assert!(!state.registered(7));
    assert!(state.registered(8));
    assert_eq!(state.snapshot().participants.len(), 1);
    // Removing again is a no-op: no error, no other participant leaves.
    state.remove_participant(7);
    assert!(state.registered(8));
    let snap = state.snapshot();
    assert_eq!(snap.participants.len(), 1);
    assert_eq!(snap.participants[0].name, vec![121]);
}

#[test]
fn update_overwrites_the_position_in_place() {
    let mut state = fresh_state();
    state.add_participant(5, vec![110]);
    let target = v3(10.0, -20.0, 30.0);
    state.update_position(5, target);
    let snap = state.snapshot();
    assert_eq!(snap.participants[0].position, target);
    assert_eq!(snap.participants[0].id, 0);
    assert_eq!(snap.participants[0].level, 1);
}

#[test]
fn update_for_unknown_connection_is_a_noop() {
    let mut state = fresh_state();
    state.add_participant(5, vec![110]);
    state.update_position(6, v3(1.0, 1.0, 1.0));
    let snap = state.snapshot();
    assert_eq!(snap.participants.len(), 1);
    assert_eq!(snap.participants[0].position, v3(0.0, 0.0, 0.0));
    // A late update after removal must not resurrect the participant.
    state.remove_participant(5);
    state.update_position(5, v3(2.0, 2.0, 2.0));
    assert_eq!(state.snapshot().participants.len(), 0);
    assert!(!state.registered(5));
}

#[test]
fn snapshots_interleaved_with_updates_see_whole_positions() {
    // Each update writes one of these complete triples; every snapshot's
    // observed position must equal one of them exactly, never a mix of
    // components from two writes.
    let writes = [
        v3(1.0, 10.0, 100.0),
        v3(2.0, 20.0, 200.0),
        v3(3.0, 30.0, 300.0),
        v3(4.0, 40.0, 400.0),
    ];
    let mut state = fresh_state();
    state.add_participant(1, vec![112]);
    let mut seen: Vec<Vector3> = Vec::new();
    for w in &writes {
        state.update_position(1, *w);
        seen.push(state.snapshot().participants[0].position);
        // An unrelated snapshot between operations also sees a whole value.
        let observed = state.snapshot().participants[0].position;
        assert!(writes.contains(&observed));
    }
    assert_eq!(seen, writes.to_vec());
}

#[test]
fn snapshot_payload_is_the_encoded_snapshot() {
    let mut state = fresh_state();
    state.add_participant(1, vec![115]);
    state.update_position(1, v3(5.0, 6.0, 7.0));
    let payload = state.snapshot_payload();
    assert_eq!(payload, worldsync::codec::encode_world(&state.snapshot()));
}

#[test]
fn snapshot_is_a_deep_copy() {
    let mut state = fresh_state();
    state.add_participant(1, vec![113]);
    let before = state.snapshot();
    state.update_position(1, v3(9.0, 9.0, 9.0));
    // The earlier snapshot is unaffected by later mutation.
    assert_eq!(before.participants[0].position, v3(0.0, 0.0, 0.0));
}
