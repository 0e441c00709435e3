use worldsync::codec::decode_position_update;
use worldsync::codec::decode_world;
use worldsync::codec::encode_position;
use worldsync::codec::encode_world;
use worldsync::codec::CodecError;
use worldsync::world::CelestialBody;
use worldsync::world::Color;
use worldsync::world::ColorTriple;
use worldsync::world::Participant;
use worldsync::world::Vector3;
use worldsync::world::WorldState;

fn v3(x: f32, y: f32, z: f32) -> Vector3 {
    Vector3 { x: x.to_bits(), y: y.to_bits(), z: z.to_bits() }
}

fn sample_body(seed: u8) -> CelestialBody {
    CelestialBody {
        size: (50.0f32 + seed as f32).to_bits(),
        colors: ColorTriple {
            c0: Color { r: seed, g: 10, b: 20 },
            c1: Color { r: 30, g: seed, b: 40 },
            c2: Color { r: 50, g: 60, b: seed },
        },
        module_type: seed % 5,
        position: v3(seed as f32, -2.0 * seed as f32, 0.5),
    }
}

fn sample_world() -> WorldState {
    WorldState {
        bodies: vec![sample_body(1), sample_body(2), sample_body(3)],
        participants: vec![
            Participant {
                id: 0,
                name: vec![65, 108, 105, 99, 101],
                level: 1,
                position: v3(0.0, 0.0, 0.0),
            },
            Participant { id: 1, name: vec![66, 111, 98], level: 7, position: v3(1.0, 2.0, 3.0) },
            Participant { id: 2, name: vec![], level: 0, position: v3(-0.0, 1e30, -1e-30) },
        ],
        spawn: v3(0.0, -1.5, 9.75),
    }
}

fn assert_worlds_equal(a: &WorldState, b: &WorldState) {
    assert_eq!(a.bodies.len(), b.bodies.len());
    for (x, y) in a.bodies.iter().zip(b.bodies.iter()) {
        assert_eq!(x, y);
    }
    assert_eq!(a.participants.len(), b.participants.len());
    for (x, y) in a.participants.iter().zip(b.participants.iter()) {
        assert_eq!(x.id, y.id);
        assert_eq!(x.name, y.name);
        assert_eq!(x.level, y.level);
        assert_eq!(x.position, y.position);
    }
    assert_eq!(a.spawn, b.spawn);
}

#[test]
fn round_trip_world() {
    let w = sample_world();
    let bytes = encode_world(&w);
    let back = decode_world(&bytes).expect("a fresh encoding must decode");
    assert_worlds_equal(&w, &back);
}

#[test]
fn round_trip_empty_world() {
    let w = WorldState { bodies: vec![], participants: vec![], spawn: v3(0.0, 0.0, 0.0) };
    let bytes = encode_world(&w);
    assert_eq!(bytes.len(), 28);
    let back = decode_world(&bytes).expect("the empty world must decode");
    assert_worlds_equal(&w, &back);
}

#[test]
fn exact_layout_of_empty_world() {
    // body count (8) + participant count (8) + spawn (12), little-endian.
    let w = WorldState { bodies: vec![], participants: vec![], spawn: v3(1.0, 2.0, 3.0) };
    let bytes = encode_world(&w);
    let mut expected: Vec<u8> = Vec::new();
    expected.extend_from_slice(&0u64.to_le_bytes());
    expected.extend_from_slice(&0u64.to_le_bytes());
    expected.extend_from_slice(&1.0f32.to_le_bytes());
    expected.extend_from_slice(&2.0f32.to_le_bytes());
    expected.extend_from_slice(&3.0f32.to_le_bytes());
    assert_eq!(bytes, expected);
}

#[test]
fn exact_layout_of_one_participant() {
    let w = WorldState {
        bodies: vec![],
        participants: vec![Participant {
            id: 5,
            name: vec![72, 105],
            level: 9,
            position: v3(1.5, -2.25, 0.0),
        }],
        spawn: v3(0.0, 0.0, 0.0),
    };
    let bytes = encode_world(&w);
    let mut expected: Vec<u8> = Vec::new();
    expected.extend_from_slice(&0u64.to_le_bytes());
    expected.extend_from_slice(&1u64.to_le_bytes());
    expected.extend_from_slice(&5u32.to_le_bytes());
    expected.extend_from_slice(&2u64.to_le_bytes());
    expected.extend_from_slice(&[72, 105]);
    expected.extend_from_slice(&9u32.to_le_bytes());
    expected.extend_from_slice(&1.5f32.to_le_bytes());
    expected.extend_from_slice(&(-2.25f32).to_le_bytes());
    expected.extend_from_slice(&0.0f32.to_le_bytes());
    expected.extend_from_slice(&[0, 0, 0, 0, 0, 0, 0, 0, 0, 0, 0, 0]);
    assert_eq!(bytes, expected);
}

#[test]
fn corrupt_payload_is_rejected() {
    let w = sample_world();
    let bytes = encode_world(&w);
    // Truncations anywhere must fail.
    let mut truncated = bytes.clone();
    truncated.pop();
    assert!(matches!(decode_world(&truncated), Err(CodecError::CorruptPayload)));
    let head: Vec<u8> = bytes[..7].to_vec();
    assert!(matches!(decode_world(&head), Err(CodecError::CorruptPayload)));
    assert!(matches!(decode_world(&Vec::new()), Err(CodecError::CorruptPayload)));
    // A trailing byte must fail too: the schema consumes the payload whole.
    let mut extended = bytes.clone();
    extended.push(0);
    assert!(matches!(decode_world(&extended), Err(CodecError::CorruptPayload)));
}

#[test]
fn position_decode_exact_values() {
    let mut data: Vec<u8> = Vec::new();
    data.extend_from_slice(&1.5f32.to_le_bytes());
    data.extend_from_slice(&(-2.25f32).to_le_bytes());
    data.extend_from_slice(&0.0f32.to_le_bytes());
    let v = decode_position_update(&data).expect("12 bytes must decode");
    assert_eq!(v.x, 1.5f32.to_bits());
    assert_eq!(v.y, (-2.25f32).to_bits());
    assert_eq!(v.z, 0.0f32.to_bits());
    assert_eq!(f32::from_bits(v.x), 1.5);
    assert_eq!(f32::from_bits(v.y), -2.25);
    assert_eq!(f32::from_bits(v.z), 0.0);
}

#[test]
fn position_decode_rejects_wrong_lengths() {
    let eleven: Vec<u8> = vec![0; 11];
    assert_eq!(decode_position_update(&eleven), Err(CodecError::InvalidLength));
    let thirteen: Vec<u8> = vec![0; 13];
    assert_eq!(decode_position_update(&thirteen), Err(CodecError::InvalidLength));
    let empty: Vec<u8> = Vec::new();
    assert_eq!(decode_position_update(&empty), Err(CodecError::InvalidLength));
}

#[test]
fn position_encode_decode_round_trip() {
    let v = v3(123.5, -0.125, 7.0);
    let bytes = encode_position(&v);
    assert_eq!(bytes.len(), 12);
    let back = decode_position_update(&bytes).expect("an encoded position must decode");
    assert_eq!(back, v);
}
