//! The wire codec: a deterministic, length-prefixed binary encoding of the
//! world snapshot, and the fixed 12-byte inbound position update.
//!
//! Layout, all integers little-endian:
//! - a `Vector3` is its three components, 4 bytes each, x then y then z;
//! - a `Color` is its three channels, one byte each;
//! - a `CelestialBody` is size (4), three colors (9), module type (1),
//!   position (12): 26 bytes;
//! - a `Participant` is id (4), name length (8) and the name bytes, level (4),
//!   position (12);
//! - a `WorldState` is the body count (8) and the bodies, the participant
//!   count (8) and the participants, then the spawn vector (12).
//!
//! `spec_encode_world` is the reference for the whole format;
//! `spec_decode_world` is its exact inverse (see `lemma_round_trip`), and the
//! executable functions are proved to compute precisely those two.

use vstd::prelude::*;

use crate::world::CelestialBody;
use crate::world::Color;
use crate::world::ColorTriple;
use crate::world::ParticipantV;
use crate::world::Vector3;
use crate::world::WorldState;
use crate::world::WorldStateV;
use crate::world::Participant;

verus! {

/// Why a payload was rejected.
#[derive(Clone, Copy, PartialEq, Eq, Structural, Debug)]
pub enum CodecError {
    /// A position update whose byte count is not exactly 12.
    InvalidLength,
    /// A snapshot payload whose layout does not match the schema.
    CorruptPayload,
}

pub const BODY_BYTES: usize = 26;

pub const POSITION_UPDATE_BYTES: usize = 12;

// ---------------------------------------------------------------------------
// Specification encoders
// ---------------------------------------------------------------------------

pub open spec fn enc_u32(x: u32) -> Seq<u8> {
    seq![
        (x & 0xff) as u8,
        ((x >> 8) & 0xff) as u8,
        ((x >> 16) & 0xff) as u8,
        ((x >> 24) & 0xff) as u8,
    ]
}

pub open spec fn enc_u64(x: u64) -> Seq<u8> {
    seq![
        (x & 0xff) as u8,
        ((x >> 8) & 0xff) as u8,
        ((x >> 16) & 0xff) as u8,
        ((x >> 24) & 0xff) as u8,
        ((x >> 32) & 0xff) as u8,
        ((x >> 40) & 0xff) as u8,
        ((x >> 48) & 0xff) as u8,
        ((x >> 56) & 0xff) as u8,
    ]
}

pub open spec fn enc_vec3(v: Vector3) -> Seq<u8> {
    enc_u32(v.x) + enc_u32(v.y) + enc_u32(v.z)
}

pub open spec fn enc_color(c: Color) -> Seq<u8> {
    seq![c.r, c.g, c.b]
}

pub open spec fn enc_body(b: CelestialBody) -> Seq<u8> {
    enc_u32(b.size) + enc_color(b.colors.c0) + enc_color(b.colors.c1) + enc_color(b.colors.c2)
        + seq![b.module_type] + enc_vec3(b.position)
}

pub open spec fn enc_bodies(s: Seq<CelestialBody>) -> Seq<u8>
    decreases s.len(),
{
    if s.len() == 0 {
        Seq::empty()
    } else {
        enc_body(s[0]) + enc_bodies(s.drop_first())
    }
}

pub open spec fn enc_participant(p: ParticipantV) -> Seq<u8> {
    enc_u32(p.id) + enc_u64(p.name.len() as u64) + p.name + enc_u32(p.level) + enc_vec3(p.position)
}

pub open spec fn enc_participants(s: Seq<ParticipantV>) -> Seq<u8>
    decreases s.len(),
{
    if s.len() == 0 {
        Seq::empty()
    } else {
        enc_participant(s[0]) + enc_participants(s.drop_first())
    }
}

/// The reference encoding of a full world snapshot.
pub open spec fn spec_encode_world(w: WorldStateV) -> Seq<u8> {
    enc_u64(w.bodies.len() as u64) + enc_bodies(w.bodies) + enc_u64(w.participants.len() as u64)
        + enc_participants(w.participants) + enc_vec3(w.spawn)
}

/// The encoding is faithful only when every count fits its length prefix;
/// every in-memory `WorldState` satisfies this.
pub open spec fn wf_world(w: WorldStateV) -> bool {
    &&& w.bodies.len() <= u64::MAX
    &&& w.participants.len() <= u64::MAX
    &&& forall|i: int| 0 <= i < w.participants.len() ==> #[trigger] w.participants[i].name.len()
        <= u64::MAX
}

// ---------------------------------------------------------------------------
// Specification decoders
// ---------------------------------------------------------------------------

pub open spec fn dec_u32(data: Seq<u8>, i: int) -> u32 {
    (data[i] as u32) | ((data[i + 1] as u32) << 8) | ((data[i + 2] as u32) << 16) | ((data[i + 3]
        as u32) << 24)
}

pub open spec fn dec_u64(data: Seq<u8>, i: int) -> u64 {
    (data[i] as u64) | ((data[i + 1] as u64) << 8) | ((data[i + 2] as u64) << 16) | ((data[i + 3]
        as u64) << 24) | ((data[i + 4] as u64) << 32) | ((data[i + 5] as u64) << 40) | ((data[i + 6]
        as u64) << 48) | ((data[i + 7] as u64) << 56)
}

pub open spec fn dec_vec3(data: Seq<u8>, i: int) -> Vector3 {
    Vector3 { x: dec_u32(data, i), y: dec_u32(data, i + 4), z: dec_u32(data, i + 8) }
}

pub open spec fn dec_color(data: Seq<u8>, i: int) -> Color {
    Color { r: data[i], g: data[i + 1], b: data[i + 2] }
}

pub open spec fn dec_body(data: Seq<u8>, i: int) -> CelestialBody {
    CelestialBody {
        size: dec_u32(data, i),
        colors: ColorTriple {
            c0: dec_color(data, i + 4),
            c1: dec_color(data, i + 7),
            c2: dec_color(data, i + 10),
        },
        module_type: data[i + 13],
        position: dec_vec3(data, i + 14),
    }
}

/// Decodes `n` consecutive bodies starting at `i`; yields the bodies and the
/// cursor after them.
pub open spec fn dec_bodies(data: Seq<u8>, i: int, n: nat) -> Option<(Seq<CelestialBody>, int)>
    decreases n,
{
    if n == 0 {
        Some((Seq::empty(), i))
    } else if i + BODY_BYTES <= data.len() {
        match dec_bodies(data, i + BODY_BYTES, (n - 1) as nat) {
            Some((rest, j)) => Some((seq![dec_body(data, i)] + rest, j)),
            None => None,
        }
    } else {
        None
    }
}

/// Decodes one participant starting at `i`; yields it and the cursor after it.
pub open spec fn dec_participant(data: Seq<u8>, i: int) -> Option<(ParticipantV, int)> {
    if i + 12 > data.len() {
        None
    } else {
        let nl = dec_u64(data, i + 4) as int;
        if i + 28 + nl > data.len() {
            None
        } else {
            Some(
                (
                    ParticipantV {
                        id: dec_u32(data, i),
                        name: data.subrange(i + 12, i + 12 + nl),
                        level: dec_u32(data, i + 12 + nl),
                        position: dec_vec3(data, i + 16 + nl),
                    },
                    i + 28 + nl,
                ),
            )
        }
    }
}

pub open spec fn dec_participants(data: Seq<u8>, i: int, n: nat) -> Option<(Seq<ParticipantV>, int)>
    decreases n,
{
    if n == 0 {
        Some((Seq::empty(), i))
    } else {
        match dec_participant(data, i) {
            Some((p, j)) => match dec_participants(data, j, (n - 1) as nat) {
                Some((rest, k)) => Some((seq![p] + rest, k)),
                None => None,
            },
            None => None,
        }
    }
}

/// The exact inverse of `spec_encode_world`: yields a world precisely when
/// `data` is the encoding of one, with no trailing bytes.
pub open spec fn spec_decode_world(data: Seq<u8>) -> Option<WorldStateV> {
    if data.len() < 8 {
        None
    } else {
        let nb = dec_u64(data, 0);
        match dec_bodies(data, 8, nb as nat) {
            Some((bodies, i)) => if i + 8 > data.len() {
                None
            } else {
                let np = dec_u64(data, i);
                match dec_participants(data, i + 8, np as nat) {
                    Some((participants, j)) => if j + 12 == data.len() {
                        Some(WorldStateV { bodies, participants, spawn: dec_vec3(data, j) })
                    } else {
                        None
                    },
                    None => None,
                }
            },
            None => None,
        }
    }
}

// ---------------------------------------------------------------------------
// Round-trip lemmas: decoding an encoding yields the encoded value
// ---------------------------------------------------------------------------

proof fn lemma_u32_rt(data: Seq<u8>, i: int, x: u32)
    requires
        0 <= i,
        i + 4 <= data.len(),
        data.subrange(i, i + 4) == enc_u32(x),
    ensures
        dec_u32(data, i) == x,
{
    let b0 = data[i];
    let b1 = data[i + 1];
    let b2 = data[i + 2];
    let b3 = data[i + 3];
    assert(data.subrange(i, i + 4)[0] == b0);
    assert(data.subrange(i, i + 4)[1] == b1);
    assert(data.subrange(i, i + 4)[2] == b2);
    assert(data.subrange(i, i + 4)[3] == b3);
    assert((b0 as u32) | ((b1 as u32) << 8) | ((b2 as u32) << 16) | ((b3 as u32) << 24) == x)
        by (bit_vector)
        requires
            b0 == (x & 0xff) as u8,
            b1 == ((x >> 8) & 0xff) as u8,
            b2 == ((x >> 16) & 0xff) as u8,
            b3 == ((x >> 24) & 0xff) as u8,
    ;
}

proof fn lemma_u64_rt(data: Seq<u8>, i: int, x: u64)
    requires
        0 <= i,
        i + 8 <= data.len(),
        data.subrange(i, i + 8) == enc_u64(x),
    ensures
        dec_u64(data, i) == x,
{
    let b0 = data[i];
    let b1 = data[i + 1];
    let b2 = data[i + 2];
    let b3 = data[i + 3];
    let b4 = data[i + 4];
    let b5 = data[i + 5];
    let b6 = data[i + 6];
    let b7 = data[i + 7];
    assert(data.subrange(i, i + 8)[0] == b0);
    assert(data.subrange(i, i + 8)[1] == b1);
    assert(data.subrange(i, i + 8)[2] == b2);
    assert(data.subrange(i, i + 8)[3] == b3);
    assert(data.subrange(i, i + 8)[4] == b4);
    assert(data.subrange(i, i + 8)[5] == b5);
    assert(data.subrange(i, i + 8)[6] == b6);
    assert(data.subrange(i, i + 8)[7] == b7);
    assert((b0 as u64) | ((b1 as u64) << 8) | ((b2 as u64) << 16) | ((b3 as u64) << 24) | ((b4
        as u64) << 32) | ((b5 as u64) << 40) | ((b6 as u64) << 48) | ((b7 as u64) << 56) == x)
        by (bit_vector)
        requires
            b0 == (x & 0xff) as u8,
            b1 == ((x >> 8) & 0xff) as u8,
            b2 == ((x >> 16) & 0xff) as u8,
            b3 == ((x >> 24) & 0xff) as u8,
            b4 == ((x >> 32) & 0xff) as u8,
            b5 == ((x >> 40) & 0xff) as u8,
            b6 == ((x >> 48) & 0xff) as u8,
            b7 == ((x >> 56) & 0xff) as u8,
    ;
}

/// A sub-slice of an equated slice equals the matching sub-slice of the
/// equated sequence.
proof fn lemma_slice_of_slice(data: Seq<u8>, i: int, j: int, e: Seq<u8>, a: int, b: int)
    requires
        0 <= i <= j <= data.len(),
        data.subrange(i, j) == e,
        0 <= a <= b <= j - i,
    ensures
        data.subrange(i + a, i + b) == e.subrange(a, b),
{
    assert forall|k: int| 0 <= k < b - a implies data.subrange(i + a, i + b)[k] == e.subrange(
        a,
        b,
    )[k] by {
        assert(data.subrange(i + a, i + b)[k] == data[i + a + k]);
        assert(data.subrange(i, j)[a + k] == data[i + a + k]);
        assert(e.subrange(a, b)[k] == e[a + k]);
    }
    assert(data.subrange(i + a, i + b) =~= e.subrange(a, b));
}

/// One byte of an equated slice equals the matching byte of the sequence.
proof fn lemma_slice_byte(data: Seq<u8>, i: int, j: int, e: Seq<u8>, a: int)
    requires
        0 <= i <= j <= data.len(),
        data.subrange(i, j) == e,
        0 <= a < j - i,
    ensures
        data[i + a] == e[a],
{
    assert(data.subrange(i, j)[a] == data[i + a]);
}

proof fn lemma_vec3_rt(data: Seq<u8>, i: int, v: Vector3)
    requires
        0 <= i,
        i + 12 <= data.len(),
        data.subrange(i, i + 12) == enc_vec3(v),
    ensures
        dec_vec3(data, i) == v,
{
    let e = enc_vec3(v);
    lemma_slice_of_slice(data, i, i + 12, e, 0, 4);
    lemma_slice_of_slice(data, i, i + 12, e, 4, 8);
    lemma_slice_of_slice(data, i, i + 12, e, 8, 12);
    assert(e.subrange(0, 4) =~= enc_u32(v.x));
    assert(e.subrange(4, 8) =~= enc_u32(v.y));
    assert(e.subrange(8, 12) =~= enc_u32(v.z));
    lemma_u32_rt(data, i, v.x);
    lemma_u32_rt(data, i + 4, v.y);
    lemma_u32_rt(data, i + 8, v.z);
}

proof fn lemma_body_rt(data: Seq<u8>, i: int, b: CelestialBody)
    requires
        0 <= i,
        i + BODY_BYTES <= data.len(),
        data.subrange(i, i + BODY_BYTES) == enc_body(b),
    ensures
        dec_body(data, i) == b,
{
    let e = enc_body(b);
    lemma_slice_of_slice(data, i, i + 26, e, 0, 4);
    assert(e.subrange(0, 4) =~= enc_u32(b.size));
    lemma_u32_rt(data, i, b.size);
    lemma_slice_byte(data, i, i + 26, e, 4);
    lemma_slice_byte(data, i, i + 26, e, 5);
    lemma_slice_byte(data, i, i + 26, e, 6);
    lemma_slice_byte(data, i, i + 26, e, 7);
    lemma_slice_byte(data, i, i + 26, e, 8);
    lemma_slice_byte(data, i, i + 26, e, 9);
    lemma_slice_byte(data, i, i + 26, e, 10);
    lemma_slice_byte(data, i, i + 26, e, 11);
    lemma_slice_byte(data, i, i + 26, e, 12);
    lemma_slice_byte(data, i, i + 26, e, 13);
    assert(e[4] == b.colors.c0.r);
    assert(e[5] == b.colors.c0.g);
    assert(e[6] == b.colors.c0.b);
    assert(e[7] == b.colors.c1.r);
    assert(e[8] == b.colors.c1.g);
    assert(e[9] == b.colors.c1.b);
    assert(e[10] == b.colors.c2.r);
    assert(e[11] == b.colors.c2.g);
    assert(e[12] == b.colors.c2.b);
    assert(e[13] == b.module_type);
    lemma_slice_of_slice(data, i, i + 26, e, 14, 26);
    assert(e.subrange(14, 26) =~= enc_vec3(b.position));
    lemma_vec3_rt(data, i + 14, b.position);
}

proof fn lemma_enc_bodies_len(s: Seq<CelestialBody>)
    ensures
        enc_bodies(s).len() == BODY_BYTES * s.len(),
    decreases s.len(),
{
    if s.len() > 0 {
        lemma_enc_bodies_len(s.drop_first());
    }
}

proof fn lemma_bodies_rt(data: Seq<u8>, i: int, s: Seq<CelestialBody>)
    requires
        0 <= i,
        i + BODY_BYTES * s.len() <= data.len(),
        data.subrange(i, i + BODY_BYTES * s.len()) == enc_bodies(s),
    ensures
        dec_bodies(data, i, s.len()) == Some((s, i + BODY_BYTES * s.len())),
    decreases s.len(),
{
    if s.len() == 0 {
        assert(s =~= Seq::<CelestialBody>::empty());
        assert(dec_bodies(data, i, 0) == Some((Seq::<CelestialBody>::empty(), i)));
    } else {
        let rest = s.drop_first();
        lemma_enc_bodies_len(rest);
        let e = enc_bodies(s);
        let full = BODY_BYTES * s.len();
        assert(BODY_BYTES + BODY_BYTES * rest.len() == BODY_BYTES * s.len()) by (nonlinear_arith)
            requires
                rest.len() + 1 == s.len(),
        ;
        assert(e == enc_body(s[0]) + enc_bodies(rest));
        lemma_slice_of_slice(data, i, i + full, e, 0, BODY_BYTES as int);
        assert(e.subrange(0, BODY_BYTES as int) =~= enc_body(s[0]));
        lemma_body_rt(data, i, s[0]);
        lemma_slice_of_slice(data, i, i + full, e, BODY_BYTES as int, full);
        assert(e.subrange(BODY_BYTES as int, full) =~= enc_bodies(rest));
        lemma_bodies_rt(data, i + BODY_BYTES, rest);
        assert(seq![dec_body(data, i)] + rest =~= s);
    }
}

proof fn lemma_participant_rt(data: Seq<u8>, i: int, p: ParticipantV)
    requires
        0 <= i,
        p.name.len() <= u64::MAX,
        i + 28 + p.name.len() <= data.len(),
        data.subrange(i, i + 28 + p.name.len()) == enc_participant(p),
    ensures
        dec_participant(data, i) == Some((p, i + 28 + p.name.len())),
{
    let nl = p.name.len() as int;
    let e = enc_participant(p);
    let full = 28 + nl;
    lemma_slice_of_slice(data, i, i + full, e, 0, 4);
    assert(e.subrange(0, 4) =~= enc_u32(p.id));
    lemma_u32_rt(data, i, p.id);
    lemma_slice_of_slice(data, i, i + full, e, 4, 12);
    assert(e.subrange(4, 12) =~= enc_u64(p.name.len() as u64));
    lemma_u64_rt(data, i + 4, p.name.len() as u64);
    assert(dec_u64(data, i + 4) as int == nl);
    lemma_slice_of_slice(data, i, i + full, e, 12, 12 + nl);
    assert(e.subrange(12, 12 + nl) =~= p.name);
    lemma_slice_of_slice(data, i, i + full, e, 12 + nl, 16 + nl);
    assert(e.subrange(12 + nl, 16 + nl) =~= enc_u32(p.level));
    lemma_u32_rt(data, i + 12 + nl, p.level);
    lemma_slice_of_slice(data, i, i + full, e, 16 + nl, 28 + nl);
    assert(e.subrange(16 + nl, 28 + nl) =~= enc_vec3(p.position));
    lemma_vec3_rt(data, i + 16 + nl, p.position);
}

proof fn lemma_participants_rt(data: Seq<u8>, i: int, s: Seq<ParticipantV>)
    requires
        0 <= i,
        forall|k: int| 0 <= k < s.len() ==> #[trigger] s[k].name.len() <= u64::MAX,
        i + enc_participants(s).len() <= data.len(),
        data.subrange(i, i + enc_participants(s).len()) == enc_participants(s),
    ensures
        dec_participants(data, i, s.len()) == Some((s, i + enc_participants(s).len())),
    decreases s.len(),
{
    if s.len() == 0 {
        assert(s =~= Seq::<ParticipantV>::empty());
        assert(dec_participants(data, i, 0) == Some((Seq::<ParticipantV>::empty(), i)));
    } else {
        let rest = s.drop_first();
        let head = s[0];
        let hl = 28 + head.name.len() as int;
        assert(head.name.len() <= u64::MAX);
        let e = enc_participants(s);
        let full = e.len() as int;
        assert(e == enc_participant(head) + enc_participants(rest));
        assert(enc_participant(head).len() == hl);
        lemma_slice_of_slice(data, i, i + full, e, 0, hl);
        assert(e.subrange(0, hl) =~= enc_participant(head));
        lemma_participant_rt(data, i, head);
        lemma_slice_of_slice(data, i, i + full, e, hl, full);
        assert(e.subrange(hl, full) =~= enc_participants(rest));
        assert(forall|k: int| 0 <= k < rest.len() ==> #[trigger] rest[k].name.len() <= u64::MAX);
        lemma_participants_rt(data, i + hl, rest);
        assert(seq![head] + rest =~= s);
    }
}

/// Decoding is the exact inverse of encoding: the round trip restores every
/// field of the world.
#[verifier::rlimit(50)]
pub proof fn lemma_round_trip(w: WorldStateV)
    requires
        wf_world(w),
    ensures
        spec_decode_world(spec_encode_world(w)) == Some(w),
{
    let data = spec_encode_world(w);
    let nb = w.bodies.len();
    let np = w.participants.len();
    lemma_enc_bodies_len(w.bodies);
    let bl = enc_bodies(w.bodies).len() as int;
    let pl = enc_participants(w.participants).len() as int;
    assert(data.len() == 8 + bl + 8 + pl + 12);
    assert(data.subrange(0, 8) =~= enc_u64(nb as u64));
    lemma_u64_rt(data, 0, nb as u64);
    assert(dec_u64(data, 0) as nat == nb);
    assert(data.subrange(8, 8 + bl) =~= enc_bodies(w.bodies));
    lemma_bodies_rt(data, 8, w.bodies);
    let i = 8 + bl;
    assert(data.subrange(i, i + 8) =~= enc_u64(np as u64));
    lemma_u64_rt(data, i, np as u64);
    assert(dec_u64(data, i) as nat == np);
    assert(data.subrange(i + 8, i + 8 + pl) =~= enc_participants(w.participants));
    lemma_participants_rt(data, i + 8, w.participants);
    let j = i + 8 + pl;
    assert(data.subrange(j, j + 12) =~= enc_vec3(w.spawn));
    lemma_vec3_rt(data, j, w.spawn);
    assert(spec_decode_world(data) == Some(WorldStateV { bodies: w.bodies, participants: w.participants, spawn: w.spawn }));
    assert(WorldStateV { bodies: w.bodies, participants: w.participants, spawn: w.spawn } =~= w);
}

// ---------------------------------------------------------------------------
// Executable encoder
// ---------------------------------------------------------------------------

fn push_u32(out: &mut Vec<u8>, x: u32)
    ensures
        final(out)@ == old(out)@ + enc_u32(x),
{
    out.push((x & 0xff) as u8);
    out.push(((x >> 8) & 0xff) as u8);
    out.push(((x >> 16) & 0xff) as u8);
    out.push(((x >> 24) & 0xff) as u8);
    proof {
        assert(out@ =~= old(out)@ + enc_u32(x));
    }
}

fn push_u64(out: &mut Vec<u8>, x: u64)
    ensures
        final(out)@ == old(out)@ + enc_u64(x),
{
    out.push((x & 0xff) as u8);
    out.push(((x >> 8) & 0xff) as u8);
    out.push(((x >> 16) & 0xff) as u8);
    out.push(((x >> 24) & 0xff) as u8);
    out.push(((x >> 32) & 0xff) as u8);
    out.push(((x >> 40) & 0xff) as u8);
    out.push(((x >> 48) & 0xff) as u8);
    out.push(((x >> 56) & 0xff) as u8);
    proof {
        assert(out@ =~= old(out)@ + enc_u64(x));
    }
}

fn push_vec3(out: &mut Vec<u8>, v: &Vector3)
    ensures
        final(out)@ == old(out)@ + enc_vec3(*v),
{
    push_u32(out, v.x);
    push_u32(out, v.y);
    push_u32(out, v.z);
    proof {
        assert(out@ =~= old(out)@ + enc_vec3(*v));
    }
}

fn push_color(out: &mut Vec<u8>, c: &Color)
    ensures
        final(out)@ == old(out)@ + enc_color(*c),
{
    out.push(c.r);
    out.push(c.g);
    out.push(c.b);
    proof {
        assert(out@ =~= old(out)@ + enc_color(*c));
    }
}

fn push_body(out: &mut Vec<u8>, b: &CelestialBody)
    ensures
        final(out)@ == old(out)@ + enc_body(*b),
{
    push_u32(out, b.size);
    push_color(out, &b.colors.c0);
    push_color(out, &b.colors.c1);
    push_color(out, &b.colors.c2);
    out.push(b.module_type);
    push_vec3(out, &b.position);
    proof {
        assert(out@ =~= old(out)@ + enc_body(*b));
    }
}

fn push_participant(out: &mut Vec<u8>, p: &Participant)
    ensures
        final(out)@ == old(out)@ + enc_participant(p@),
        p@.name.len() <= u64::MAX,
{
    push_u32(out, p.id);
    let name_len: usize = p.name.len();
    push_u64(out, name_len as u64);
    let mut i: usize = 0;
    let ghost mid = out@;
    while i < p.name.len()
        invariant
            i <= p.name.len(),
            out@ == mid + p.name@.subrange(0, i as int),
        decreases p.name.len() - i,
    {
        out.push(p.name[i]);
        i = i + 1;
        proof {
            assert(out@ =~= mid + p.name@.subrange(0, i as int));
        }
    }
    proof {
        assert(p.name@.subrange(0, p.name@.len() as int) =~= p.name@);
    }
    push_u32(out, p.level);
    push_vec3(out, &p.position);
    proof {
        assert(out@ =~= old(out)@ + enc_participant(p@));
    }
}

/// `enc_bodies` consumes its sequence from the front; appending at the back
/// extends the encoding at the back.
proof fn lemma_enc_bodies_snoc(s: Seq<CelestialBody>, b: CelestialBody)
    ensures
        enc_bodies(s.push(b)) == enc_bodies(s) + enc_body(b),
    decreases s.len(),
{
    if s.len() == 0 {
        assert(s.push(b)[0] == b);
        assert(s.push(b).drop_first() =~= s);
        assert(enc_bodies(s.push(b)) == enc_body(b) + enc_bodies(s));
        assert(enc_body(b) + enc_bodies(s) =~= enc_bodies(s) + enc_body(b));
    } else {
        assert(s.push(b)[0] == s[0]);
        assert(s.push(b).drop_first() =~= s.drop_first().push(b));
        lemma_enc_bodies_snoc(s.drop_first(), b);
        assert(enc_bodies(s.push(b)) == enc_body(s[0]) + (enc_bodies(s.drop_first()) + enc_body(
            b,
        )));
        assert(enc_body(s[0]) + (enc_bodies(s.drop_first()) + enc_body(b)) =~= (enc_body(s[0])
            + enc_bodies(s.drop_first())) + enc_body(b));
        assert(enc_bodies(s) + enc_body(b) == (enc_body(s[0]) + enc_bodies(s.drop_first()))
            + enc_body(b));
    }
}

proof fn lemma_enc_participants_snoc(s: Seq<ParticipantV>, p: ParticipantV)
    ensures
        enc_participants(s.push(p)) == enc_participants(s) + enc_participant(p),
    decreases s.len(),
{
    if s.len() == 0 {
        assert(s.push(p)[0] == p);
        assert(s.push(p).drop_first() =~= s);
        assert(enc_participants(s.push(p)) == enc_participant(p) + enc_participants(s));
        assert(enc_participant(p) + enc_participants(s) =~= enc_participants(s) + enc_participant(
            p,
        ));
    } else {
        assert(s.push(p)[0] == s[0]);
        assert(s.push(p).drop_first() =~= s.drop_first().push(p));
        lemma_enc_participants_snoc(s.drop_first(), p);
        assert(enc_participants(s.push(p)) == enc_participant(s[0]) + (enc_participants(
            s.drop_first(),
        ) + enc_participant(p)));
        assert(enc_participant(s[0]) + (enc_participants(s.drop_first()) + enc_participant(p)) =~= (
        enc_participant(s[0]) + enc_participants(s.drop_first())) + enc_participant(p));
        assert(enc_participants(s) + enc_participant(p) == (enc_participant(s[0])
            + enc_participants(s.drop_first())) + enc_participant(p));
    }
}

/// Encodes a full world snapshot. Total: encoding never fails for an
/// in-memory world.
pub fn encode_world(w: &WorldState) -> (r: Vec<u8>)
    ensures
        r@ == spec_encode_world(w@),
        wf_world(w@),
{
    let mut out: Vec<u8> = Vec::new();
    push_u64(&mut out, w.bodies.len() as u64);
    let mut i: usize = 0;
    let ghost pre = out@;
    while i < w.bodies.len()
        invariant
            i <= w.bodies.len(),
            out@ == pre + enc_bodies(w.bodies@.subrange(0, i as int)),
        decreases w.bodies.len() - i,
    {
        push_body(&mut out, &w.bodies[i]);
        i = i + 1;
        proof {
            assert(w.bodies@.subrange(0, i as int) =~= w.bodies@.subrange(0, i - 1).push(
                w.bodies@[i - 1],
            ));
            lemma_enc_bodies_snoc(w.bodies@.subrange(0, i - 1), w.bodies@[i - 1]);
            assert(out@ =~= pre + enc_bodies(w.bodies@.subrange(0, i as int)));
        }
    }
    proof {
        assert(w.bodies@.subrange(0, w.bodies@.len() as int) =~= w.bodies@);
    }
    push_u64(&mut out, w.participants.len() as u64);
    let mut j: usize = 0;
    let ghost mid = out@;
    let ghost pseq = w@.participants;
    while j < w.participants.len()
        invariant
            j <= w.participants.len(),
            pseq == w@.participants,
            pseq.len() == w.participants@.len(),
            out@ == mid + enc_participants(pseq.subrange(0, j as int)),
            forall|k: int| 0 <= k < pseq.len() ==> #[trigger] pseq[k] == w.participants@[k]@,
            forall|k: int| 0 <= k < j ==> #[trigger] pseq[k].name.len() <= u64::MAX,
        decreases w.participants.len() - j,
    {
        push_participant(&mut out, &w.participants[j]);
        j = j + 1;
        proof {
            assert(pseq.subrange(0, j as int) =~= pseq.subrange(0, j - 1).push(pseq[j - 1]));
            lemma_enc_participants_snoc(pseq.subrange(0, j - 1), pseq[j - 1]);
            assert(out@ =~= mid + enc_participants(pseq.subrange(0, j as int)));
        }
    }
    proof {
        assert(pseq.subrange(0, pseq.len() as int) =~= pseq);
    }
    push_vec3(&mut out, &w.spawn);
    proof {
        assert(out@ =~= spec_encode_world(w@));
    }
    out
}

/// Encodes one position as the fixed 12-byte update payload.
pub fn encode_position(v: &Vector3) -> (r: Vec<u8>)
    ensures
        r@ == enc_vec3(*v),
        r@.len() == POSITION_UPDATE_BYTES,
{
    let mut out: Vec<u8> = Vec::new();
    push_vec3(&mut out, v);
    proof {
        assert(out@ =~= enc_vec3(*v));
    }
    out
}

// ---------------------------------------------------------------------------
// Executable decoder
// ---------------------------------------------------------------------------

fn read_u32(data: &Vec<u8>, i: usize) -> (r: u32)
    requires
        i + 4 <= data.len(),
    ensures
        r == dec_u32(data@, i as int),
{
    (data[i] as u32) | ((data[i + 1] as u32) << 8) | ((data[i + 2] as u32) << 16) | ((data[i + 3]
        as u32) << 24)
}

fn read_u64(data: &Vec<u8>, i: usize) -> (r: u64)
    requires
        i + 8 <= data.len(),
    ensures
        r == dec_u64(data@, i as int),
{
    (data[i] as u64) | ((data[i + 1] as u64) << 8) | ((data[i + 2] as u64) << 16) | ((data[i + 3]
        as u64) << 24) | ((data[i + 4] as u64) << 32) | ((data[i + 5] as u64) << 40) | ((data[i + 6]
        as u64) << 48) | ((data[i + 7] as u64) << 56)
}

fn read_vec3(data: &Vec<u8>, i: usize) -> (r: Vector3)
    requires
        i + 12 <= data.len(),
    ensures
        r == dec_vec3(data@, i as int),
{
    Vector3 { x: read_u32(data, i), y: read_u32(data, i + 4), z: read_u32(data, i + 8) }
}

fn read_body(data: &Vec<u8>, i: usize) -> (r: CelestialBody)
    requires
        i + BODY_BYTES <= data.len(),
    ensures
        r == dec_body(data@, i as int),
{
    CelestialBody {
        size: read_u32(data, i),
        colors: ColorTriple {
            c0: Color { r: data[i + 4], g: data[i + 5], b: data[i + 6] },
            c1: Color { r: data[i + 7], g: data[i + 8], b: data[i + 9] },
            c2: Color { r: data[i + 10], g: data[i + 11], b: data[i + 12] },
        },
        module_type: data[i + 13],
        position: read_vec3(data, i + 14),
    }
}

fn read_participant(data: &Vec<u8>, i: usize) -> (r: Result<(Participant, usize), CodecError>)
    requires
        i <= data.len(),
    ensures
        r matches Ok(pj) ==> dec_participant(data@, i as int) == Some((pj.0@, pj.1 as int))
            && i < pj.1 <= data@.len(),
        r matches Err(e) ==> e == CodecError::CorruptPayload && dec_participant(data@, i as int)
            is None,
{
    let n = data.len();
    if n - i < 12 {
        return Err(CodecError::CorruptPayload);
    }
    let id = read_u32(data, i);
    let nl64 = read_u64(data, i + 4);
    let rem = n - (i + 12);
    if rem < 16 || nl64 > (rem - 16) as u64 {
        proof {
            assert(i + 28 + (nl64 as int) > data@.len());
        }
        return Err(CodecError::CorruptPayload);
    }
    let nl = nl64 as usize;
    let mut name: Vec<u8> = Vec::new();
    let mut t: usize = 0;
    while t < nl
        invariant
            t <= nl,
            n == data.len(),
            i + 28 + nl <= n,
            name@ == data@.subrange(i as int + 12, i as int + 12 + t as int),
        decreases nl - t,
    {
        name.push(data[i + 12 + t]);
        t = t + 1;
        proof {
            assert(name@ =~= data@.subrange(i as int + 12, i as int + 12 + t as int));
        }
    }
    let level = read_u32(data, i + 12 + nl);
    let position = read_vec3(data, i + 16 + nl);
    let p = Participant { id, name, level, position };
    proof {
        assert(dec_participant(data@, i as int) == Some((p@, i as int + 28 + nl as int)));
    }
    Ok((p, i + 28 + nl))
}

/// Decodes a full world snapshot; the exact inverse of [`encode_world`].
/// Returns `CorruptPayload` precisely when the bytes are not the encoding of
/// any world.
pub fn decode_world(data: &Vec<u8>) -> (r: Result<WorldState, CodecError>)
    ensures
        r matches Ok(w) ==> spec_decode_world(data@) == Some(w@),
        r matches Err(e) ==> e == CodecError::CorruptPayload && spec_decode_world(data@) is None,
{
    let n = data.len();
    if n < 8 {
        return Err(CodecError::CorruptPayload);
    }
    let nb = read_u64(data, 0);
    let mut bodies: Vec<CelestialBody> = Vec::new();
    let mut cur: usize = 8;
    let mut k: u64 = 0;
    while k < nb
        invariant
            n == data@.len(),
            8 <= cur <= n,
            k <= nb,
            nb == dec_u64(data@, 0),
            bodies@.len() == k,
            dec_bodies(data@, 8, nb as nat) == (match dec_bodies(
                data@,
                cur as int,
                (nb - k) as nat,
            ) {
                Some((rest, j)) => Some((bodies@ + rest, j)),
                None => None::<(Seq<CelestialBody>, int)>,
            }),
        decreases nb - k,
    {
        if n - cur < BODY_BYTES {
            proof {
                assert(dec_bodies(data@, cur as int, (nb - k) as nat) is None);
                assert(spec_decode_world(data@) is None);
            }
            return Err(CodecError::CorruptPayload);
        }
        let b = read_body(data, cur);
        proof {
            let ghost rem0 = (nb - k) as nat;
            let ghost rem1 = (nb - k - 1) as nat;
            assert(dec_bodies(data@, cur as int, rem0) == (match dec_bodies(
                data@,
                cur as int + 26,
                rem1,
            ) {
                Some((rest, j)) => Some((seq![dec_body(data@, cur as int)] + rest, j)),
                None => None::<(Seq<CelestialBody>, int)>,
            }));
            if dec_bodies(data@, cur as int + 26, rem1) is Some {
                let (rest, j) = dec_bodies(data@, cur as int + 26, rem1).unwrap();
                assert(bodies@ + (seq![dec_body(data@, cur as int)] + rest) =~= (bodies@.push(
                    dec_body(data@, cur as int),
                )) + rest);
            }
        }
        bodies.push(b);
        cur = cur + BODY_BYTES;
        k = k + 1;
    }
    proof {
        assert(dec_bodies(data@, cur as int, 0) == Some((Seq::<CelestialBody>::empty(), cur as int)));
        assert(bodies@ + Seq::<CelestialBody>::empty() =~= bodies@);
        assert(dec_bodies(data@, 8, nb as nat) == Some((bodies@, cur as int)));
    }
    if n - cur < 8 {
        return Err(CodecError::CorruptPayload);
    }
    let np = read_u64(data, cur);
    let ghost pstart = cur + 8;
    let mut participants: Vec<Participant> = Vec::new();
    let ghost mut gseq = Seq::<ParticipantV>::empty();
    cur = cur + 8;
    let mut m: u64 = 0;
    while m < np
        invariant
            n == data@.len(),
            8 <= pstart <= cur <= n,
            m <= np,
            nb == dec_u64(data@, 0),
            dec_bodies(data@, 8, nb as nat) == Some((bodies@, pstart as int - 8)),
            np == dec_u64(data@, pstart as int - 8),
            gseq.len() == m,
            participants@.len() == m,
            forall|t: int| 0 <= t < m ==> #[trigger] participants@[t]@ == gseq[t],
            dec_participants(data@, pstart as int, np as nat) == (match dec_participants(
                data@,
                cur as int,
                (np - m) as nat,
            ) {
                Some((rest, j)) => Some((gseq + rest, j)),
                None => None::<(Seq<ParticipantV>, int)>,
            }),
        decreases np - m,
    {
        let pr = read_participant(data, cur);
        match pr {
            Ok((p, next)) => {
                proof {
                    let ghost rem1 = (np - m - 1) as nat;
                    if dec_participants(data@, next as int, rem1) is Some {
                        let (rest, j) = dec_participants(data@, next as int, rem1).unwrap();
                        assert(gseq + (seq![p@] + rest) =~= (gseq.push(p@)) + rest);
                    }
                    gseq = gseq.push(p@);
                }
                participants.push(p);
                cur = next;
                m = m + 1;
            },
            Err(_) => {
                proof {
                    assert(dec_participants(data@, cur as int, (np - m) as nat) is None);
                    assert(dec_participants(data@, pstart as int, np as nat) is None);
                    assert(spec_decode_world(data@) is None);
                }
                return Err(CodecError::CorruptPayload);
            },
        }
    }
    proof {
        assert(dec_participants(data@, cur as int, 0) == Some(
            (Seq::<ParticipantV>::empty(), cur as int),
        ));
        assert(gseq + Seq::<ParticipantV>::empty() =~= gseq);
        assert(dec_participants(data@, pstart as int, np as nat) == Some((gseq, cur as int)));
    }
    if n - cur != 12 {
        return Err(CodecError::CorruptPayload);
    }
    let spawn = read_vec3(data, cur);
    let w = WorldState { bodies, participants, spawn };
    proof {
        assert(w@.participants =~= gseq);
        assert(spec_decode_world(data@) == Some(w@)) by {
            assert(w@ =~= WorldStateV { bodies: bodies@, participants: gseq, spawn });
        }
    }
    Ok(w)
}

/// Decodes the fixed 12-byte inbound position update; any other byte count
/// is rejected with `InvalidLength`.
pub fn decode_position_update(data: &Vec<u8>) -> (r: Result<Vector3, CodecError>)
    ensures
        r matches Ok(v) ==> data@.len() == POSITION_UPDATE_BYTES && v == dec_vec3(data@, 0),
        r matches Err(e) ==> e == CodecError::InvalidLength && data@.len()
            != POSITION_UPDATE_BYTES,
{
    if data.len() != POSITION_UPDATE_BYTES {
        return Err(CodecError::InvalidLength);
    }
    Ok(read_vec3(data, 0))
}

} // verus!
