//! The world model: value types for positions, colors, celestial bodies,
//! participants, and the full world snapshot.
//!
//! Positions and sizes travel over the wire as 32-bit IEEE-754 values. The
//! server never does arithmetic on them: it only moves them between the wire
//! and the state. They are therefore held as their raw 32-bit little-endian
//! bit patterns, which makes every operation on them exact.

use vstd::prelude::*;

verus! {

/// A point or displacement in the world; each component is the bit pattern of
/// a 32-bit IEEE-754 value.
#[derive(Clone, Copy, PartialEq, Eq, Structural, Debug)]
pub struct Vector3 {
    pub x: u32,
    pub y: u32,
    pub z: u32,
}

/// One 8-bit-per-channel RGB color.
#[derive(Clone, Copy, PartialEq, Eq, Structural, Debug)]
pub struct Color {
    pub r: u8,
    pub g: u8,
    pub b: u8,
}

/// The three surface colors of a celestial body.
#[derive(Clone, Copy, PartialEq, Eq, Structural, Debug)]
pub struct ColorTriple {
    pub c0: Color,
    pub c1: Color,
    pub c2: Color,
}

/// One celestial body; immutable once the world has been generated.
/// `size` is the bit pattern of a 32-bit IEEE-754 value.
#[derive(Clone, Copy, PartialEq, Eq, Structural, Debug)]
pub struct CelestialBody {
    pub size: u32,
    pub colors: ColorTriple,
    pub module_type: u8,
    pub position: Vector3,
}

/// One connected player as it appears in the world snapshot. The id and the
/// name are fixed at creation; only the position changes afterwards.
#[derive(Debug)]
pub struct Participant {
    pub id: u32,
    /// Display name, UTF-8 bytes.
    pub name: Vec<u8>,
    pub level: u32,
    pub position: Vector3,
}

/// Mathematical value of a [`Participant`].
#[verifier::ext_equal]
pub struct ParticipantV {
    pub id: u32,
    pub name: Seq<u8>,
    pub level: u32,
    pub position: Vector3,
}

impl View for Participant {
    type V = ParticipantV;

    open spec fn view(&self) -> ParticipantV {
        ParticipantV { id: self.id, name: self.name@, level: self.level, position: self.position }
    }
}

/// The full shared world: the fixed list of bodies, the current participants,
/// and the spawn location handed to every new participant.
#[derive(Debug)]
pub struct WorldState {
    pub bodies: Vec<CelestialBody>,
    pub participants: Vec<Participant>,
    pub spawn: Vector3,
}

/// Mathematical value of a [`WorldState`].
#[verifier::ext_equal]
pub struct WorldStateV {
    pub bodies: Seq<CelestialBody>,
    pub participants: Seq<ParticipantV>,
    pub spawn: Vector3,
}

impl View for WorldState {
    type V = WorldStateV;

    open spec fn view(&self) -> WorldStateV {
        WorldStateV {
            bodies: self.bodies@,
            participants: self.participants@.map_values(|p: Participant| p@),
            spawn: self.spawn,
        }
    }
}

/// Copies a byte vector element by element.
pub fn copy_bytes(v: &Vec<u8>) -> (r: Vec<u8>)
    ensures
        r@ == v@,
{
    let mut r: Vec<u8> = Vec::new();
    let mut i: usize = 0;
    while i < v.len()
        invariant
            i <= v.len(),
            r@ == v@.subrange(0, i as int),
        decreases v.len() - i,
    {
        r.push(v[i]);
        i = i + 1;
        proof {
            assert(r@ =~= v@.subrange(0, i as int));
        }
    }
    proof {
        assert(r@ =~= v@);
    }
    r
}

impl Participant {
    /// A deep copy, equal to `self` as a mathematical value.
    pub fn duplicate(&self) -> (r: Participant)
        ensures
            r@ == self@,
    {
        Participant {
            id: self.id,
            name: copy_bytes(&self.name),
            level: self.level,
            position: self.position,
        }
    }
}

impl WorldState {
    /// A deep copy, equal to `self` as a mathematical value.
    pub fn duplicate(&self) -> (r: WorldState)
        ensures
            r@ == self@,
    {
        let mut bodies: Vec<CelestialBody> = Vec::new();
        let mut i: usize = 0;
        while i < self.bodies.len()
            invariant
                i <= self.bodies.len(),
                bodies@ == self.bodies@.subrange(0, i as int),
            decreases self.bodies.len() - i,
        {
            bodies.push(self.bodies[i]);
            i = i + 1;
            proof {
                assert(bodies@ =~= self.bodies@.subrange(0, i as int));
            }
        }
        let mut participants: Vec<Participant> = Vec::new();
        let mut j: usize = 0;
        while j < self.participants.len()
            invariant
                j <= self.participants.len(),
                participants@.len() == j,
                forall|k: int|
                    #![trigger participants@[k]]
                    0 <= k < j ==> participants@[k]@ == self.participants@[k]@,
            decreases self.participants.len() - j,
        {
            let p = self.participants[j].duplicate();
            participants.push(p);
            j = j + 1;
        }
        let r = WorldState { bodies, participants, spawn: self.spawn };
        proof {
            assert(bodies@ =~= self.bodies@);
            assert(r@.participants =~= self@.participants);
            assert(r@ =~= self@);
        }
        r
    }
}

} // verus!
