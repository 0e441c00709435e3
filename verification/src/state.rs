//! The shared world state: the world snapshot and the live-connection
//! registry, kept in lockstep.
//!
//! Each connected client is known by a numeric connection identity. The
//! registry pairs identity `i` with participant `i` of the world, position
//! by position: `wf_registry` states that pairing, the uniqueness of the
//! identities, and that participant ids are assigned from a monotone
//! counter (unique among the living, increasing in insertion order, never
//! reused); every operation preserves it, and `spec_add`, `spec_remove`
//! and `spec_update` are the exact transition functions the executable
//! operations are proved to implement.
//!
//! The caller (one lock scope per operation) provides mutual exclusion;
//! every operation here is a single complete transition, so an observer
//! holding the lock never sees a partial mutation.

use vstd::prelude::*;

use crate::codec::spec_encode_world;
use crate::codec::encode_world;
use crate::codec::wf_world;
use crate::world::CelestialBody;
use crate::world::Participant;
use crate::world::ParticipantV;
use crate::world::Vector3;
use crate::world::WorldState;
use crate::world::WorldStateV;

verus! {

/// Mathematical value of the shared state: the world, the connection
/// identities, index-aligned with the world's participants, and the id the
/// next fresh participant will receive.
#[verifier::ext_equal]
pub struct RegistryV {
    pub world: WorldStateV,
    pub conns: Seq<u64>,
    pub next_id: u32,
}

/// The registry invariant: one connection identity per participant, in the
/// same order; no identity registered twice; participant ids strictly
/// increasing in insertion order (so unique) and all below the monotone
/// `next_id` counter, which is never reused.
pub open spec fn wf_registry(s: RegistryV) -> bool {
    &&& s.conns.len() == s.world.participants.len()
    &&& forall|i: int, j: int|
        0 <= i < j < s.conns.len() ==> s.conns[i] != s.conns[j]
    &&& forall|i: int, j: int|
        0 <= i < j < s.world.participants.len() ==> s.world.participants[i].id
            < s.world.participants[j].id
    &&& forall|i: int| 0 <= i < s.world.participants.len()
        ==> #[trigger] s.world.participants[i].id < s.next_id
}

/// Whether `conn` currently has a participant.
pub open spec fn spec_registered(s: RegistryV, conn: u64) -> bool {
    s.conns.contains(conn)
}

/// The index of `conn`'s participant; meaningful when `conn` is registered
/// (under `wf_registry` the index is unique).
pub open spec fn conn_index(s: RegistryV, conn: u64) -> int {
    s.conns.index_of(conn)
}

/// The participant a fresh connection receives: the next id of the
/// monotone counter (sequential by insertion order, never reassigned),
/// level 1, the spawn position.
pub open spec fn spec_new_participant(s: RegistryV, name: Seq<u8>) -> ParticipantV {
    ParticipantV { id: s.next_id, name, level: 1, position: s.world.spawn }
}

/// Adding a participant: a no-op when the identity is already registered,
/// otherwise both the registry and the participant list grow by the new
/// entry, atomically, and the id counter advances (it never goes back, so
/// an id is never reassigned).
pub open spec fn spec_add(s: RegistryV, conn: u64, name: Seq<u8>) -> RegistryV {
    if spec_registered(s, conn) {
        s
    } else {
        RegistryV {
            world: WorldStateV {
                bodies: s.world.bodies,
                participants: s.world.participants.push(spec_new_participant(s, name)),
                spawn: s.world.spawn,
            },
            conns: s.conns.push(conn),
            next_id: (s.next_id + 1) as u32,
        }
    }
}

/// Removing a participant: a no-op when the identity is not registered,
/// otherwise exactly the paired entry leaves both collections.
pub open spec fn spec_remove(s: RegistryV, conn: u64) -> RegistryV {
    if spec_registered(s, conn) {
        let i = conn_index(s, conn);
        RegistryV {
            world: WorldStateV {
                bodies: s.world.bodies,
                participants: s.world.participants.remove(i),
                spawn: s.world.spawn,
            },
            conns: s.conns.remove(i),
            next_id: s.next_id,
        }
    } else {
        s
    }
}

/// Updating a position: the paired participant's position is replaced as one
/// whole value; a no-op when the identity is not registered.
pub open spec fn spec_update(s: RegistryV, conn: u64, position: Vector3) -> RegistryV {
    if spec_registered(s, conn) {
        let i = conn_index(s, conn);
        let p = s.world.participants[i];
        RegistryV {
            world: WorldStateV {
                bodies: s.world.bodies,
                participants: s.world.participants.update(
                    i,
                    ParticipantV { id: p.id, name: p.name, level: p.level, position },
                ),
                spawn: s.world.spawn,
            },
            conns: s.conns,
            next_id: s.next_id,
        }
    } else {
        s
    }
}

/// Under `wf_registry`, a registered identity's index is in range and picks
/// that identity; any index holding the identity is that one index.
pub proof fn lemma_conn_index(s: RegistryV, conn: u64)
    requires
        wf_registry(s),
        spec_registered(s, conn),
    ensures
        0 <= conn_index(s, conn) < s.conns.len(),
        s.conns[conn_index(s, conn)] == conn,
        forall|j: int| 0 <= j < s.conns.len() && s.conns[j] == conn ==> j == conn_index(s, conn),
{
    let i = conn_index(s, conn);
    assert(0 <= i < s.conns.len() && s.conns[i] == conn) by {
        assert(exists|k: int| 0 <= k < s.conns.len() && s.conns[k] == conn);
    }
    assert forall|j: int| 0 <= j < s.conns.len() && s.conns[j] == conn implies j == i by {
        if j != i {
            if j < i {
                assert(s.conns[j] != s.conns[i]);
            } else {
                assert(s.conns[i] != s.conns[j]);
            }
        }
    }
}

/// Adding preserves the registry invariant (the id counter must not be
/// exhausted, as `add_participant` requires).
pub proof fn lemma_add_preserves_wf(s: RegistryV, conn: u64, name: Seq<u8>)
    requires
        wf_registry(s),
        s.next_id < u32::MAX,
    ensures
        wf_registry(spec_add(s, conn, name)),
{
    if !spec_registered(s, conn) {
        let s2 = spec_add(s, conn, name);
        assert forall|i: int, j: int| 0 <= i < j < s2.conns.len() implies s2.conns[i]
            != s2.conns[j] by {
            if j == s2.conns.len() - 1 {
                assert(s2.conns[j] == conn);
                assert(s.conns[i] != conn) by {
                    if s.conns[i] == conn {
                        assert(s.conns.contains(conn));
                    }
                }
            }
        }
        let last = s2.world.participants.len() - 1;
        assert forall|i: int, j: int| 0 <= i < j < s2.world.participants.len() implies s2.world
            .participants[i].id < s2.world.participants[j].id by {
            if j == last {
                assert(s2.world.participants[j].id == s.next_id);
                assert(s2.world.participants[i].id == s.world.participants[i].id);
            }
        }
        assert forall|i: int| 0 <= i < s2.world.participants.len() implies #[trigger] s2.world
            .participants[i].id < s2.next_id by {
            if i < last {
                assert(s2.world.participants[i].id == s.world.participants[i].id);
            }
        }
    }
}

/// Removing preserves the registry invariant.
pub proof fn lemma_remove_preserves_wf(s: RegistryV, conn: u64)
    requires
        wf_registry(s),
    ensures
        wf_registry(spec_remove(s, conn)),
{
    if spec_registered(s, conn) {
        lemma_conn_index(s, conn);
        let i = conn_index(s, conn);
        s.conns.remove_ensures(i);
        s.world.participants.remove_ensures(i);
        let s2 = spec_remove(s, conn);
        assert forall|a: int, b: int| 0 <= a < b < s2.conns.len() implies s2.conns[a]
            != s2.conns[b] by {
            let a0: int = if a < i { a } else { a + 1 };
            let b0: int = if b < i { b } else { b + 1 };
            assert(s2.conns[a] == s.conns[a0]);
            assert(s2.conns[b] == s.conns[b0]);
        }
        assert forall|a: int, b: int| 0 <= a < b < s2.world.participants.len() implies s2.world
            .participants[a].id < s2.world.participants[b].id by {
            let a0: int = if a < i { a } else { a + 1 };
            let b0: int = if b < i { b } else { b + 1 };
            assert(s2.world.participants[a] == s.world.participants[a0]);
            assert(s2.world.participants[b] == s.world.participants[b0]);
        }
        assert forall|a: int| 0 <= a < s2.world.participants.len() implies #[trigger] s2.world
            .participants[a].id < s2.next_id by {
            let a0: int = if a < i { a } else { a + 1 };
            assert(s2.world.participants[a] == s.world.participants[a0]);
            assert(s.world.participants[a0].id < s.next_id);
        }
    }
}

/// Updating a position preserves the registry invariant.
pub proof fn lemma_update_preserves_wf(s: RegistryV, conn: u64, position: Vector3)
    requires
        wf_registry(s),
    ensures
        wf_registry(spec_update(s, conn, position)),
{
    if spec_registered(s, conn) {
        let s2 = spec_update(s, conn, position);
        assert forall|a: int, b: int| 0 <= a < b < s2.world.participants.len() implies s2.world
            .participants[a].id < s2.world.participants[b].id by {
            assert(s2.world.participants[a].id == s.world.participants[a].id);
            assert(s2.world.participants[b].id == s.world.participants[b].id);
        }
        assert forall|a: int| 0 <= a < s2.world.participants.len() implies #[trigger] s2.world
            .participants[a].id < s2.next_id by {
            assert(s2.world.participants[a].id == s.world.participants[a].id);
        }
    }
}

/// An update is observed whole: after `spec_update`, the registered
/// connection's participant holds exactly the written vector, all three
/// components from that one write, and every other participant is exactly
/// what it was. A snapshot therefore never sees a partially written
/// position.
pub proof fn lemma_update_observed_whole(s: RegistryV, conn: u64, position: Vector3)
    requires
        wf_registry(s),
        spec_registered(s, conn),
    ensures
        spec_update(s, conn, position).world.participants[conn_index(s, conn)].position
            == position,
        spec_update(s, conn, position).world.participants.len() == s.world.participants.len(),
        forall|j: int|
            0 <= j < s.world.participants.len() && j != conn_index(s, conn)
                ==> spec_update(s, conn, position).world.participants[j]
                == s.world.participants[j],
{
    lemma_conn_index(s, conn);
}

/// After a disconnect, the removed participant's id is gone from the
/// world: under `wf_registry` ids are unique among live participants, so
/// removing a connection's entry leaves no participant carrying its id.
pub proof fn lemma_remove_clears_id(s: RegistryV, conn: u64)
    requires
        wf_registry(s),
        spec_registered(s, conn),
    ensures
        forall|j: int|
            0 <= j < spec_remove(s, conn).world.participants.len()
                ==> #[trigger] spec_remove(s, conn).world.participants[j].id != s.world
                .participants[conn_index(s, conn)].id,
{
    lemma_conn_index(s, conn);
    let i = conn_index(s, conn);
    s.world.participants.remove_ensures(i);
    let s2 = spec_remove(s, conn);
    assert forall|j: int| 0 <= j < s2.world.participants.len() implies #[trigger] s2.world
        .participants[j].id != s.world.participants[i].id by {
        let j0: int = if j < i { j } else { j + 1 };
        assert(s2.world.participants[j] == s.world.participants[j0]);
        if j0 < i {
            assert(s.world.participants[j0].id < s.world.participants[i].id);
        } else {
            assert(s.world.participants[i].id < s.world.participants[j0].id);
        }
    }
}

/// Removal is idempotent: removing an identity a second time changes
/// nothing and touches no other participant.
pub proof fn lemma_remove_idempotent(s: RegistryV, conn: u64)
    requires
        wf_registry(s),
    ensures
        spec_remove(spec_remove(s, conn), conn) == spec_remove(s, conn),
{
    if spec_registered(s, conn) {
        lemma_conn_index(s, conn);
        let i = conn_index(s, conn);
        s.conns.remove_ensures(i);
        let s1 = spec_remove(s, conn);
        assert(!spec_registered(s1, conn)) by {
            if s1.conns.contains(conn) {
                let j = choose|j: int| 0 <= j < s1.conns.len() && s1.conns[j] == conn;
                let j0: int = if j < i { j } else { j + 1 };
                assert(s1.conns[j] == s.conns[j0]);
            }
        }
    }
}

/// The shared world state: the world snapshot and the connection registry,
/// mutated only together, plus the monotone participant-id counter.
pub struct SharedWorldState {
    world: WorldState,
    conns: Vec<u64>,
    next_id: u32,
}

impl View for SharedWorldState {
    type V = RegistryV;

    closed spec fn view(&self) -> RegistryV {
        RegistryV { world: self.world@, conns: self.conns@, next_id: self.next_id }
    }
}

impl SharedWorldState {
    /// A fresh state: the generated bodies, no participants, the given spawn
    /// location.
    pub fn new(bodies: Vec<CelestialBody>, spawn: Vector3) -> (r: Self)
        ensures
            r@ == (RegistryV {
                world: WorldStateV {
                    bodies: bodies@,
                    participants: Seq::<ParticipantV>::empty(),
                    spawn,
                },
                conns: Seq::<u64>::empty(),
                next_id: 0,
            }),
            wf_registry(r@),
    {
        let r = SharedWorldState {
            world: WorldState { bodies, participants: Vec::new(), spawn },
            conns: Vec::new(),
            next_id: 0,
        };
        proof {
            assert(r@.world.participants =~= Seq::<ParticipantV>::empty());
            assert(r@ =~= RegistryV {
                world: WorldStateV {
                    bodies: r.world.bodies@,
                    participants: Seq::<ParticipantV>::empty(),
                    spawn: r.world.spawn,
                },
                conns: Seq::<u64>::empty(),
                next_id: 0,
            });
        }
        r
    }

    /// The index of `conn`'s registry entry, if any.
    fn find_conn(&self, conn: u64) -> (r: Option<usize>)
        requires
            wf_registry(self@),
        ensures
            match r {
                Some(i) => spec_registered(self@, conn) && i == conn_index(self@, conn),
                None => !spec_registered(self@, conn),
            },
    {
        let mut i: usize = 0;
        while i < self.conns.len()
            invariant
                wf_registry(self@),
                i <= self.conns@.len(),
                forall|k: int| 0 <= k < i ==> self.conns@[k] != conn,
            decreases self.conns@.len() - i,
        {
            if self.conns[i] == conn {
                proof {
                    assert(self@.conns[i as int] == conn);
                    lemma_conn_index(self@, conn);
                }
                return Some(i);
            }
            i = i + 1;
        }
        proof {
            if self@.conns.contains(conn) {
                let k = choose|k: int| 0 <= k < self@.conns.len() && self@.conns[k] == conn;
                assert(self@.conns[k] != conn);
            }
        }
        None
    }

    /// The id the next fresh participant will receive; it only ever grows.
    pub fn next_participant_id(&self) -> (r: u32)
        ensures
            r == self@.next_id,
    {
        self.next_id
    }

    /// Whether `conn` currently has a participant.
    pub fn registered(&self, conn: u64) -> (r: bool)
        requires
            wf_registry(self@),
        ensures
            r == spec_registered(self@, conn),
    {
        match self.find_conn(conn) {
            Some(_) => true,
            None => false,
        }
    }

    /// A deep, point-in-time copy of the current world: one complete value,
    /// never a partially applied mutation.
    pub fn snapshot(&self) -> (r: WorldState)
        ensures
            r@ == self@.world,
    {
        self.world.duplicate()
    }

    /// The current world, already encoded for broadcast.
    pub fn snapshot_payload(&self) -> (r: Vec<u8>)
        ensures
            r@ == spec_encode_world(self@.world),
            wf_world(self@.world),
    {
        encode_world(&self.world)
    }

    /// Registers `conn` and creates its participant: the next id of the
    /// monotone counter (unique, sequential by insertion order, never
    /// reassigned), level 1, the spawn position, appended to both
    /// collections atomically.
    /// A no-op returning the existing participant when `conn` is already
    /// registered.
    pub fn add_participant(&mut self, conn: u64, name: Vec<u8>) -> (r: Participant)
        requires
            wf_registry(old(self)@),
            old(self)@.next_id < u32::MAX,
        ensures
            final(self)@ == spec_add(old(self)@, conn, name@),
            wf_registry(final(self)@),
            !spec_registered(old(self)@, conn) ==> r@ == spec_new_participant(
                old(self)@,
                name@,
            ),
            spec_registered(old(self)@, conn) ==> r@ == old(self)@.world.participants[conn_index(
                old(self)@,
                conn,
            )],
    {
        proof {
            lemma_add_preserves_wf(old(self)@, conn, name@);
        }
        match self.find_conn(conn) {
            Some(i) => {
                let r = self.world.participants[i].duplicate();
                proof {
                    assert(r@ == old(self)@.world.participants[i as int]);
                }
                r
            },
            None => {
                let id = self.next_id;
                self.next_id = self.next_id + 1;
                let p = Participant { id, name, level: 1, position: self.world.spawn };
                let r = p.duplicate();
                self.world.participants.push(p);
                self.conns.push(conn);
                proof {
                    assert(self@.world.participants =~= old(self)@.world.participants.push(r@));
                    assert(self@ =~= spec_add(old(self)@, conn, r@.name));
                }
                r
            },
        }
    }

    /// Unregisters `conn` and removes exactly its participant from the
    /// world, atomically; a no-op when `conn` was never registered or was
    /// already removed.
    pub fn remove_participant(&mut self, conn: u64)
        requires
            wf_registry(old(self)@),
        ensures
            final(self)@ == spec_remove(old(self)@, conn),
            wf_registry(final(self)@),
    {
        proof {
            lemma_remove_preserves_wf(old(self)@, conn);
        }
        match self.find_conn(conn) {
            Some(i) => {
                let _ = self.world.participants.remove(i);
                let _ = self.conns.remove(i);
                proof {
                    let ghost s = old(self)@;
                    let gi = i as int;
                    assert(self@.world.participants =~= s.world.participants.remove(gi)) by {
                        assert(self.world.participants@.map_values(|p: Participant| p@)
                            =~= old(self).world.participants@.remove(gi).map_values(
                            |p: Participant| p@,
                        ));
                        assert(old(self).world.participants@.remove(gi).map_values(
                            |p: Participant| p@,
                        ) =~= s.world.participants.remove(gi));
                    }
                    assert(self@ =~= spec_remove(s, conn));
                }
            },
            None => {
                proof {
                    assert(self@ =~= spec_remove(old(self)@, conn));
                }
            },
        }
    }

    /// Overwrites the registered participant's position with `position` as
    /// one whole value; a no-op when `conn` is not registered (a late update
    /// after a disconnect neither errors nor resurrects the participant).
    pub fn update_position(&mut self, conn: u64, position: Vector3)
        requires
            wf_registry(old(self)@),
        ensures
            final(self)@ == spec_update(old(self)@, conn, position),
            wf_registry(final(self)@),
    {
        proof {
            lemma_update_preserves_wf(old(self)@, conn, position);
        }
        match self.find_conn(conn) {
            Some(i) => {
                let mut p = self.world.participants.remove(i);
                p.position = position;
                self.world.participants.insert(i, p);
                proof {
                    let ghost s = old(self)@;
                    let gi = i as int;
                    let ghost pv = s.world.participants[gi];
                    assert(self@.world.participants =~= s.world.participants.update(
                        gi,
                        ParticipantV {
                            id: pv.id,
                            name: pv.name,
                            level: pv.level,
                            position,
                        },
                    ));
                    assert(self@ =~= spec_update(s, conn, position));
                }
            },
            None => {
                proof {
                    assert(self@ =~= spec_update(old(self)@, conn, position));
                }
            },
        }
    }
}

} // verus!
