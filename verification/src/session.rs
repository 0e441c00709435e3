//! The connection session: the decision logic of one client connection,
//! from registration to cleanup.
//!
//! A session moves `Handshaking -> Active -> Closing -> Closed`. The
//! transport loop (reading frames, racing the broadcast subscription,
//! writing replies) lives outside this crate; it feeds every observed event
//! through [`session_step`] and performs the returned reply. The step
//! function owns every decision: what to answer, when to mutate the shared
//! world, and when the session is over. A per-connection failure only ever
//! drives that session to `Closing`; the shared world is touched through
//! the registered operations alone.

use vstd::prelude::*;

use crate::codec::dec_vec3;
use crate::codec::decode_position_update;
use crate::codec::spec_encode_world;
use crate::codec::POSITION_UPDATE_BYTES;
use crate::state::conn_index;
use crate::state::spec_add;
use crate::state::spec_new_participant;
use crate::state::spec_registered;
use crate::state::spec_remove;
use crate::state::spec_update;
use crate::state::wf_registry;
use crate::state::SharedWorldState;
use crate::world::Participant;

verus! {

/// Where a session stands in its lifecycle.
#[derive(Clone, Copy, PartialEq, Eq, Structural, Debug)]
pub enum SessionPhase {
    Handshaking,
    Active,
    Closing,
    Closed,
}

/// One event observed by an active session: an inbound frame, the end or
/// failure of the inbound stream, a payload arriving from the broadcast
/// subscription, or a failed outbound send.
pub enum ClientEvent {
    /// An inbound text frame, UTF-8 bytes.
    Text(Vec<u8>),
    /// An inbound binary frame of any length.
    Binary(Vec<u8>),
    /// A protocol keepalive carrying an arbitrary payload.
    Ping(Vec<u8>),
    /// The peer asked to close.
    CloseRequest,
    /// The inbound stream ended.
    EndOfStream,
    /// The inbound stream failed.
    ReadError,
    /// A payload delivered by the broadcast subscription.
    Broadcast(Vec<u8>),
    /// An outbound send failed (peer gone).
    SendFailed,
}

/// What the session answers to its own connection.
pub enum Reply {
    SendText(Vec<u8>),
    SendBinary(Vec<u8>),
    SendPong(Vec<u8>),
}

/// The fixed prefix of an echo reply: the bytes of `"Echo: "`.
pub open spec fn echo_prefix() -> Seq<u8> {
    seq![69u8, 99u8, 104u8, 111u8, 58u8, 32u8]
}

/// The greeting sent to each new connection: the bytes of
/// `"Welcome to Crux Server!"`.
pub open spec fn greeting_text() -> Seq<u8> {
    seq![
        87u8, 101u8, 108u8, 99u8, 111u8, 109u8, 101u8, 32u8, 116u8, 111u8, 32u8, 67u8, 114u8,
        117u8, 120u8, 32u8, 83u8, 101u8, 114u8, 118u8, 101u8, 114u8, 33u8,
    ]
}

/// The echo reply to an inbound text: the fixed prefix, then the text.
fn echo_reply(text: &Vec<u8>) -> (r: Vec<u8>)
    ensures
        r@ == echo_prefix() + text@,
{
    let mut r: Vec<u8> = Vec::new();
    r.push(69);
    r.push(99);
    r.push(104);
    r.push(111);
    r.push(58);
    r.push(32);
    let mut i: usize = 0;
    while i < text.len()
        invariant
            i <= text.len(),
            r@ == echo_prefix() + text@.subrange(0, i as int),
        decreases text.len() - i,
    {
        r.push(text[i]);
        i = i + 1;
        proof {
            assert(r@ =~= echo_prefix() + text@.subrange(0, i as int));
        }
    }
    proof {
        assert(text@.subrange(0, text@.len() as int) =~= text@);
    }
    r
}

/// The greeting payload.
fn greeting() -> (r: Vec<u8>)
    ensures
        r@ == greeting_text(),
{
    let mut r: Vec<u8> = Vec::new();
    r.push(87);
    r.push(101);
    r.push(108);
    r.push(99);
    r.push(111);
    r.push(109);
    r.push(101);
    r.push(32);
    r.push(116);
    r.push(111);
    r.push(32);
    r.push(67);
    r.push(114);
    r.push(117);
    r.push(120);
    r.push(32);
    r.push(83);
    r.push(101);
    r.push(114);
    r.push(118);
    r.push(101);
    r.push(114);
    r.push(33);
    proof {
        assert(r@ =~= greeting_text());
    }
    r
}

/// Entry into `Active`: registers the connection's participant, then takes
/// the snapshot (so it includes the new participant) already encoded, and
/// the greeting. The caller sends both and then subscribes to the hub.
pub fn session_open(world: &mut SharedWorldState, conn: u64, name: Vec<u8>) -> (r: (
    Participant,
    Vec<u8>,
    Vec<u8>,
))
    requires
        wf_registry(old(world)@),
        old(world)@.next_id < u32::MAX,
    ensures
        final(world)@ == spec_add(old(world)@, conn, name@),
        wf_registry(final(world)@),
        !spec_registered(old(world)@, conn) ==> r.0@ == spec_new_participant(old(world)@, name@),
        spec_registered(old(world)@, conn) ==> r.0@ == old(world)@.world.participants[conn_index(
            old(world)@,
            conn,
        )],
        r.1@ == spec_encode_world(spec_add(old(world)@, conn, name@).world),
        r.2@ == greeting_text(),
{
    let participant = world.add_participant(conn, name);
    let snapshot = world.snapshot_payload();
    let hello = greeting();
    (participant, snapshot, hello)
}

/// One step of an active session: decides the next phase, the reply owed to
/// this connection, and the sole permitted world mutation (a 12-byte binary
/// frame updates this connection's position; every other frame leaves the
/// world untouched).
pub fn session_step(world: &mut SharedWorldState, conn: u64, phase: SessionPhase, event: ClientEvent) -> (r: (
    SessionPhase,
    Option<Reply>,
))
    requires
        wf_registry(old(world)@),
        phase == SessionPhase::Active,
    ensures
        wf_registry(final(world)@),
        match event {
            ClientEvent::Text(t) => final(world)@ == old(world)@ && r.0 == SessionPhase::Active
                && (r.1 matches Some(Reply::SendText(e)) && e@ == echo_prefix() + t@),
            ClientEvent::Binary(d) => r.0 == SessionPhase::Active && r.1 is None && (if d@.len()
                == POSITION_UPDATE_BYTES {
                final(world)@ == spec_update(old(world)@, conn, dec_vec3(d@, 0))
            } else {
                final(world)@ == old(world)@
            }),
            ClientEvent::Ping(p) => final(world)@ == old(world)@ && r.0 == SessionPhase::Active
                && (r.1 matches Some(Reply::SendPong(q)) && q@ == p@),
            ClientEvent::CloseRequest => final(world)@ == old(world)@ && r.0
                == SessionPhase::Closing && r.1 is None,
            ClientEvent::EndOfStream => final(world)@ == old(world)@ && r.0
                == SessionPhase::Closing && r.1 is None,
            ClientEvent::ReadError => final(world)@ == old(world)@ && r.0 == SessionPhase::Closing
                && r.1 is None,
            ClientEvent::Broadcast(b) => final(world)@ == old(world)@ && r.0
                == SessionPhase::Active && (r.1 matches Some(Reply::SendBinary(f)) && f@ == b@),
            ClientEvent::SendFailed => final(world)@ == old(world)@ && r.0 == SessionPhase::Closing
                && r.1 is None,
        },
{
    match event {
        ClientEvent::Text(t) => {
            let e = echo_reply(&t);
            (SessionPhase::Active, Some(Reply::SendText(e)))
        },
        ClientEvent::Binary(d) => {
            match decode_position_update(&d) {
                Ok(v) => {
                    world.update_position(conn, v);
                    (SessionPhase::Active, None)
                },
                Err(_) => (SessionPhase::Active, None),
            }
        },
        ClientEvent::Ping(p) => (SessionPhase::Active, Some(Reply::SendPong(p))),
        ClientEvent::CloseRequest => (SessionPhase::Closing, None),
        ClientEvent::EndOfStream => (SessionPhase::Closing, None),
        ClientEvent::ReadError => (SessionPhase::Closing, None),
        ClientEvent::Broadcast(b) => (SessionPhase::Active, Some(Reply::SendBinary(b))),
        ClientEvent::SendFailed => (SessionPhase::Closing, None),
    }
}

/// `Closing -> Closed`: unregisters the connection's participant,
/// idempotently; the caller drops its subscription and the transport. On
/// every exit path this is the sole cleanup the shared world needs.
pub fn session_close(world: &mut SharedWorldState, conn: u64) -> (r: SessionPhase)
    requires
        wf_registry(old(world)@),
    ensures
        final(world)@ == spec_remove(old(world)@, conn),
        wf_registry(final(world)@),
        r == SessionPhase::Closed,
{
    world.remove_participant(conn);
    SessionPhase::Closed
}

} // verus!
