//! The broadcast hub: fan-out of serialized snapshots to every current
//! subscriber.
//!
//! Each subscriber owns a bounded queue of pending payloads, keyed by a
//! token handed out at subscription. Publishing appends the payload to every
//! queue and never blocks: a queue already at capacity drops its oldest
//! pending payload instead. With no subscribers a publish is discarded
//! silently. Receiving drains one payload in publish order; unsubscribing
//! frees the slot, so closed sessions leak nothing.
//!
//! `spec_subscribe`, `spec_publish`, `spec_recv` and `spec_unsubscribe` are
//! the exact transition functions the executable operations are proved to
//! implement; `lemma_fanout` states the fan-out law over them.

use vstd::prelude::*;

use crate::world::copy_bytes;

verus! {

/// One subscriber: its token and its pending payloads, oldest first.
pub struct SubscriberSlot {
    token: u64,
    queue: Vec<Vec<u8>>,
}

/// Mathematical value of a [`SubscriberSlot`].
#[verifier::ext_equal]
pub struct SlotV {
    pub token: u64,
    pub queue: Seq<Seq<u8>>,
}

impl View for SubscriberSlot {
    type V = SlotV;

    closed spec fn view(&self) -> SlotV {
        SlotV { token: self.token, queue: self.queue@.map_values(|m: Vec<u8>| m@) }
    }
}

/// Mathematical value of a [`BroadcastHub`].
#[verifier::ext_equal]
pub struct HubV {
    pub slots: Seq<SlotV>,
    pub next_token: u64,
    pub capacity: nat,
}

/// The hub invariant: a positive capacity, unique tokens, tokens below the
/// next one to be handed out, and queues within capacity.
pub open spec fn wf_hub(h: HubV) -> bool {
    &&& h.capacity > 0
    &&& forall|i: int, j: int| 0 <= i < j < h.slots.len() ==> h.slots[i].token != h.slots[j].token
    &&& forall|i: int| 0 <= i < h.slots.len() ==> #[trigger] h.slots[i].token < h.next_token
    &&& forall|i: int| 0 <= i < h.slots.len() ==> #[trigger] h.slots[i].queue.len() <= h.capacity
}

/// Whether some subscriber holds `token`.
pub open spec fn has_token(h: HubV, token: u64) -> bool {
    exists|i: int| 0 <= i < h.slots.len() && h.slots[i].token == token
}

/// The slot index of `token`; meaningful when `has_token` holds (under
/// `wf_hub` it is unique).
pub open spec fn token_index(h: HubV, token: u64) -> int {
    choose|i: int| 0 <= i < h.slots.len() && h.slots[i].token == token
}

/// The pending queue of `token`'s subscriber.
pub open spec fn hub_queue(h: HubV, token: u64) -> Seq<Seq<u8>> {
    h.slots[token_index(h, token)].queue
}

/// Subscribing: a fresh slot with an empty queue (no backlog of earlier
/// publishes) under a fresh token.
pub open spec fn spec_subscribe(h: HubV) -> (HubV, u64) {
    (
        HubV {
            slots: h.slots.push(SlotV { token: h.next_token, queue: Seq::empty() }),
            next_token: (h.next_token + 1) as u64,
            capacity: h.capacity,
        },
        h.next_token,
    )
}

/// One delivery into one queue: appended at the back; a full queue drops its
/// oldest payload, never the publisher's time.
pub open spec fn spec_deliver(q: Seq<Seq<u8>>, capacity: nat, m: Seq<u8>) -> Seq<Seq<u8>> {
    if q.len() >= capacity {
        q.drop_first().push(m)
    } else {
        q.push(m)
    }
}

/// Publishing: every current subscriber's queue receives the payload; with
/// no subscribers nothing happens.
pub open spec fn spec_publish(h: HubV, m: Seq<u8>) -> HubV {
    HubV {
        slots: Seq::new(
            h.slots.len(),
            |i: int| SlotV { token: h.slots[i].token, queue: spec_deliver(h.slots[i].queue, h.capacity, m) },
        ),
        next_token: h.next_token,
        capacity: h.capacity,
    }
}

/// Receiving: the oldest pending payload of `token`'s queue leaves the
/// queue; nothing when the queue is empty or the token is unknown.
pub open spec fn spec_recv(h: HubV, token: u64) -> (HubV, Option<Seq<u8>>) {
    if has_token(h, token) && hub_queue(h, token).len() > 0 {
        let i = token_index(h, token);
        let q = h.slots[i].queue;
        (
            HubV {
                slots: h.slots.update(i, SlotV { token, queue: q.drop_first() }),
                next_token: h.next_token,
                capacity: h.capacity,
            },
            Some(q[0]),
        )
    } else {
        (h, None)
    }
}

/// Unsubscribing: the slot leaves the hub; idempotent.
pub open spec fn spec_unsubscribe(h: HubV, token: u64) -> HubV {
    if has_token(h, token) {
        HubV {
            slots: h.slots.remove(token_index(h, token)),
            next_token: h.next_token,
            capacity: h.capacity,
        }
    } else {
        h
    }
}

/// Under `wf_hub`, a held token's index is in range, picks that token, and
/// is the only index holding it.
pub proof fn lemma_token_index(h: HubV, token: u64)
    requires
        wf_hub(h),
        has_token(h, token),
    ensures
        0 <= token_index(h, token) < h.slots.len(),
        h.slots[token_index(h, token)].token == token,
        forall|j: int| 0 <= j < h.slots.len() && h.slots[j].token == token ==> j == token_index(
            h,
            token,
        ),
{
    let i = token_index(h, token);
    assert(0 <= i < h.slots.len() && h.slots[i].token == token) by {
        assert(exists|k: int| 0 <= k < h.slots.len() && h.slots[k].token == token);
    }
    assert forall|j: int| 0 <= j < h.slots.len() && h.slots[j].token == token implies j == i by {
        if j != i {
            if j < i {
                assert(h.slots[j].token != h.slots[i].token);
            } else {
                assert(h.slots[i].token != h.slots[j].token);
            }
        }
    }
}

/// Fan-out: after two subscriptions, one publish delivers exactly the
/// published payload, exactly once, to both subscribers; a subscriber that
/// unsubscribed before the publish holds no slot and so receives nothing.
pub proof fn lemma_fanout(h: HubV, m: Seq<u8>)
    requires
        wf_hub(h),
        h.next_token + 2 <= u64::MAX,
    ensures
        spec_subscribe(h).1 != spec_subscribe(spec_subscribe(h).0).1,
        hub_queue(
            spec_publish(spec_subscribe(spec_subscribe(h).0).0, m),
            spec_subscribe(h).1,
        ) == seq![m],
        hub_queue(
            spec_publish(spec_subscribe(spec_subscribe(h).0).0, m),
            spec_subscribe(spec_subscribe(h).0).1,
        ) == seq![m],
        !has_token(
            spec_publish(spec_unsubscribe(spec_subscribe(spec_subscribe(h).0).0, spec_subscribe(h).1), m),
            spec_subscribe(h).1,
        ),
{
    let t1 = spec_subscribe(h).1;
    let h1 = spec_subscribe(h).0;
    let t2 = spec_subscribe(h1).1;
    let h2 = spec_subscribe(h1).0;
    let n = h.slots.len() as int;
    assert(h2.slots[n].token == t1);
    assert(h2.slots[n + 1].token == t2);
    assert(wf_hub(h2)) by {
        assert forall|i: int, j: int| 0 <= i < j < h2.slots.len() implies h2.slots[i].token
            != h2.slots[j].token by {
            if j < n {
            } else if j == n {
                assert(h2.slots[i].token < h.next_token);
            } else {
                assert(h2.slots[j].token == t2);
                if i < n {
                    assert(h2.slots[i].token < h.next_token);
                } else {
                    assert(h2.slots[i].token == t1);
                }
            }
        }
    }
    let h3 = spec_publish(h2, m);
    assert(h3.slots[n].token == t1 && h3.slots[n + 1].token == t2);
    assert(h3.slots[n].queue == spec_deliver(Seq::empty(), h.capacity, m));
    assert(spec_deliver(Seq::<Seq<u8>>::empty(), h.capacity, m) =~= seq![m]);
    assert(has_token(h3, t1));
    assert(has_token(h3, t2));
    assert(wf_hub(h3)) by {
        assert forall|i: int, j: int| 0 <= i < j < h3.slots.len() implies h3.slots[i].token
            != h3.slots[j].token by {
            assert(h3.slots[i].token == h2.slots[i].token);
            assert(h3.slots[j].token == h2.slots[j].token);
        }
        assert forall|i: int| 0 <= i < h3.slots.len() implies #[trigger] h3.slots[i].token
            < h3.next_token by {
            assert(h2.slots[i].token < h2.next_token);
        }
    }
    lemma_token_index(h3, t1);
    lemma_token_index(h3, t2);
    assert(hub_queue(h3, t1) == seq![m]);
    assert(hub_queue(h3, t2) == seq![m]);
    // The unsubscribed receiver has no slot once the publish happens.
    assert(has_token(h2, t1));
    assert(wf_hub(h2));
    lemma_token_index(h2, t1);
    let hu = spec_unsubscribe(h2, t1);
    let iu = token_index(h2, t1);
    h2.slots.remove_ensures(iu);
    assert(!has_token(hu, t1)) by {
        if has_token(hu, t1) {
            let j = choose|j: int| 0 <= j < hu.slots.len() && hu.slots[j].token == t1;
            let j0: int = if j < iu { j } else { j + 1 };
            assert(hu.slots[j] == h2.slots[j0]);
        }
    }
    let hp = spec_publish(hu, m);
    assert(!has_token(hp, t1)) by {
        if has_token(hp, t1) {
            let j = choose|j: int| 0 <= j < hp.slots.len() && hp.slots[j].token == t1;
            assert(hu.slots[j].token == t1);
        }
    }
}

/// The broadcast hub.
pub struct BroadcastHub {
    slots: Vec<SubscriberSlot>,
    next_token: u64,
    capacity: usize,
}

impl View for BroadcastHub {
    type V = HubV;

    closed spec fn view(&self) -> HubV {
        HubV {
            slots: self.slots@.map_values(|s: SubscriberSlot| s@),
            next_token: self.next_token,
            capacity: self.capacity as nat,
        }
    }
}

impl BroadcastHub {
    /// A hub with no subscribers; `capacity` bounds each subscriber's
    /// pending queue.
    pub fn new(capacity: usize) -> (r: Self)
        requires
            capacity > 0,
        ensures
            r@ == (HubV { slots: Seq::<SlotV>::empty(), next_token: 0, capacity: capacity as nat }),
            wf_hub(r@),
    {
        let r = BroadcastHub { slots: Vec::new(), next_token: 0, capacity };
        proof {
            assert(r@.slots =~= Seq::<SlotV>::empty());
            assert(r@ =~= HubV {
                slots: Seq::<SlotV>::empty(),
                next_token: 0,
                capacity: capacity as nat,
            });
        }
        r
    }

    /// The slot index of `token`, if any.
    fn find_token(&self, token: u64) -> (r: Option<usize>)
        requires
            wf_hub(self@),
        ensures
            match r {
                Some(i) => has_token(self@, token) && i == token_index(self@, token),
                None => !has_token(self@, token),
            },
    {
        let mut i: usize = 0;
        while i < self.slots.len()
            invariant
                wf_hub(self@),
                i <= self.slots@.len(),
                self@.slots.len() == self.slots@.len(),
                forall|k: int| 0 <= k < i ==> self@.slots[k].token != token,
            decreases self.slots@.len() - i,
        {
            if self.slots[i].token == token {
                proof {
                    assert(self@.slots[i as int].token == token);
                    lemma_token_index(self@, token);
                }
                return Some(i);
            }
            proof {
                assert(self@.slots[i as int].token == self.slots@[i as int]@.token);
            }
            i = i + 1;
        }
        proof {
            if has_token(self@, token) {
                let k = choose|k: int| 0 <= k < self@.slots.len() && self@.slots[k].token == token;
                assert(self@.slots[k].token != token);
            }
        }
        None
    }

    /// Registers a new subscriber and returns its token; the new queue is
    /// empty, so only later publishes reach it.
    pub fn subscribe(&mut self) -> (r: u64)
        requires
            wf_hub(old(self)@),
            old(self)@.next_token < u64::MAX,
        ensures
            final(self)@ == spec_subscribe(old(self)@).0,
            r == spec_subscribe(old(self)@).1,
            wf_hub(final(self)@),
    {
        let token = self.next_token;
        self.next_token = self.next_token + 1;
        self.slots.push(SubscriberSlot { token, queue: Vec::new() });
        proof {
            let pushed = self.slots@[self.slots@.len() - 1];
            assert(pushed@.queue =~= Seq::<Seq<u8>>::empty());
            assert(self@.slots =~= old(self)@.slots.push(
                SlotV { token, queue: Seq::empty() },
            ));
            assert(self@ =~= spec_subscribe(old(self)@).0);
            assert(wf_hub(self@)) by {
                let h2 = self@;
                let h = old(self)@;
                let n = h.slots.len() as int;
                assert forall|i: int, j: int| 0 <= i < j < h2.slots.len() implies h2.slots[i].token
                    != h2.slots[j].token by {
                    if j == n {
                        assert(h2.slots[i].token < h.next_token);
                    }
                }
            }
        }
        token
    }

    /// Delivers `payload` to every current subscriber, never blocking: a
    /// queue at capacity drops its oldest payload. With no subscribers the
    /// publish is discarded silently.
    pub fn publish(&mut self, payload: &Vec<u8>)
        requires
            wf_hub(old(self)@),
        ensures
            final(self)@ == spec_publish(old(self)@, payload@),
            wf_hub(final(self)@),
    {
        let ghost h0 = self@;
        let ghost target = spec_publish(h0, payload@);
        let mut k: usize = 0;
        let n = self.slots.len();
        while k < n
            invariant
                wf_hub(h0),
                target == spec_publish(h0, payload@),
                k <= n,
                n == self.slots@.len(),
                h0.slots.len() == n,
                self.next_token == h0.next_token,
                self.capacity as nat == h0.capacity,
                forall|t: int| 0 <= t < k ==> self.slots@[t]@ == target.slots[t],
                forall|t: int| k <= t < n ==> self.slots@[t]@ == h0.slots[t],
            decreases n - k,
        {
            let mut slot = self.slots.remove(k);
            proof {
                assert(slot@ == h0.slots[k as int]);
            }
            if slot.queue.len() >= self.capacity {
                let _ = slot.queue.remove(0);
                proof {
                    assert(slot.queue@.map_values(|m: Vec<u8>| m@) =~= h0.slots[k as int]
                        .queue.drop_first());
                }
            }
            slot.queue.push(copy_bytes(payload));
            proof {
                assert(slot@.queue =~= spec_deliver(h0.slots[k as int].queue, h0.capacity, payload@));
                assert(slot@ =~= target.slots[k as int]);
            }
            self.slots.insert(k, slot);
            k = k + 1;
            proof {
                assert forall|t: int| 0 <= t < k implies self.slots@[t]@ == target.slots[t] by {}
                assert forall|t: int| k <= t < n implies self.slots@[t]@ == h0.slots[t] by {}
            }
        }
        proof {
            assert(self@.slots =~= target.slots);
            assert(self@ =~= target);
            assert(wf_hub(self@)) by {
                assert forall|i: int, j: int| 0 <= i < j < self@.slots.len() implies self@
                    .slots[i].token != self@.slots[j].token by {
                    assert(self@.slots[i].token == h0.slots[i].token);
                    assert(self@.slots[j].token == h0.slots[j].token);
                }
                assert forall|i: int| 0 <= i < self@.slots.len() implies #[trigger] self@
                    .slots[i].token < self@.next_token by {
                    assert(h0.slots[i].token < h0.next_token);
                }
                assert forall|i: int| 0 <= i < self@.slots.len() implies #[trigger] self@
                    .slots[i].queue.len() <= self@.capacity by {
                    assert(h0.slots[i].queue.len() <= h0.capacity);
                }
            }
        }
    }

    /// Takes the oldest pending payload for `token`, if any.
    pub fn recv(&mut self, token: u64) -> (r: Option<Vec<u8>>)
        requires
            wf_hub(old(self)@),
        ensures
            final(self)@ == spec_recv(old(self)@, token).0,
            r matches Some(v) ==> spec_recv(old(self)@, token).1 == Some(v@),
            r is None ==> spec_recv(old(self)@, token).1 is None,
            wf_hub(final(self)@),
    {
        match self.find_token(token) {
            Some(i) => {
                if self.slots[i].queue.len() == 0 {
                    proof {
                        assert(self@ =~= spec_recv(old(self)@, token).0);
                    }
                    None
                } else {
                    let mut slot = self.slots.remove(i);
                    let front = slot.queue.remove(0);
                    self.slots.insert(i, slot);
                    proof {
                        let h0 = old(self)@;
                        let gi = i as int;
                        assert(self.slots@[gi]@.queue =~= h0.slots[gi].queue.drop_first());
                        assert(self.slots@[gi]@ =~= SlotV {
                            token,
                            queue: h0.slots[gi].queue.drop_first(),
                        });
                        assert(self@.slots =~= h0.slots.update(gi, SlotV {
                            token,
                            queue: h0.slots[gi].queue.drop_first(),
                        }));
                        assert(self@ =~= spec_recv(h0, token).0);
                        assert(front@ == h0.slots[gi].queue[0]);
                        assert(wf_hub(self@)) by {
                            assert forall|a: int, b: int| 0 <= a < b < self@.slots.len() implies
                                self@.slots[a].token != self@.slots[b].token by {
                                assert(self@.slots[a].token == h0.slots[a].token);
                                assert(self@.slots[b].token == h0.slots[b].token);
                            }
                            assert forall|a: int| 0 <= a < self@.slots.len() implies #[trigger]
                                self@.slots[a].token < self@.next_token by {
                                assert(h0.slots[a].token < h0.next_token);
                            }
                            assert forall|a: int| 0 <= a < self@.slots.len() implies #[trigger]
                                self@.slots[a].queue.len() <= self@.capacity by {
                                assert(h0.slots[a].queue.len() <= h0.capacity);
                            }
                        }
                    }
                    Some(front)
                }
            },
            None => {
                proof {
                    assert(self@ =~= spec_recv(old(self)@, token).0);
                }
                None
            },
        }
    }

    /// Frees `token`'s slot; a no-op when it was already freed.
    pub fn unsubscribe(&mut self, token: u64)
        requires
            wf_hub(old(self)@),
        ensures
            final(self)@ == spec_unsubscribe(old(self)@, token),
            wf_hub(final(self)@),
    {
        match self.find_token(token) {
            Some(i) => {
                let _ = self.slots.remove(i);
                proof {
                    let h0 = old(self)@;
                    let gi = i as int;
                    assert(self@.slots =~= h0.slots.remove(gi)) by {
                        assert(self.slots@.map_values(|s: SubscriberSlot| s@) =~= old(self)
                            .slots@.remove(gi).map_values(|s: SubscriberSlot| s@));
                        assert(old(self).slots@.remove(gi).map_values(|s: SubscriberSlot| s@)
                            =~= h0.slots.remove(gi));
                    }
                    assert(self@ =~= spec_unsubscribe(h0, token));
                    h0.slots.remove_ensures(gi);
                    assert(wf_hub(self@)) by {
                        assert forall|a: int, b: int| 0 <= a < b < self@.slots.len() implies self@
                            .slots[a].token != self@.slots[b].token by {
                            let a0: int = if a < gi { a } else { a + 1 };
                            let b0: int = if b < gi { b } else { b + 1 };
                            assert(self@.slots[a] == h0.slots[a0]);
                            assert(self@.slots[b] == h0.slots[b0]);
                        }
                        assert forall|a: int| 0 <= a < self@.slots.len() implies #[trigger] self@
                            .slots[a].token < self@.next_token by {
                            let a0: int = if a < gi { a } else { a + 1 };
                            assert(self@.slots[a] == h0.slots[a0]);
                            assert(h0.slots[a0].token < h0.next_token);
                        }
                        assert forall|a: int| 0 <= a < self@.slots.len() implies #[trigger] self@
                            .slots[a].queue.len() <= self@.capacity by {
                            let a0: int = if a < gi { a } else { a + 1 };
                            assert(self@.slots[a] == h0.slots[a0]);
                            assert(h0.slots[a0].queue.len() <= h0.capacity);
                        }
                    }
                }
            },
            None => {
                proof {
                    assert(self@ =~= spec_unsubscribe(old(self)@, token));
                }
            },
        }
    }
}

} // verus!
