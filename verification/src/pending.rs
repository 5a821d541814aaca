//! A collection of pending requests.
//!
//! The tracker hands out random 16-bit transaction identifiers, keeps the
//! waiting caller's continuation under its identifier, and records one
//! deadline per pushed request in an append-only queue.  Because every
//! request uses the same fixed timeout duration and the clock handed in by
//! the caller never goes backwards, the deadlines in that queue are
//! non-decreasing, so the front of the queue is always the soonest deadline.
//! Entries removed out of order are not deleted from the queue eagerly; they
//! are discarded lazily when they reach the front.

use vstd::prelude::*;
use vstd::set_lib::lemma_len_subset;
use std::collections::HashMap;
use std::collections::VecDeque;

verus! {

broadcast use vstd::std_specs::hash::group_hash_axioms;

/// The largest number of entries the store will ever hold.  Reservations are
/// refused once the store is full, which keeps the occupied share of the
/// 65536 possible identifiers low enough that drawing a fresh random
/// identifier stays cheap.
pub const CAPACITY: usize = 0xA001;

/// An error happened while reserving an ID.
///
/// The only thing that can happen is that we run out of space.
pub struct ReserveError;

/// The waiting caller's handle for one outstanding query.
///
/// It carries the transaction ID of the query it waits for and an opaque
/// payload chosen by the caller (for instance a key into the caller's own
/// table of wakers).  Ownership of the value is the right to resolve the
/// query: the tracker holds it until it is popped (delivered) or returned by
/// `expire` or `teardown` (to be failed), and hands it out exactly once.
pub struct Continuation<T> {
    /// The transaction ID of the query this continuation waits for.
    pub id: u16,
    /// The caller's own payload.
    pub data: T,
}

/// One slot of the request store.
pub enum Entry<T> {
    /// The ID is allocated but no continuation has been pushed for it yet.
    Reserved,
    /// The ID is allocated and a continuation waits for its response.
    Occupied(Continuation<T>),
}

/// The state an ID is currently in, as observed by [`PendingRequests::id_state`].
pub enum IdState {
    /// The ID is not live and may be handed out again.
    Free,
    /// The ID is live with no continuation attached yet.
    Reserved,
    /// The ID is live and a continuation waits under it.
    Occupied,
}

/// What polling the external one-shot timer reported.
///
/// The timer facility itself lives outside the tracker; whoever drives the
/// event loop polls it and hands the outcome to [`PendingRequests::expire`].
pub enum TimerPoll {
    /// The timer has not fired yet.
    NotReady,
    /// The timer has fired.
    Ready,
    /// The timer facility failed; the deadline should be re-derived.
    Error,
}

/// True iff `id` is a key of the store and its entry carries a continuation.
pub open spec fn occupied_at<T>(m: Map<u16, Entry<T>>, id: u16) -> bool {
    m.contains_key(id) && m[id] is Occupied
}

/// Every occupied entry's continuation carries the key it is stored under.
pub open spec fn entry_ids_match<T>(m: Map<u16, Entry<T>>) -> bool {
    forall|id: u16|
        #[trigger] m.contains_key(id) ==> match m[id] {
            Entry::Occupied(c) => c.id == id,
            Entry::Reserved => true,
        }
}

/// The deadlines in the expiry queue never decrease from front to back.
pub open spec fn deadlines_sorted(q: Seq<(u16, u64)>) -> bool {
    forall|i: int, j: int| 0 <= i <= j < q.len() ==> (#[trigger] q[i]).1 <= (#[trigger] q[j]).1
}

/// True iff some record of the expiry queue carries `id`.
pub open spec fn queued(q: Seq<(u16, u64)>, id: u16) -> bool {
    exists|i: int| 0 <= i < q.len() && (#[trigger] q[i]).0 == id
}

/// A merely reserved ID has no record in the expiry queue.
///
/// Reservation refuses IDs that still occur in the queue, and only `push`
/// appends records, so a record's ID is either dead or occupied.  The drain
/// may therefore remove a due record's ID from the store unconditionally:
/// it never destroys a reservation.
pub open spec fn reserved_unqueued<T>(m: Map<u16, Entry<T>>, q: Seq<(u16, u64)>) -> bool {
    forall|id: u16|
        #[trigger] m.contains_key(id) && m[id] is Reserved ==> !queued(q, id)
}

/// No two records of the expiry queue share a live ID.
///
/// A live ID re-enters the queue only through `push`, which requires it to
/// be reserved and hence (by [`reserved_unqueued`]) unqueued, so the one
/// record of a live ID is the record its own push appended — the drain
/// never fails an entry against another incarnation's deadline.
pub open spec fn live_ids_unique<T>(m: Map<u16, Entry<T>>, q: Seq<(u16, u64)>) -> bool {
    forall|i: int, j: int|
        0 <= i < j < q.len() && (#[trigger] q[i]).0 == (#[trigger] q[j]).0 ==> !m.contains_key(
            q[i].0,
        )
}

/// Some 16-bit value is neither live in the store nor queued.
pub open spec fn spare_id_exists<T>(m: Map<u16, Entry<T>>, q: Seq<(u16, u64)>) -> bool {
    exists|id: u16| !m.contains_key(id) && !queued(q, id)
}

/// The queue with every record of a dead ID dropped, order kept.
pub open spec fn live_records<T>(q: Seq<(u16, u64)>, m: Map<u16, Entry<T>>) -> Seq<(u16, u64)>
    decreases q.len(),
{
    if q.len() == 0 {
        Seq::empty()
    } else if m.contains_key(q[0].0) {
        seq![q[0]] + live_records(q.drop_first(), m)
    } else {
        live_records(q.drop_first(), m)
    }
}

/// The number of records at the front of the queue whose ID is no longer a
/// key of the store.  These are the records the lazy discard may drop.
pub open spec fn stale_count<T>(q: Seq<(u16, u64)>, m: Map<u16, Entry<T>>) -> int
    decreases q.len(),
{
    if q.len() == 0 {
        0
    } else if m.contains_key(q[0].0) {
        0
    } else {
        1 + stale_count(q.drop_first(), m)
    }
}

/// What re-deriving the timer does: records whose IDs are no longer live are
/// discarded from the front, and the timer is armed for the deadline of the
/// first remaining record, or disarmed if none remains.
pub open spec fn rearm_rel<T>(
    q: Seq<(u16, u64)>,
    m: Map<u16, Entry<T>>,
    q2: Seq<(u16, u64)>,
    t2: Option<u64>,
) -> bool {
    let k = stale_count(q, m);
    &&& q2 == q.skip(k)
    &&& t2 == if k < q.len() {
        Some(q[k].1)
    } else {
        None::<u64>
    }
}

/// A collection of pending requests.
pub struct PendingRequests<T> {
    /// A map from DNS message IDs to requests.
    requests: HashMap<u16, Entry<T>>,
    /// An ordered list of message IDs and when they expire.
    ///
    /// Since we have a fixed duration and monotone time, we can use a
    /// simple deque here and push new requests to its end.
    expires: VecDeque<(u16, u64)>,
    /// The deadline the single external timer should next fire at, if any.
    timeout: Option<u64>,
    /// The duration until a request expires.
    duration: u64,
    /// The latest instant any operation has been handed; the insertion
    /// clock never runs backwards.
    clock: u64,
}

impl<T> PendingRequests<T> {
    /// The request store: which IDs are live, and with what entry.
    pub closed spec fn store(&self) -> Map<u16, Entry<T>> {
        self.requests@
    }

    /// The expiry queue: ID and deadline of every record not yet discarded.
    pub closed spec fn queue(&self) -> Seq<(u16, u64)> {
        self.expires@
    }

    /// The deadline the single timer is currently armed for, if any.
    pub closed spec fn timer(&self) -> Option<u64> {
        self.timeout
    }

    /// The fixed timeout duration set at construction.
    pub closed spec fn dur(&self) -> u64 {
        self.duration
    }

    /// The latest instant the tracker has been shown.
    pub closed spec fn last_seen(&self) -> u64 {
        self.clock
    }

    /// The tracker's invariant, re-established by every operation.
    pub open spec fn wf(&self) -> bool {
        &&& self.store().dom().finite()
        &&& entry_ids_match(self.store())
        &&& self.store().len() <= CAPACITY
        &&& reserved_unqueued(self.store(), self.queue())
        &&& live_ids_unique(self.store(), self.queue())
        &&& deadlines_sorted(self.queue())
        &&& forall|i: int|
            0 <= i < self.queue().len() ==> (#[trigger] self.queue()[i]).1 <= self.last_seen()
                + self.dur()
        &&& forall|id: u16| occupied_at(self.store(), id) ==> queued(self.queue(), id)
        &&& match self.timer() {
            Some(d) => self.queue().len() > 0 && self.queue()[0].1 == d,
            None => self.queue().len() == 0,
        }
    }

    /// Creates a new collection.
    ///
    /// `duration` is the fixed time each pushed request is given before it
    /// expires.  The instants handed to later calls are measured on the
    /// caller's monotone clock, starting no earlier than 0.
    pub fn new(duration: u64) -> (r: Self)
        ensures
            r.wf(),
            r.store() == Map::<u16, Entry<T>>::empty(),
            r.queue() == Seq::<(u16, u64)>::empty(),
            r.timer() is None,
            r.dur() == duration,
            r.last_seen() == 0,
    {
        PendingRequests {
            requests: HashMap::new(),
            expires: VecDeque::new(),
            timeout: None,
            duration,
            clock: 0,
        }
    }

    /// The deadline the single external timer should next fire at, if any.
    ///
    /// The event loop driving the tracker schedules its one-shot timer at
    /// this instant and polls it into [`Self::expire`].
    pub fn next_timeout(&self) -> (r: Option<u64>)
        ensures
            r == self.timer(),
    {
        self.timeout
    }

    /// Returns whether there are no more pending requests.
    pub fn is_empty(&self) -> (r: bool)
        ensures
            r == (self.store().len() == 0),
    {
        self.requests.is_empty()
    }

    /// The state the given ID is currently in.
    ///
    /// Callers use this to honour the reservation protocol — for instance
    /// to refuse a release or a push against an ID in the wrong state — and
    /// for protocol-level duplicate detection.
    pub fn id_state(&self, id: u16) -> (r: IdState)
        ensures
            r is Free <==> !self.store().contains_key(id),
            r is Reserved <==> self.store().contains_key(id) && self.store()[id] is Reserved,
            r is Occupied <==> occupied_at(self.store(), id),
    {
        match self.requests.get(&id) {
            None => IdState::Free,
            Some(entry) => match entry {
                Entry::Reserved => IdState::Reserved,
                Entry::Occupied(_) => IdState::Occupied,
            },
        }
    }

    /// The fixed duration each pushed request is given before it expires.
    pub fn expire_after(&self) -> (r: u64)
        ensures
            r == self.dur(),
    {
        self.duration
    }

    /// The latest instant the tracker has been shown; later instants handed
    /// to [`Self::push`] and [`Self::expire`] must not lie before it.
    pub fn last_instant(&self) -> (r: u64)
        ensures
            r == self.last_seen(),
    {
        self.clock
    }

    /// Returns whether any record of the expiry queue carries `id`.
    fn id_queued(&self, id: u16) -> (r: bool)
        ensures
            r == queued(self.queue(), id),
    {
        let mut i: usize = 0;
        while i < self.expires.len()
            invariant
                i <= self.expires@.len(),
                forall|j: int| 0 <= j < i ==> (#[trigger] self.expires@[j]).0 != id,
            decreases self.expires@.len() - i,
        {
            let (qid, _at) = self.expires[i];
            if qid == id {
                proof {
                    assert(self.expires@[i as int].0 == id);
                }
                return true;
            }
            i = i + 1;
        }
        false
    }

    /// Reserves a spot in the map and returns its ID.
    ///
    /// The ID is drawn from an unpredictable source and is distinct from
    /// every currently live ID; it also still has no record in the expiry
    /// queue, so a stale record of an earlier use can never be mistaken for
    /// the new reservation.  Reservation succeeds exactly when the store is
    /// below its capacity ceiling; once the ceiling is reached, every call
    /// fails with [`ReserveError`] until an entry is removed.  The queue and
    /// timer are left alone, except in the remote case that every 16-bit
    /// value is live or queued: then the dead records — which is most of
    /// them, as fewer than 2^16 can be live — are discarded and the timer
    /// re-derived before an ID is handed out.
    pub fn reserve(&mut self) -> (r: Result<u16, ReserveError>)
        requires
            old(self).wf(),
        ensures
            final(self).wf(),
            final(self).dur() == old(self).dur(),
            final(self).last_seen() == old(self).last_seen(),
            match r {
                Ok(id) => {
                    &&& old(self).store().len() < CAPACITY
                    &&& !old(self).store().contains_key(id)
                    &&& !queued(final(self).queue(), id)
                    &&& final(self).store() == old(self).store().insert(id, Entry::<T>::Reserved)
                },
                Err(_) => {
                    &&& old(self).store().len() >= CAPACITY
                    &&& final(self).store() == old(self).store()
                },
            },
            (r is Err || spare_id_exists(old(self).store(), old(self).queue())) ==> {
                &&& final(self).queue() == old(self).queue()
                &&& final(self).timer() == old(self).timer()
            },
            r is Ok && !spare_id_exists(old(self).store(), old(self).queue()) ==> {
                &&& final(self).queue() == live_records(old(self).queue(), old(self).store())
                &&& final(self).timer() == if final(self).queue().len() > 0 {
                    Some(final(self).queue()[0].1)
                } else {
                    None::<u64>
                }
            },
    {
        if self.requests.len() >= CAPACITY {
            return Err(ReserveError);
        }
        // Draw random IDs first: with occupancy capped well below the size
        // of the ID space, a fresh one is found after very few draws.
        let mut attempts: u32 = 0;
        while attempts < 64
            invariant
                self == old(self),
                old(self).wf(),
                old(self).store().len() < CAPACITY,
            decreases 64 - attempts,
        {
            let id = random_id();
            if !self.requests.contains_key(&id) && !self.id_queued(id) {
                proof {
                    assert(spare_id_exists(old(self).store(), old(self).queue()));
                }
                self.requests.insert(id, Entry::Reserved);
                proof {
                    lemma_insert_fresh_len(old(self).store(), id);
                    self.lemma_wf_after_reserve(*old(self), id);
                }
                return Ok(id);
            }
            attempts = attempts + 1;
        }
        // The random draws were unlucky.  Fall back to scanning the ID
        // space; an ID that is neither live nor queued almost always
        // exists, though an adversary could now predict which one is taken.
        let mut cand: u32 = 0;
        while cand < 0x10000
            invariant
                self == old(self),
                old(self).wf(),
                old(self).store().len() < CAPACITY,
                forall|j: int|
                    0 <= j < cand ==> self.store().contains_key(#[trigger] (j as u16)) || queued(
                        self.queue(),
                        j as u16,
                    ),
            decreases 0x10000 - cand,
        {
            let id = cand as u16;
            if !self.requests.contains_key(&id) && !self.id_queued(id) {
                proof {
                    assert(spare_id_exists(old(self).store(), old(self).queue()));
                }
                self.requests.insert(id, Entry::Reserved);
                proof {
                    lemma_insert_fresh_len(old(self).store(), id);
                    self.lemma_wf_after_reserve(*old(self), id);
                }
                return Ok(id);
            }
            cand = cand + 1;
        }
        // Every 16-bit value is live or stale-queued.  Discard the dead
        // records — the queue then holds live IDs only, of which there are
        // fewer than 2^16 — and take the first value that is free.
        proof {
            assert forall|id: u16| !(#[trigger] old(self).store().contains_key(id)) implies queued(
                old(self).queue(),
                id,
            ) by {
                assert(old(self).store().contains_key(((id as int) as u16)) || queued(
                    old(self).queue(),
                    (id as int) as u16,
                ));
            }
        }
        self.compact_queue();
        let ghost q0 = old(self).queue();
        let ghost m0 = old(self).store();
        let ghost qlive = self.expires@;
        proof {
            lemma_live_records_props(q0, m0);
            lemma_live_records_sorted(q0, m0);
            lemma_live_records_unique(m0, q0);
        }
        self.update_timeout();
        proof {
            if qlive.len() > 0 {
                assert(stale_count(qlive, self.requests@) == 0);
            }
            assert(qlive.skip(0) =~= qlive);
            assert(self.expires@ == qlive);
            assert forall|id2: u16| #[trigger]
                self.requests@.contains_key(id2) && self.requests@[id2] is Reserved implies !queued(
                qlive,
                id2,
            ) by {
                assert(!queued(q0, id2));
                if queued(qlive, id2) {
                    assert(queued(q0, id2));
                }
            }
            assert forall|i: int|
                0 <= i < qlive.len() implies (#[trigger] qlive[i]).1 <= self.clock
                + self.duration by {
                let w = choose|j: int| 0 <= j < q0.len() && q0[j] == qlive[i];
                assert(q0[w].1 <= old(self).last_seen() + old(self).dur());
            }
            assert forall|id2: u16| occupied_at(self.requests@, id2) implies queued(
                qlive,
                id2,
            ) by {
                assert(queued(q0, id2));
            }
        }
        let ghost mid = *self;
        proof {
            assert(mid.wf());
        }
        let mut cand2: u32 = 0;
        while cand2 < 0x10000
            invariant
                *self == mid,
                mid.wf(),
                mid.store() == old(self).store(),
                mid.dur() == old(self).dur(),
                mid.last_seen() == old(self).last_seen(),
                mid.queue() == live_records(old(self).queue(), old(self).store()),
                mid.timer() == if mid.queue().len() > 0 {
                    Some(mid.queue()[0].1)
                } else {
                    None::<u64>
                },
                !spare_id_exists(old(self).store(), old(self).queue()),
                old(self).store().len() < CAPACITY,
                forall|id: u16| #[trigger] queued(mid.queue(), id) ==> mid.store().contains_key(id),
                forall|j: int| 0 <= j < cand2 ==> mid.store().contains_key(#[trigger] (j as u16)),
            decreases 0x10000 - cand2,
        {
            let id = cand2 as u16;
            if !self.requests.contains_key(&id) {
                proof {
                    assert(!queued(mid.queue(), id));
                }
                self.requests.insert(id, Entry::Reserved);
                proof {
                    lemma_insert_fresh_len(mid.store(), id);
                    self.lemma_wf_after_reserve(mid, id);
                }
                return Ok(id);
            }
            cand2 = cand2 + 1;
        }
        // Unreachable: a store of fewer than 65536 entries cannot contain
        // every 16-bit ID.
        proof {
            assert forall|x: u16| u16_upto(0x10000).contains(x) implies self.store()
                .dom()
                .contains(x) by {
                assert(self.store().contains_key(((x as int) as u16)));
            }
            lemma_u16_upto_len(0x10000);
            lemma_len_subset(u16_upto(0x10000), self.store().dom());
            assert(false);
        }
        Err(ReserveError)
    }

    /// Reserving a fresh, unqueued ID keeps the invariant.
    proof fn lemma_wf_after_reserve(&self, pre: Self, id: u16)
        requires
            pre.wf(),
            pre.store().len() < CAPACITY,
            !pre.store().contains_key(id),
            !queued(pre.queue(), id),
            self.store() == pre.store().insert(id, Entry::<T>::Reserved),
            self.store().dom().finite(),
            self.queue() == pre.queue(),
            self.timer() == pre.timer(),
            self.dur() == pre.dur(),
            self.last_seen() == pre.last_seen(),
            self.store().len() == pre.store().len() + 1,
        ensures
            self.wf(),
    {
        let m2 = self.store();
        let q = self.queue();
        assert forall|id2: u16| #[trigger] m2.contains_key(id2) && m2[id2] is Reserved implies !queued(
            q,
            id2,
        ) by {
            if id2 != id {
                assert(pre.store().contains_key(id2));
            }
        }
        assert forall|i: int, j: int|
            0 <= i < j < q.len() && (#[trigger] q[i]).0 == (#[trigger] q[j]).0 implies !m2.contains_key(
            q[i].0,
        ) by {
            assert(!pre.store().contains_key(q[i].0));
            if q[i].0 == id {
                assert(queued(q, id));
            }
        }
        assert forall|id2: u16| occupied_at(m2, id2) implies queued(q, id2) by {
            assert(occupied_at(pre.store(), id2));
        }
    }

    /// Drops every record of a dead ID from the expiry queue, keeping order.
    fn compact_queue(&mut self)
        ensures
            final(self).store() == old(self).store(),
            final(self).dur() == old(self).dur(),
            final(self).last_seen() == old(self).last_seen(),
            final(self).timer() == old(self).timer(),
            final(self).queue() == live_records(old(self).queue(), old(self).store()),
    {
        let ghost q0 = self.expires@;
        let mut kept: VecDeque<(u16, u64)> = VecDeque::new();
        while self.expires.len() > 0
            invariant
                self.requests == old(self).requests,
                self.duration == old(self).duration,
                self.clock == old(self).clock,
                self.timeout == old(self).timeout,
                q0 == old(self).queue(),
                live_records(q0, self.requests@) == kept@ + live_records(
                    self.expires@,
                    self.requests@,
                ),
            decreases self.expires@.len(),
        {
            let ghost qc = self.expires@;
            let ghost kc = kept@;
            let (id, at) = self.expires[0];
            self.expires.pop_front();
            proof {
                assert(qc[0] == (id, at));
                assert(self.expires@ =~= qc.drop_first());
            }
            if self.requests.contains_key(&id) {
                kept.push_back((id, at));
                proof {
                    assert(live_records(qc, self.requests@) == seq![(id, at)] + live_records(
                        qc.drop_first(),
                        self.requests@,
                    ));
                    assert(kc + (seq![(id, at)] + live_records(self.expires@, self.requests@))
                        =~= kept@ + live_records(self.expires@, self.requests@));
                }
            } else {
                proof {
                    assert(live_records(qc, self.requests@) == live_records(
                        qc.drop_first(),
                        self.requests@,
                    ));
                }
            }
        }
        self.expires = kept;
        proof {
            assert(live_records(q0, self.requests@) =~= kept@ + Seq::<(u16, u64)>::empty());
            assert(kept@ + Seq::<(u16, u64)>::empty() =~= kept@);
        }
    }

    /// Drop a previously reserved id.
    ///
    /// The ID must be live and still merely reserved: releasing an unknown
    /// ID, or one a continuation has been pushed for, is caller misuse and
    /// outside this contract.
    pub fn unreserve(&mut self, id: u16)
        requires
            old(self).wf(),
            old(self).store().contains_key(id),
            old(self).store()[id] is Reserved,
        ensures
            final(self).wf(),
            final(self).store() == old(self).store().remove(id),
            final(self).queue() == old(self).queue(),
            final(self).timer() == old(self).timer(),
            final(self).dur() == old(self).dur(),
            final(self).last_seen() == old(self).last_seen(),
    {
        self.requests.remove(&id);
    }

    /// Adds the request with the given ID to the collection.
    ///
    /// The continuation's own ID must have been reserved before and nothing
    /// pushed for it since; anything else is caller misuse and outside this
    /// contract.  A deadline the fixed duration from `now` is appended to
    /// the expiry queue, and the timer is armed if it was not already.
    pub fn push(&mut self, request: Continuation<T>, now: u64)
        requires
            old(self).wf(),
            old(self).store().contains_key(request.id),
            old(self).store()[request.id] is Reserved,
            now >= old(self).last_seen(),
            now + old(self).dur() <= u64::MAX,
        ensures
            final(self).wf(),
            final(self).store() == old(self).store().insert(
                request.id,
                Entry::Occupied(request),
            ),
            final(self).queue() == old(self).queue().push(
                (request.id, (now + old(self).dur()) as u64),
            ),
            final(self).dur() == old(self).dur(),
            final(self).last_seen() == now,
            final(self).timer() == if old(self).timer() is Some {
                old(self).timer()
            } else {
                Some((now + old(self).dur()) as u64)
            },
    {
        let ghost m0 = old(self).store();
        let ghost q0 = old(self).queue();
        let id = request.id;
        self.requests.insert(id, Entry::Occupied(request));
        let at = now + self.duration;
        self.expires.push_back((id, at));
        self.clock = now;
        proof {
            assert(self.requests@.dom() =~= m0.dom().insert(id));
            assert(m0.dom().insert(id) =~= m0.dom());
        }
        if self.timeout.is_none() {
            self.update_timeout();
            proof {
                assert(q0.len() == 0);
                assert(self.expires@ =~= q0.push((id, at)).skip(0));
            }
        }
        proof {
            let m2 = self.requests@;
            let q2 = self.expires@;
            assert(q2 == q0.push((id, at)));
            assert forall|i: int, j: int| 0 <= i <= j < q2.len() implies (#[trigger] q2[i]).1
                <= (#[trigger] q2[j]).1 by {
                if j < q0.len() {
                    assert(q2[i] == q0[i]);
                    assert(q2[j] == q0[j]);
                } else if i < q0.len() {
                    assert(q2[i] == q0[i]);
                    assert(q0[i].1 <= old(self).last_seen() + old(self).dur());
                }
            }
            assert forall|i: int| 0 <= i < q2.len() implies (#[trigger] q2[i]).1 <= now
                + self.duration by {
                if i < q0.len() {
                    assert(q2[i] == q0[i]);
                    assert(q0[i].1 <= old(self).last_seen() + old(self).dur());
                }
            }
            assert forall|id2: u16| occupied_at(m2, id2) implies queued(q2, id2) by {
                if id2 == id {
                    assert(q2[q2.len() - 1].0 == id);
                } else {
                    assert(occupied_at(m0, id2));
                    assert(queued(q0, id2));
                    let w = choose|i: int| 0 <= i < q0.len() && (#[trigger] q0[i]).0 == id2;
                    assert(q2[w].0 == id2);
                }
            }
        }
    }

    /// Removes and returns the request with the given ID.
    ///
    /// An unknown ID yields `None`: a late or duplicate response is expected
    /// and harmless.  A merely reserved ID also yields `None`, but its
    /// reservation is released.  If the removed ID happened to be the front
    /// of the expiry queue, the front record is dropped and the timer
    /// re-derived right away; records for IDs removed out of order stay in
    /// the queue and are discarded lazily.
    pub fn pop(&mut self, id: u16) -> (r: Option<Continuation<T>>)
        requires
            old(self).wf(),
        ensures
            final(self).wf(),
            final(self).store() == old(self).store().remove(id),
            final(self).dur() == old(self).dur(),
            final(self).last_seen() == old(self).last_seen(),
            r == if occupied_at(old(self).store(), id) {
                Some(cont_of(old(self).store()[id]))
            } else {
                None::<Continuation<T>>
            },
            if old(self).store().contains_key(id) && old(self).queue().len() > 0 && old(
                self,
            ).queue()[0].0 == id {
                rearm_rel(
                    old(self).queue().drop_first(),
                    old(self).store().remove(id),
                    final(self).queue(),
                    final(self).timer(),
                )
            } else {
                final(self).queue() == old(self).queue() && final(self).timer() == old(
                    self,
                ).timer()
            },
    {
        let ghost m0 = old(self).store();
        let ghost q0 = old(self).queue();
        let removed = self.requests.remove(&id);
        match removed {
            None => None,
            Some(entry) => {
                let ghost m1 = m0.remove(id);
                let mut front_matched = false;
                if self.expires.len() > 0 {
                    let (fid, _fat) = self.expires[0];
                    if fid == id {
                        front_matched = true;
                        self.expires.pop_front();
                        proof {
                            assert(self.expires@ =~= q0.drop_first());
                        }
                        self.update_timeout();
                    }
                }
                proof {
                    let m2 = self.requests@;
                    let q2 = self.expires@;
                    assert(m2 == m1);
                    assert(m2.dom() =~= m0.dom().remove(id));
                    if front_matched {
                        let q1 = q0.drop_first();
                        let k = stale_count(q1, m1);
                        lemma_stale_count_props(q1, m1);
                        assert(q2 == q1.skip(k));
                        assert forall|i: int, j: int| 0 <= i <= j < q2.len() implies (
                        #[trigger] q2[i]).1 <= (#[trigger] q2[j]).1 by {
                            assert(q2[i] == q0[1 + k + i]);
                            assert(q2[j] == q0[1 + k + j]);
                        }
                        assert forall|i: int| 0 <= i < q2.len() implies (#[trigger] q2[i]).1
                            <= self.clock + self.duration by {
                            assert(q2[i] == q0[1 + k + i]);
                        }
                        assert forall|id2: u16| occupied_at(m2, id2) implies queued(q2, id2) by {
                            assert(id2 != id);
                            assert(occupied_at(m0, id2));
                            assert(queued(q0, id2));
                            let w = choose|i: int|
                                0 <= i < q0.len() && (#[trigger] q0[i]).0 == id2;
                            assert(w != 0);
                            assert(q1[w - 1].0 == id2);
                            assert(w - 1 >= k);
                            assert(q2[w - 1 - k].0 == id2);
                        }
                        if k < q1.len() {
                            assert(q2[0] == q1[k]);
                        }
                    } else {
                        assert forall|id2: u16| occupied_at(m2, id2) implies queued(
                            q2,
                            id2,
                        ) by {
                            assert(occupied_at(m0, id2));
                            assert(queued(q0, id2));
                        }
                    }
                }
                match entry {
                    Entry::Reserved => None,
                    Entry::Occupied(c) => Some(c),
                }
            },
        }
    }

    /// Updates the timeout.
    ///
    /// Since we don't delete the IDs in `pop()` (which could be expensive
    /// if they are somewhere in the middle), we pop records from the front
    /// until we find one whose ID is actually still live, and arm the timer
    /// for its deadline; if none is left, no timer is armed.
    fn update_timeout(&mut self)
        ensures
            final(self).store() == old(self).store(),
            final(self).dur() == old(self).dur(),
            final(self).last_seen() == old(self).last_seen(),
            rearm_rel(
                old(self).queue(),
                old(self).store(),
                final(self).queue(),
                final(self).timer(),
            ),
    {
        let ghost q0 = self.expires@;
        let ghost mut k: int = 0;
        while self.expires.len() > 0
            invariant
                self.requests == old(self).requests,
                self.duration == old(self).duration,
                self.clock == old(self).clock,
                self.timeout == old(self).timeout,
                q0 == old(self).queue(),
                0 <= k <= q0.len(),
                self.expires@ == q0.skip(k),
                stale_count(q0, self.requests@) == k + stale_count(self.expires@, self.requests@),
                forall|i: int| 0 <= i < k ==> !self.requests@.contains_key((#[trigger] q0[i]).0),
            decreases self.expires@.len(),
        {
            let (id, at) = self.expires[0];
            proof {
                assert(self.expires@[0] == q0[k]);
            }
            if self.requests.contains_key(&id) {
                self.timeout = Some(at);
                proof {
                    assert(stale_count(self.expires@, self.requests@) == 0);
                    assert(stale_count(q0, self.requests@) == k);
                }
                return ;
            }
            let ghost qc = self.expires@;
            self.expires.pop_front();
            proof {
                assert(stale_count(qc, self.requests@) == 1 + stale_count(
                    qc.drop_first(),
                    self.requests@,
                ));
                assert(self.expires@ =~= qc.drop_first());
                k = k + 1;
                assert(self.expires@ =~= q0.skip(k));
            }
        }
        self.timeout = None;
        proof {
            assert(k == q0.len());
            assert(stale_count(q0, self.requests@) == k);
        }
    }

    /// Removes and fails all expired requests.
    ///
    /// The scheduler driving the tracker polls the external timer and hands
    /// in the outcome together with the current instant.  While no timer is
    /// armed, or while it has not fired, nothing happens, so redundant calls
    /// are harmless.  When it has fired, every due front record is drained:
    /// a record whose ID still holds a continuation removes the entry and
    /// yields the continuation, which the caller must fail with its timeout
    /// condition; a stale record is discarded silently.  Afterwards — or
    /// after a timer-facility error, whose recovery is to re-derive the
    /// timer once and wait for the next tick — the timer is re-armed for the
    /// first remaining live record, if any.
    pub fn expire(&mut self, now: u64, poll: TimerPoll) -> (failed: Vec<Continuation<T>>)
        requires
            old(self).wf(),
            now >= old(self).last_seen(),
        ensures
            final(self).wf(),
            final(self).dur() == old(self).dur(),
            old(self).timer() is None || poll is NotReady ==> {
                &&& failed@ == Seq::<Continuation<T>>::empty()
                &&& final(self).store() == old(self).store()
                &&& final(self).queue() == old(self).queue()
                &&& final(self).timer() == old(self).timer()
                &&& final(self).last_seen() == old(self).last_seen()
            },
            old(self).timer() is Some && poll is Ready ==> {
                &&& failed@ == drain_pairs(old(self).queue(), old(self).store(), now).map_values(
                    |p: (Continuation<T>, u64)| p.0,
                )
                &&& final(self).store() == drain_store(old(self).queue(), old(self).store(), now)
                &&& rearm_rel(
                    old(self).queue().skip(due_count(old(self).queue(), now)),
                    drain_store(old(self).queue(), old(self).store(), now),
                    final(self).queue(),
                    final(self).timer(),
                )
                &&& final(self).last_seen() == now
            },
            old(self).timer() is Some && poll is Error ==> {
                &&& failed@ == Seq::<Continuation<T>>::empty()
                &&& final(self).store() == old(self).store()
                &&& rearm_rel(
                    old(self).queue(),
                    old(self).store(),
                    final(self).queue(),
                    final(self).timer(),
                )
                &&& final(self).last_seen() == old(self).last_seen()
            },
    {
        let ghost q0 = old(self).queue();
        let ghost m0 = old(self).store();
        let mut failed: Vec<Continuation<T>> = Vec::new();
        if self.timeout.is_none() {
            return failed;
        }
        match poll {
            TimerPoll::NotReady => {
                return failed;
            },
            TimerPoll::Error => {
                // Fall through to update_timeout to perhaps fix the broken
                // timeout; the fresh deadline is polled on the next tick.
                self.update_timeout();
                proof {
                    let k2 = stale_count(q0, m0);
                    let q2 = self.expires@;
                    lemma_stale_count_props(q0, m0);
                    assert forall|i: int, j: int| 0 <= i <= j < q2.len() implies (
                    #[trigger] q2[i]).1 <= (#[trigger] q2[j]).1 by {
                        assert(q2[i] == q0[k2 + i]);
                        assert(q2[j] == q0[k2 + j]);
                    }
                    assert forall|i: int| 0 <= i < q2.len() implies (#[trigger] q2[i]).1
                        <= self.clock + self.duration by {
                        assert(q2[i] == q0[k2 + i]);
                    }
                    assert forall|id2: u16| occupied_at(self.requests@, id2) implies queued(
                        q2,
                        id2,
                    ) by {
                        assert(occupied_at(m0, id2));
                        assert(queued(q0, id2));
                        let w = choose|i: int| 0 <= i < q0.len() && (#[trigger] q0[i]).0 == id2;
                        assert(w >= k2);
                        assert(q2[w - k2].0 == id2);
                    }
                    if k2 < q0.len() {
                        assert(q2[0] == q0[k2]);
                    }
                }
                return failed;
            },
            TimerPoll::Ready => {},
        }
        self.clock = now;
        let ghost mut pairs = Seq::<(Continuation<T>, u64)>::empty();
        let ghost mut k: int = 0;
        while self.expires.len() > 0 && self.expires[0].1 <= now
            invariant
                q0 == old(self).queue(),
                m0 == old(self).store(),
                entry_ids_match(m0),
                m0.dom().finite(),
                self.duration == old(self).duration,
                self.timeout == old(self).timeout,
                self.clock == now,
                0 <= k <= q0.len(),
                self.expires@ == q0.skip(k),
                forall|i: int| 0 <= i < k ==> !self.requests@.contains_key((#[trigger] q0[i]).0),
                forall|id2: u16| #[trigger]
                    self.requests@.contains_key(id2) ==> m0.contains_key(id2)
                        && self.requests@[id2] == m0[id2],
                due_count(q0, now) == k + due_count(self.expires@, now),
                drain_pairs(q0, m0, now) == pairs + drain_pairs(
                    self.expires@,
                    self.requests@,
                    now,
                ),
                drain_store(q0, m0, now) == drain_store(self.expires@, self.requests@, now),
                failed@ == pairs.map_values(|p: (Continuation<T>, u64)| p.0),
            decreases self.expires@.len(),
        {
            let (id, at) = self.expires[0];
            let ghost qc = self.expires@;
            let ghost mc = self.requests@;
            self.expires.pop_front();
            let removed = self.requests.remove(&id);
            proof {
                assert(qc[0] == (id, at));
                assert(self.expires@ =~= qc.drop_first());
                assert(due_count(qc, now) == 1 + due_count(qc.drop_first(), now));
                assert(drain_store(qc, mc, now) == drain_store(
                    qc.drop_first(),
                    mc.remove(id),
                    now,
                ));
                k = k + 1;
                assert(self.expires@ =~= q0.skip(k));
            }
            match removed {
                Some(entry) => {
                    match entry {
                        Entry::Occupied(c) => {
                            proof {
                                assert(occupied_at(mc, id));
                                assert(c == cont_of(mc[id]));
                                assert(drain_pairs(qc, mc, now) == seq![(c, at)] + drain_pairs(
                                    qc.drop_first(),
                                    mc.remove(id),
                                    now,
                                ));
                                let ghost pairs0 = pairs;
                                pairs = pairs.push((c, at));
                                assert(pairs0 + (seq![(c, at)] + drain_pairs(
                                    self.expires@,
                                    self.requests@,
                                    now,
                                )) =~= pairs + drain_pairs(self.expires@, self.requests@, now));
                            }
                            failed.push(c);
                            proof {
                                assert(failed@ =~= pairs.map_values(
                                    |p: (Continuation<T>, u64)| p.0,
                                ));
                            }
                        },
                        Entry::Reserved => {
                            proof {
                                assert(!occupied_at(mc, id));
                                assert(drain_pairs(qc, mc, now) == drain_pairs(
                                    qc.drop_first(),
                                    mc.remove(id),
                                    now,
                                ));
                            }
                        },
                    }
                },
                None => {
                    proof {
                        assert(!occupied_at(mc, id));
                        assert(mc.remove(id) =~= mc);
                        assert(drain_pairs(qc, mc, now) == drain_pairs(
                            qc.drop_first(),
                            mc.remove(id),
                            now,
                        ));
                    }
                },
            }
        }
        proof {
            assert(due_count(self.expires@, now) == 0);
            assert(drain_pairs(self.expires@, self.requests@, now) =~= Seq::<
                (Continuation<T>, u64),
            >::empty());
            assert(pairs + drain_pairs(self.expires@, self.requests@, now) =~= pairs);
            assert(k == due_count(q0, now));
            assert(drain_store(self.expires@, self.requests@, now) == self.requests@);
        }
        let ghost qd = self.expires@;
        let ghost ms = self.requests@;
        self.update_timeout();
        proof {
            let k2 = stale_count(qd, ms);
            let q2 = self.expires@;
            lemma_stale_count_props(qd, ms);
            assert(ms.dom().subset_of(m0.dom()));
            lemma_len_subset(ms.dom(), m0.dom());
            assert forall|i: int, j: int| 0 <= i <= j < q2.len() implies (#[trigger] q2[i]).1 <= (
            #[trigger] q2[j]).1 by {
                assert(q2[i] == q0[k + k2 + i]);
                assert(q2[j] == q0[k + k2 + j]);
            }
            assert forall|i: int| 0 <= i < q2.len() implies (#[trigger] q2[i]).1 <= self.clock
                + self.duration by {
                assert(q2[i] == q0[k + k2 + i]);
                assert(q0[k + k2 + i].1 <= old(self).last_seen() + self.duration);
            }
            assert forall|id2: u16| occupied_at(ms, id2) implies queued(q2, id2) by {
                assert(occupied_at(m0, id2));
                assert(queued(q0, id2));
                let w = choose|i: int| 0 <= i < q0.len() && (#[trigger] q0[i]).0 == id2;
                assert(w >= k);
                assert(qd[w - k].0 == id2);
                assert(w - k >= k2);
                assert(q2[w - k - k2].0 == id2);
            }
            if k2 < qd.len() {
                assert(q2[0] == qd[k2]);
            }
        }
        failed
    }

    /// Destroys the tracker and returns every continuation still waiting.
    ///
    /// Each returned continuation must be failed by the caller, so that no
    /// waiter is left hanging: the result carries the continuation of every
    /// occupied entry exactly once, and nothing else.  Merely reserved IDs
    /// need no action and are simply forgotten.
    pub fn teardown(self) -> (failed: Vec<Continuation<T>>)
        requires
            self.wf(),
        ensures
            forall|j: int|
                0 <= j < failed@.len() ==> occupied_at(self.store(), (#[trigger] failed@[j]).id)
                    && self.store()[failed@[j].id] == Entry::Occupied(failed@[j]),
            forall|i: int, j: int|
                0 <= i < j < failed@.len() ==> (#[trigger] failed@[i]).id != (
                #[trigger] failed@[j]).id,
            forall|id: u16|
                occupied_at(self.store(), id) ==> exists|j: int|
                    0 <= j < failed@.len() && (#[trigger] failed@[j]).id == id,
    {
        let ghost m0 = self.store();
        let ghost q0 = self.queue();
        let mut this = self;
        let mut failed: Vec<Continuation<T>> = Vec::new();
        while this.expires.len() > 0
            invariant
                entry_ids_match(m0),
                forall|id2: u16| #[trigger]
                    this.requests@.contains_key(id2) ==> m0.contains_key(id2)
                        && this.requests@[id2] == m0[id2],
                forall|id2: u16|
                    occupied_at(this.requests@, id2) ==> queued(this.expires@, id2),
                forall|j: int|
                    0 <= j < failed@.len() ==> occupied_at(m0, (#[trigger] failed@[j]).id)
                        && m0[failed@[j].id] == Entry::Occupied(failed@[j])
                        && !this.requests@.contains_key(failed@[j].id),
                forall|i: int, j: int|
                    0 <= i < j < failed@.len() ==> (#[trigger] failed@[i]).id != (
                    #[trigger] failed@[j]).id,
                forall|id2: u16|
                    occupied_at(m0, id2) ==> occupied_at(this.requests@, id2) || exists|j: int|
                        0 <= j < failed@.len() && (#[trigger] failed@[j]).id == id2,
            decreases this.expires@.len(),
        {
            let (id, _at) = this.expires[0];
            let ghost qc = this.expires@;
            let ghost mc = this.requests@;
            let ghost failed0 = failed@;
            this.expires.pop_front();
            let removed = this.requests.remove(&id);
            proof {
                assert(this.expires@ =~= qc.drop_first());
            }
            match removed {
                Some(entry) => {
                    match entry {
                        Entry::Occupied(c) => {
                            proof {
                                assert(occupied_at(mc, id));
                                assert(c.id == id);
                            }
                            failed.push(c);
                            proof {
                                assert(failed@[failed@.len() - 1] == c);
                                assert forall|j: int| 0 <= j < failed@.len() - 1 implies (
                                #[trigger] failed@[j]).id != id by {
                                    assert(failed@[j] == failed0[j]);
                                }
                            }
                        },
                        Entry::Reserved => {},
                    }
                },
                None => {},
            }
            proof {
                assert forall|id2: u16| occupied_at(this.requests@, id2) implies queued(
                    this.expires@,
                    id2,
                ) by {
                    assert(id2 != id);
                    assert(occupied_at(mc, id2));
                    assert(queued(qc, id2));
                    let w = choose|i: int| 0 <= i < qc.len() && (#[trigger] qc[i]).0 == id2;
                    assert(w != 0);
                    assert(this.expires@[w - 1].0 == id2);
                }
                assert forall|id2: u16|
                    occupied_at(m0, id2) implies occupied_at(this.requests@, id2) || exists|j: int|
                    0 <= j < failed@.len() && (#[trigger] failed@[j]).id == id2 by {
                    if id2 == id && occupied_at(mc, id) {
                        assert(failed@[failed@.len() - 1].id == id);
                    } else if !occupied_at(mc, id2) {
                        let w = choose|j: int|
                            0 <= j < failed0.len() && (#[trigger] failed0[j]).id == id2;
                        assert(failed@[w].id == id2);
                    }
                }
            }
        }
        proof {
            assert(this.expires@.len() == 0);
            assert forall|id2: u16| occupied_at(m0, id2) implies exists|j: int|
                0 <= j < failed@.len() && (#[trigger] failed@[j]).id == id2 by {
                assert(!queued(this.expires@, id2));
                assert(!occupied_at(this.requests@, id2));
            }
        }
        failed
    }
}

/// The number of records at the front of the queue whose deadline is at or
/// before `now`.  The expiry drain consumes exactly these records.
pub open spec fn due_count(q: Seq<(u16, u64)>, now: u64) -> int
    decreases q.len(),
{
    if q.len() == 0 || q[0].1 > now {
        0
    } else {
        1 + due_count(q.drop_first(), now)
    }
}

/// The continuations the expiry drain removes and fails, front to back, each
/// paired with the deadline of the record that triggered it.
///
/// The drain walks the due front records in order.  A record whose ID still
/// holds an occupied entry yields that entry's continuation; a record whose
/// ID is gone, or merely reserved again, yields nothing.  Either way the ID
/// is removed from the store before the rest of the queue is considered, so
/// a second record with the same ID yields nothing.
pub open spec fn drain_pairs<T>(q: Seq<(u16, u64)>, m: Map<u16, Entry<T>>, now: u64) -> Seq<
    (Continuation<T>, u64),
>
    decreases q.len(),
{
    if q.len() == 0 || q[0].1 > now {
        Seq::empty()
    } else {
        let rest = drain_pairs(q.drop_first(), m.remove(q[0].0), now);
        if occupied_at(m, q[0].0) {
            seq![(cont_of(m[q[0].0]), q[0].1)] + rest
        } else {
            rest
        }
    }
}

/// The store left behind by the expiry drain: the ID of every due front
/// record is removed, whatever its entry was.
pub open spec fn drain_store<T>(q: Seq<(u16, u64)>, m: Map<u16, Entry<T>>, now: u64) -> Map<
    u16,
    Entry<T>,
>
    decreases q.len(),
{
    if q.len() == 0 || q[0].1 > now {
        m
    } else {
        drain_store(q.drop_first(), m.remove(q[0].0), now)
    }
}

/// The continuation an occupied entry carries.
pub open spec fn cont_of<T>(e: Entry<T>) -> Continuation<T> {
    match e {
        Entry::Occupied(c) => c,
        Entry::Reserved => arbitrary(),
    }
}

/// The records counted by [`stale_count`] really form a prefix: each of them
/// carries an ID that is no longer live, and the record right after the
/// prefix, if any, carries a live one.
pub proof fn lemma_stale_count_props<T>(q: Seq<(u16, u64)>, m: Map<u16, Entry<T>>)
    ensures
        0 <= stale_count(q, m) <= q.len(),
        forall|i: int| 0 <= i < stale_count(q, m) ==> !m.contains_key((#[trigger] q[i]).0),
        stale_count(q, m) < q.len() ==> m.contains_key(q[stale_count(q, m)].0),
    decreases q.len(),
{
    if q.len() == 0 {
    } else if m.contains_key(q[0].0) {
    } else {
        lemma_stale_count_props(q.drop_first(), m);
        assert forall|i: int| 0 <= i < stale_count(q, m) implies !m.contains_key(
            (#[trigger] q[i]).0,
        ) by {
            if i > 0 {
                assert(q[i] == q.drop_first()[i - 1]);
            }
        }
        if stale_count(q, m) < q.len() {
            assert(q[stale_count(q, m)] == q.drop_first()[stale_count(q, m) - 1]);
        }
    }
}

/// What compaction keeps: exactly the records of live IDs, each of them a
/// record of the old queue, with the set of queued live IDs unchanged.
pub proof fn lemma_live_records_props<T>(q: Seq<(u16, u64)>, m: Map<u16, Entry<T>>)
    ensures
        forall|i: int|
            0 <= i < live_records(q, m).len() ==> m.contains_key(
                (#[trigger] live_records(q, m)[i]).0,
            ) && exists|j: int| 0 <= j < q.len() && q[j] == live_records(q, m)[i],
        forall|id: u16| #[trigger]
            queued(live_records(q, m), id) ==> queued(q, id) && m.contains_key(id),
        forall|id: u16| queued(q, id) && m.contains_key(id) ==> queued(live_records(q, m), id),
    decreases q.len(),
{
    if q.len() == 0 {
    } else {
        let live = live_records(q, m);
        let rest = live_records(q.drop_first(), m);
        lemma_live_records_props(q.drop_first(), m);
        let off: int = if m.contains_key(q[0].0) {
            1
        } else {
            0
        };
        assert forall|i: int|
            0 <= i < live.len() implies m.contains_key((#[trigger] live[i]).0) && exists|j: int|
            0 <= j < q.len() && q[j] == live[i] by {
            if off == 1 && i == 0 {
                assert(live[0] == q[0]);
                assert(q[0] == live[i]);
            } else {
                assert(live[i] == rest[i - off]);
                let w = choose|j: int|
                    0 <= j < q.drop_first().len() && q.drop_first()[j] == rest[i - off];
                assert(q[w + 1] == live[i]);
            }
        }
        assert forall|id: u16| #[trigger] queued(live, id) implies queued(q, id) && m.contains_key(
            id,
        ) by {
            let w = choose|i: int| 0 <= i < live.len() && (#[trigger] live[i]).0 == id;
            let j = choose|j: int| 0 <= j < q.len() && q[j] == live[w];
            assert(q[j].0 == id);
        }
        assert forall|id: u16| queued(q, id) && m.contains_key(id) implies queued(live, id) by {
            let w = choose|i: int| 0 <= i < q.len() && (#[trigger] q[i]).0 == id;
            if w == 0 {
                assert(live[0].0 == id);
            } else {
                assert(q.drop_first()[w - 1].0 == id);
                assert(queued(q.drop_first(), id));
                let w2 = choose|i: int| 0 <= i < rest.len() && (#[trigger] rest[i]).0 == id;
                assert(live[w2 + off].0 == id);
            }
        }
    }
}

/// Compaction keeps the deadlines sorted.
pub proof fn lemma_live_records_sorted<T>(q: Seq<(u16, u64)>, m: Map<u16, Entry<T>>)
    requires
        deadlines_sorted(q),
    ensures
        deadlines_sorted(live_records(q, m)),
    decreases q.len(),
{
    if q.len() > 0 {
        let live = live_records(q, m);
        let rest = live_records(q.drop_first(), m);
        assert forall|i: int, j: int|
            0 <= i <= j < q.drop_first().len() implies (#[trigger] q.drop_first()[i]).1 <= (
        #[trigger] q.drop_first()[j]).1 by {
            assert(q.drop_first()[i] == q[i + 1]);
            assert(q.drop_first()[j] == q[j + 1]);
        }
        lemma_live_records_sorted(q.drop_first(), m);
        lemma_live_records_props(q.drop_first(), m);
        if m.contains_key(q[0].0) {
            assert forall|i: int, j: int| 0 <= i <= j < live.len() implies (#[trigger] live[i]).1
                <= (#[trigger] live[j]).1 by {
                if i == 0 {
                    if j > 0 {
                        assert(live[j] == rest[j - 1]);
                        let w = choose|jj: int|
                            0 <= jj < q.drop_first().len() && q.drop_first()[jj] == rest[j - 1];
                        assert(q[w + 1] == live[j]);
                        assert(q[0].1 <= q[w + 1].1);
                    }
                } else {
                    assert(live[i] == rest[i - 1]);
                    assert(live[j] == rest[j - 1]);
                }
            }
        } else {
            assert(live == rest);
        }
    }
}

/// After compaction no two records share an ID at all: every kept record's
/// ID is live, and no two records shared a live ID to begin with.
pub proof fn lemma_live_records_unique<T>(m: Map<u16, Entry<T>>, q: Seq<(u16, u64)>)
    requires
        live_ids_unique(m, q),
    ensures
        forall|i: int, j: int|
            0 <= i < j < live_records(q, m).len() ==> (#[trigger] live_records(q, m)[i]).0 != (
            #[trigger] live_records(q, m)[j]).0,
    decreases q.len(),
{
    if q.len() > 0 {
        let live = live_records(q, m);
        let rest = live_records(q.drop_first(), m);
        assert forall|i: int, j: int|
            0 <= i < j < q.drop_first().len() && (#[trigger] q.drop_first()[i]).0 == (
        #[trigger] q.drop_first()[j]).0 implies !m.contains_key(q.drop_first()[i].0) by {
            assert(q.drop_first()[i] == q[i + 1]);
            assert(q.drop_first()[j] == q[j + 1]);
        }
        lemma_live_records_unique(m, q.drop_first());
        lemma_live_records_props(q.drop_first(), m);
        if m.contains_key(q[0].0) {
            assert forall|i: int, j: int| 0 <= i < j < live.len() implies (#[trigger] live[i]).0
                != (#[trigger] live[j]).0 by {
                if i == 0 {
                    assert(live[j] == rest[j - 1]);
                    if rest[j - 1].0 == q[0].0 {
                        assert(queued(rest, q[0].0));
                        assert(queued(q.drop_first(), q[0].0));
                        let w = choose|ii: int|
                            0 <= ii < q.drop_first().len() && (#[trigger] q.drop_first()[ii]).0
                                == q[0].0;
                        assert(q[w + 1].0 == q[0].0);
                        assert(!m.contains_key(q[0].0));
                        assert(false);
                    }
                } else {
                    assert(live[i] == rest[i - 1]);
                    assert(live[j] == rest[j - 1]);
                }
            }
        } else {
            assert(live == rest);
        }
    }
}

/// The store after reserving each ID of `ids` in order, starting from `m`.
pub open spec fn store_after_reserves<T>(m: Map<u16, Entry<T>>, ids: Seq<u16>) -> Map<
    u16,
    Entry<T>,
>
    decreases ids.len(),
{
    if ids.len() == 0 {
        m
    } else {
        store_after_reserves(m.insert(ids[0], Entry::Reserved), ids.drop_first())
    }
}

/// What `reserve`'s contract promises of a run of successful reservations
/// with nothing released in between: each ID is absent from the store that
/// call found, which then grows by that reservation.
pub open spec fn fresh_reserves<T>(m: Map<u16, Entry<T>>, ids: Seq<u16>) -> bool
    decreases ids.len(),
{
    if ids.len() == 0 {
        true
    } else {
        !m.contains_key(ids[0]) && fresh_reserves(m.insert(ids[0], Entry::Reserved), ids.drop_first())
    }
}

/// No ID reserved during a fresh run was live when the run began.
pub proof fn lemma_fresh_reserves_avoid<T>(m: Map<u16, Entry<T>>, ids: Seq<u16>, k: u16)
    requires
        fresh_reserves(m, ids),
        m.contains_key(k),
    ensures
        forall|j: int| 0 <= j < ids.len() ==> ids[j] != k,
    decreases ids.len(),
{
    if ids.len() > 0 {
        lemma_fresh_reserves_avoid(m.insert(ids[0], Entry::Reserved), ids.drop_first(), k);
        assert forall|j: int| 0 <= j < ids.len() implies ids[j] != k by {
            if j > 0 {
                assert(ids[j] == ids.drop_first()[j - 1]);
            }
        }
    }
}

/// Uniqueness law: however many IDs a run of successful `reserve` calls
/// hands out, with no `unreserve` or `pop` in between, no two of them are
/// equal, and all of them are live afterwards.
pub proof fn lemma_reserve_uniqueness<T>(m: Map<u16, Entry<T>>, ids: Seq<u16>)
    requires
        fresh_reserves(m, ids),
    ensures
        forall|i: int, j: int| 0 <= i < j < ids.len() ==> ids[i] != ids[j],
        forall|j: int|
            0 <= j < ids.len() ==> store_after_reserves(m, ids).contains_key(#[trigger] ids[j]),
    decreases ids.len(),
{
    if ids.len() > 0 {
        let m1 = m.insert(ids[0], Entry::<T>::Reserved);
        lemma_reserve_uniqueness(m1, ids.drop_first());
        lemma_fresh_reserves_avoid(m1, ids.drop_first(), ids[0]);
        lemma_store_after_keeps(m1, ids.drop_first(), ids[0]);
        assert forall|i: int, j: int| 0 <= i < j < ids.len() implies ids[i] != ids[j] by {
            if i > 0 {
                assert(ids[i] == ids.drop_first()[i - 1]);
                assert(ids[j] == ids.drop_first()[j - 1]);
            } else {
                assert(ids[j] == ids.drop_first()[j - 1]);
            }
        }
        assert forall|j: int|
            0 <= j < ids.len() implies store_after_reserves(m, ids).contains_key(
            #[trigger] ids[j],
        ) by {
            if j > 0 {
                assert(ids[j] == ids.drop_first()[j - 1]);
            }
        }
    }
}

/// A live ID stays live across further reservations.
pub proof fn lemma_store_after_keeps<T>(m: Map<u16, Entry<T>>, ids: Seq<u16>, k: u16)
    requires
        m.contains_key(k),
    ensures
        store_after_reserves(m, ids).contains_key(k),
    decreases ids.len(),
{
    if ids.len() > 0 {
        lemma_store_after_keeps(m.insert(ids[0], Entry::Reserved), ids.drop_first(), k);
    }
}

/// Whatever the expiry drain leaves in the store was there before, unchanged.
pub proof fn lemma_drain_store_sub<T>(q: Seq<(u16, u64)>, m: Map<u16, Entry<T>>, now: u64)
    ensures
        forall|id: u16| #[trigger]
            drain_store(q, m, now).contains_key(id) ==> m.contains_key(id) && drain_store(
                q,
                m,
                now,
            )[id] == m[id],
    decreases q.len(),
{
    if q.len() == 0 || q[0].1 > now {
    } else {
        lemma_drain_store_sub(q.drop_first(), m.remove(q[0].0), now);
        assert(drain_store(q, m, now) == drain_store(q.drop_first(), m.remove(q[0].0), now));
        assert forall|id: u16| #[trigger]
            drain_store(q, m, now).contains_key(id) implies m.contains_key(id) && drain_store(
            q,
            m,
            now,
        )[id] == m[id] by {
            assert(drain_store(q.drop_first(), m.remove(q[0].0), now).contains_key(id));
            assert(m.remove(q[0].0).contains_key(id));
        }
    }
}

/// At-most-once law: every continuation the expiry drain yields came from an
/// occupied entry, is yielded for its own ID only, no ID is yielded twice,
/// and a yielded ID is no longer in the store the drain leaves behind — so
/// the same continuation can never be failed again, nor popped later.
pub proof fn lemma_drain_once<T>(q: Seq<(u16, u64)>, m: Map<u16, Entry<T>>, now: u64)
    requires
        entry_ids_match(m),
    ensures
        forall|j: int|
            0 <= j < drain_pairs(q, m, now).len() ==> {
                let c = (#[trigger] drain_pairs(q, m, now)[j]).0;
                &&& occupied_at(m, c.id)
                &&& m[c.id] == Entry::Occupied(c)
                &&& !drain_store(q, m, now).contains_key(c.id)
            },
        forall|i: int, j: int|
            0 <= i < j < drain_pairs(q, m, now).len() ==> (#[trigger] drain_pairs(q, m, now)[i]).0.id
                != (#[trigger] drain_pairs(q, m, now)[j]).0.id,
    decreases q.len(),
{
    if q.len() == 0 || q[0].1 > now {
    } else {
        let i0 = q[0].0;
        let m1 = m.remove(i0);
        let rest = drain_pairs(q.drop_first(), m1, now);
        lemma_drain_once(q.drop_first(), m1, now);
        lemma_drain_store_sub(q.drop_first(), m1, now);
        assert(drain_store(q, m, now) == drain_store(q.drop_first(), m1, now));
        if occupied_at(m, i0) {
            let c0 = cont_of(m[i0]);
            assert(c0.id == i0);
            let whole = seq![(c0, q[0].1)] + rest;
            assert(drain_pairs(q, m, now) == whole);
            assert forall|j: int| 0 <= j < whole.len() implies {
                let c = (#[trigger] whole[j]).0;
                &&& occupied_at(m, c.id)
                &&& m[c.id] == Entry::Occupied(c)
                &&& !drain_store(q, m, now).contains_key(c.id)
            } by {
                if j == 0 {
                    assert(!drain_store(q.drop_first(), m1, now).contains_key(i0));
                } else {
                    assert(whole[j] == rest[j - 1]);
                    let c = rest[j - 1].0;
                    assert(occupied_at(m1, c.id));
                }
            }
            assert forall|i: int, j: int| 0 <= i < j < whole.len() implies (
            #[trigger] whole[i]).0.id != (#[trigger] whole[j]).0.id by {
                if i == 0 {
                    assert(whole[j] == rest[j - 1]);
                    assert(occupied_at(m1, rest[j - 1].0.id));
                } else {
                    assert(whole[i] == rest[i - 1]);
                    assert(whole[j] == rest[j - 1]);
                }
            }
        } else {
            assert(drain_pairs(q, m, now) == rest);
            assert forall|j: int| 0 <= j < rest.len() implies {
                let c = (#[trigger] drain_pairs(q, m, now)[j]).0;
                &&& occupied_at(m, c.id)
                &&& m[c.id] == Entry::Occupied(c)
                &&& !drain_store(q, m, now).contains_key(c.id)
            } by {
                let c = rest[j].0;
                assert(occupied_at(m1, c.id));
            }
        }
    }
}

/// Reservation-survival law: the expiry drain never destroys a
/// reservation.  A merely reserved ID has no queued record, so no due
/// front record can carry it, and its entry comes through any drain
/// untouched; only explicit release or a push can end a reservation.
pub proof fn lemma_drain_keeps_reserved<T>(q: Seq<(u16, u64)>, m: Map<u16, Entry<T>>, now: u64)
    requires
        reserved_unqueued(m, q),
    ensures
        forall|id: u16| #[trigger]
            m.contains_key(id) && m[id] is Reserved ==> drain_store(q, m, now).contains_key(id)
                && drain_store(q, m, now)[id] == m[id],
    decreases q.len(),
{
    if q.len() == 0 || q[0].1 > now {
    } else {
        let i0 = q[0].0;
        let m1 = m.remove(i0);
        assert forall|id2: u16| #[trigger]
            m1.contains_key(id2) && m1[id2] is Reserved implies !queued(q.drop_first(), id2) by {
            assert(m.contains_key(id2) && m[id2] is Reserved);
            assert(!queued(q, id2));
            if queued(q.drop_first(), id2) {
                let w = choose|i: int|
                    0 <= i < q.drop_first().len() && (#[trigger] q.drop_first()[i]).0 == id2;
                assert(q[w + 1].0 == id2);
                assert(queued(q, id2));
            }
        }
        lemma_drain_keeps_reserved(q.drop_first(), m1, now);
        assert(drain_store(q, m, now) == drain_store(q.drop_first(), m1, now));
        assert forall|id: u16| #[trigger]
            m.contains_key(id) && m[id] is Reserved implies drain_store(q, m, now).contains_key(id)
            && drain_store(q, m, now)[id] == m[id] by {
            assert(!queued(q, id));
            if id == i0 {
                assert(q[0].0 == id);
                assert(queued(q, id));
            }
            assert(m1.contains_key(id) && m1[id] == m[id]);
        }
    }
}

/// Own-deadline law: when no two queued records share a live ID, the
/// record that triggers an ID's failure is the only record that ID has, so
/// every entry is failed against its own deadline — the instant its push
/// appended — and never against a stale incarnation's.
pub proof fn lemma_drain_own_deadline<T>(q: Seq<(u16, u64)>, m: Map<u16, Entry<T>>, now: u64)
    requires
        entry_ids_match(m),
        live_ids_unique(m, q),
    ensures
        forall|jj: int, i: int|
            0 <= jj < drain_pairs(q, m, now).len() && 0 <= i < q.len() && (#[trigger] q[i]).0 == (
            #[trigger] drain_pairs(q, m, now)[jj]).0.id ==> q[i].1 == drain_pairs(q, m, now)[jj].1,
    decreases q.len(),
{
    if q.len() == 0 || q[0].1 > now {
    } else {
        let i0 = q[0].0;
        let m1 = m.remove(i0);
        let qd = q.drop_first();
        let rest = drain_pairs(qd, m1, now);
        assert forall|i: int, j: int|
            0 <= i < j < qd.len() && (#[trigger] qd[i]).0 == (#[trigger] qd[j]).0 implies !m1.contains_key(
            qd[i].0,
        ) by {
            assert(qd[i] == q[i + 1]);
            assert(qd[j] == q[j + 1]);
            assert(!m.contains_key(q[i + 1].0));
        }
        lemma_drain_own_deadline(qd, m1, now);
        lemma_drain_once(qd, m1, now);
        let whole = drain_pairs(q, m, now);
        let off: int = if occupied_at(m, i0) {
            1
        } else {
            0
        };
        assert forall|jj: int, i: int|
            0 <= jj < whole.len() && 0 <= i < q.len() && (#[trigger] q[i]).0 == (
        #[trigger] whole[jj]).0.id implies q[i].1 == whole[jj].1 by {
            if off == 1 && jj == 0 {
                let c0 = cont_of(m[i0]);
                assert(c0.id == i0);
                assert(whole[0] == (c0, q[0].1));
                if i > 0 {
                    assert(!m.contains_key(q[0].0));
                }
                assert(i == 0);
            } else {
                assert(whole[jj] == rest[jj - off]);
                let c = rest[jj - off].0;
                assert(occupied_at(m1, c.id));
                assert(c.id != i0);
                assert(i != 0);
                assert(qd[i - 1].0 == c.id);
                assert(qd[i - 1].1 == rest[jj - off].1);
            }
        }
    }
}

/// Expiry ordering law: on a queue whose deadlines never decrease, the
/// expiry drain fails entries in non-decreasing deadline order, each at or
/// after its own deadline (and so no earlier than its push instant plus the
/// fixed duration), and each yielded pair corresponds to a queued record of
/// its own ID and deadline.
pub proof fn lemma_drain_ordered<T>(q: Seq<(u16, u64)>, m: Map<u16, Entry<T>>, now: u64)
    requires
        deadlines_sorted(q),
        entry_ids_match(m),
    ensures
        forall|j: int| 0 <= j < drain_pairs(q, m, now).len() ==> (#[trigger] drain_pairs(
            q,
            m,
            now,
        )[j]).1 <= now,
        forall|i: int, j: int|
            0 <= i <= j < drain_pairs(q, m, now).len() ==> (#[trigger] drain_pairs(q, m, now)[i]).1
                <= (#[trigger] drain_pairs(q, m, now)[j]).1,
        forall|j: int|
            0 <= j < drain_pairs(q, m, now).len() ==> exists|i: int|
                0 <= i < q.len() && (#[trigger] q[i]) == ((#[trigger] drain_pairs(q, m, now)[j]).0.id, drain_pairs(
                    q,
                    m,
                    now,
                )[j].1),
    decreases q.len(),
{
    if q.len() == 0 || q[0].1 > now {
    } else {
        let i0 = q[0].0;
        let m1 = m.remove(i0);
        let qd = q.drop_first();
        let rest = drain_pairs(qd, m1, now);
        assert forall|i: int, j: int| 0 <= i <= j < qd.len() implies (#[trigger] qd[i]).1 <= (
        #[trigger] qd[j]).1 by {
            assert(qd[i] == q[i + 1]);
            assert(qd[j] == q[j + 1]);
        }
        lemma_drain_ordered(qd, m1, now);
        let whole = drain_pairs(q, m, now);
        assert forall|j: int|
            0 <= j < whole.len() implies exists|i: int|
            0 <= i < q.len() && (#[trigger] q[i]) == ((#[trigger] whole[j]).0.id, whole[j].1) by {
            if occupied_at(m, i0) && j == 0 {
                let c0 = cont_of(m[i0]);
                assert(c0.id == i0);
                assert(q[0] == (whole[0].0.id, whole[0].1));
            } else {
                let jr = if occupied_at(m, i0) {
                    j - 1
                } else {
                    j
                };
                assert(whole[j] == rest[jr]);
                let w = choose|i: int|
                    0 <= i < qd.len() && (#[trigger] qd[i]) == (rest[jr].0.id, rest[jr].1);
                assert(q[w + 1] == qd[w]);
            }
        }
        assert forall|j: int| 0 <= j < whole.len() implies (#[trigger] whole[j]).1 <= now by {
            if !(occupied_at(m, i0) && j == 0) {
                let jr = if occupied_at(m, i0) {
                    j - 1
                } else {
                    j
                };
                assert(whole[j] == rest[jr]);
            }
        }
        assert forall|i: int, j: int| 0 <= i <= j < whole.len() implies (#[trigger] whole[i]).1
            <= (#[trigger] whole[j]).1 by {
            if occupied_at(m, i0) && i == 0 {
                if j > 0 {
                    assert(whole[j] == rest[j - 1]);
                    let w = choose|i2: int|
                        0 <= i2 < qd.len() && (#[trigger] qd[i2]) == (
                        rest[j - 1].0.id,
                        rest[j - 1].1,
                        );
                    assert(qd[w].1 >= q[0].1);
                }
            } else {
                let ir = if occupied_at(m, i0) {
                    i - 1
                } else {
                    i
                };
                let jr = if occupied_at(m, i0) {
                    j - 1
                } else {
                    j
                };
                assert(whole[i] == rest[ir]);
                assert(whole[j] == rest[jr]);
            }
        }
    }
}

/// `out` without the pairs whose continuation carries `id`.
pub open spec fn without_id<T>(out: Seq<(Continuation<T>, u64)>, id: u16) -> Seq<
    (Continuation<T>, u64),
>
    decreases out.len(),
{
    if out.len() == 0 {
        Seq::empty()
    } else {
        let rest = without_id(out.drop_first(), id);
        if out[0].0.id == id {
            rest
        } else {
            seq![out[0]] + rest
        }
    }
}

/// Filtering an ID that no pair carries changes nothing.
proof fn lemma_without_id_absent<T>(out: Seq<(Continuation<T>, u64)>, id: u16)
    requires
        forall|j: int| 0 <= j < out.len() ==> (#[trigger] out[j]).0.id != id,
    ensures
        without_id(out, id) == out,
    decreases out.len(),
{
    if out.len() > 0 {
        assert forall|j: int| 0 <= j < out.drop_first().len() implies (
        #[trigger] out.drop_first()[j]).0.id != id by {
            assert(out.drop_first()[j] == out[j + 1]);
        }
        lemma_without_id_absent(out.drop_first(), id);
        assert(seq![out[0]] + out.drop_first() =~= out);
    }
}

/// Lazy-discard law: removing one ID from the store, as `pop` does, removes
/// exactly that ID's own pair from any later expiry drain.  Every other
/// entry is failed exactly as it would have been — none earlier, none
/// twice — and the store the drain leaves behind differs only by that ID.
pub proof fn lemma_pop_preserves_drain<T>(
    q: Seq<(u16, u64)>,
    m: Map<u16, Entry<T>>,
    now: u64,
    id: u16,
)
    requires
        entry_ids_match(m),
    ensures
        drain_pairs(q, m.remove(id), now) == without_id(drain_pairs(q, m, now), id),
        drain_store(q, m.remove(id), now) == drain_store(q, m, now).remove(id),
    decreases q.len(),
{
    if q.len() == 0 || q[0].1 > now {
        assert(without_id(drain_pairs(q, m, now), id) == drain_pairs(q, m, now));
    } else {
        let i0 = q[0].0;
        let qd = q.drop_first();
        let m1 = m.remove(i0);
        lemma_pop_preserves_drain(qd, m1, now, id);
        assert(m.remove(id).remove(i0) =~= m1.remove(id));
        let rest = drain_pairs(qd, m1, now);
        if i0 == id {
            assert(m.remove(id).remove(i0) =~= m.remove(id));
            assert(!occupied_at(m.remove(id), i0));
            assert(drain_pairs(q, m.remove(id), now) == drain_pairs(qd, m1.remove(id), now));
            assert(m1.remove(id) =~= m.remove(id));
            lemma_drain_once(qd, m1, now);
            assert forall|j: int| 0 <= j < rest.len() implies (#[trigger] rest[j]).0.id != id by {
                assert(occupied_at(m1, rest[j].0.id));
            }
            lemma_without_id_absent(rest, id);
            if occupied_at(m, i0) {
                let c0 = cont_of(m[i0]);
                assert(c0.id == i0);
                let whole = seq![(c0, q[0].1)] + rest;
                assert(drain_pairs(q, m, now) == whole);
                assert(whole[0].0.id == id);
                assert(whole.drop_first() =~= rest);
                assert(without_id(whole, id) == without_id(rest, id));
            } else {
                assert(drain_pairs(q, m, now) == rest);
            }
            assert(drain_store(q, m.remove(id), now) == drain_store(qd, m1.remove(id), now));
            assert(drain_store(q, m, now) == drain_store(qd, m1, now));
        } else {
            assert(occupied_at(m.remove(id), i0) == occupied_at(m, i0));
            if occupied_at(m, i0) {
                let c0 = cont_of(m[i0]);
                assert(c0.id == i0);
                assert(cont_of(m.remove(id)[i0]) == c0);
                let whole = seq![(c0, q[0].1)] + rest;
                assert(drain_pairs(q, m, now) == whole);
                assert(whole[0].0.id != id);
                assert(whole.drop_first() =~= rest);
                assert(without_id(whole, id) == seq![(c0, q[0].1)] + without_id(rest, id));
                assert(drain_pairs(q, m.remove(id), now) == seq![(c0, q[0].1)] + drain_pairs(
                    qd,
                    m.remove(id).remove(i0),
                    now,
                ));
                assert(drain_pairs(qd, m.remove(id).remove(i0), now) == drain_pairs(
                    qd,
                    m1.remove(id),
                    now,
                ));
            } else {
                assert(drain_pairs(q, m, now) == rest);
                assert(drain_pairs(q, m.remove(id), now) == drain_pairs(
                    qd,
                    m1.remove(id),
                    now,
                ));
            }
            assert(drain_store(q, m.remove(id), now) == drain_store(
                qd,
                m.remove(id).remove(i0),
                now,
            ));
            assert(drain_store(qd, m.remove(id).remove(i0), now) == drain_store(
                qd,
                m1.remove(id),
                now,
            ));
            assert(drain_store(q, m, now) == drain_store(qd, m1, now));
        }
    }
}

/// The set of 16-bit values below `n`.
pub open spec fn u16_upto(n: int) -> Set<u16> {
    Set::new(|x: u16| (x as int) < n)
}

/// The set of 16-bit values below `n` has exactly `n` elements.
proof fn lemma_u16_upto_len(n: int)
    requires
        0 <= n <= 0x10000,
    ensures
        u16_upto(n).finite(),
        u16_upto(n).len() == n,
    decreases n,
{
    if n == 0 {
        assert(u16_upto(0) =~= Set::<u16>::empty());
    } else {
        lemma_u16_upto_len(n - 1);
        assert(u16_upto(n) =~= u16_upto(n - 1).insert((n - 1) as u16));
    }
}

/// Inserting a key a finite map does not hold grows its length by one.
proof fn lemma_insert_fresh_len<T>(m: Map<u16, Entry<T>>, id: u16)
    requires
        m.dom().finite(),
        !m.contains_key(id),
    ensures
        m.insert(id, Entry::<T>::Reserved).len() == m.len() + 1,
{
}

/// Relies on `rand::random`: draws one 16-bit value from the thread-local
/// generator, which is seeded from the operating system and unpredictable to
/// a network observer.  Nothing can be promised of the value itself.
#[verifier::external_body]
fn random_id() -> u16 {
    rand::random()
}

} // verus!
