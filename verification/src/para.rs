//! Bookkeeping core of the parachain sync task.
//!
//! For every new relay-chain best block the shell calls the relay runtime's
//! validation-data entry point and hands the resulting head data to
//! [`ParaCore::on_head_data`]. The core hashes the head data with
//! BLAKE2b-256 and suppresses the update when the hash equals the stored one,
//! so no two consecutive notifications carry identical head bytes (the hash
//! is cleared by a failed runtime call, and an undecodable head updates it
//! without notifying: right after either, a repeated head is not suppressed).

use vstd::prelude::*;

use crate::codec::decode_header;
use crate::codec::spec_header_decode;
use crate::hashing::blake2b_256;
use crate::hashing::blake2b_256_of;
use crate::lossy::Notification;
use crate::lossy::NotificationHub;
use crate::lossy::NotificationModel;
use crate::lossy::copy_bytes;
use crate::lossy::numbers_non_decreasing;

verus! {

/// What [`ParaCore::on_head_data`] did with a head-data value.
pub enum HeadOutcome {
    /// The head data hashes to the stored digest: nothing changed.
    Duplicate,
    /// The head data is not a SCALE block header: the digest was updated but
    /// nothing was published (such parachains are not supported).
    NotAHeader,
    /// A new best block was recorded and pushed to every subscriber.
    Notified,
}

/// The parachain sync task's state.
pub struct ParaCore {
    current_best_number: u64,
    current_best_header: Vec<u8>,
    current_finalized_header: Vec<u8>,
    best_hub: NotificationHub,
    previous_best_head_hash: Option<Vec<u8>>,
    hashed_input: Ghost<Option<Seq<u8>>>,
}

impl ParaCore {
    // -- models --

    /// The registry of best-block subscribers.
    pub closed spec fn best_hub(&self) -> NotificationHub {
        self.best_hub
    }

    pub closed spec fn current_best_number_spec(&self) -> u64 {
        self.current_best_number
    }

    pub closed spec fn current_best_header_spec(&self) -> Seq<u8> {
        self.current_best_header@
    }

    pub closed spec fn current_finalized_header_spec(&self) -> Seq<u8> {
        self.current_finalized_header@
    }

    /// The stored BLAKE2b-256 digest of the most recent head data.
    pub closed spec fn head_hash(&self) -> Option<Seq<u8>> {
        match self.previous_best_head_hash {
            Some(h) => Some(h@),
            None => None,
        }
    }

    /// The head-data bytes the stored digest was computed from.
    pub closed spec fn hashed_head(&self) -> Option<Seq<u8>> {
        self.hashed_input@
    }

    pub closed spec fn wf(&self) -> bool {
        &&& self.best_hub.wf()
        &&& match (self.previous_best_head_hash, self.hashed_input@) {
            (Some(h), Some(b)) => h@ == blake2b_256_of(b),
            (None, None) => true,
            _ => false,
        }
        &&& (self.best_hub.last_broadcast_number() matches Some(m) ==> m
            == self.current_best_number)
    }

    // -- construction --

    /// A parachain core whose best and finalized blocks both start at the
    /// chain's finalized block.
    pub fn new(finalized_header: Vec<u8>, finalized_number: u64) -> (r: ParaCore)
        ensures
            r.wf(),
            r.current_best_number_spec() == finalized_number,
            r.current_best_header_spec() == finalized_header@,
            r.current_finalized_header_spec() == finalized_header@,
            r.head_hash() is None,
            r.best_hub().subscriber_count() == 0,
    {
        let best = copy_bytes(&finalized_header);
        ParaCore {
            current_best_number: finalized_number,
            current_best_header: best,
            current_finalized_header: finalized_header,
            best_hub: NotificationHub::new(),
            previous_best_head_hash: None,
            hashed_input: Ghost(None),
        }
    }

    // -- the head-derivation step --

    /// Fold in the head data extracted from one new relay-chain best block.
    ///
    /// Law (duplicate suppression): when the stored digest is present, a
    /// notification is published only for head bytes that differ from the
    /// bytes the digest was computed from — no two consecutive best
    /// notifications carry identical head data.
    pub fn on_head_data(&mut self, head_data: Vec<u8>) -> (r: HeadOutcome)
        requires
            old(self).wf(),
            // relay-derived heads never regress; this carries the
            // notification-monotonicity guarantee through the hub
            match spec_header_decode(head_data@) {
                Some(h) => h.number >= old(self).current_best_number_spec(),
                None => true,
            },
        ensures
            final(self).wf(),
            final(self).best_hub().subscriber_count() == old(self).best_hub().subscriber_count(),
            final(self).current_finalized_header_spec() == old(
                self,
            ).current_finalized_header_spec(),
            match r {
                HeadOutcome::Duplicate => {
                    &&& (old(self).hashed_head() matches Some(b) && blake2b_256_of(b)
                        == blake2b_256_of(head_data@))
                    &&& *final(self) == *old(self)
                },
                HeadOutcome::NotAHeader => {
                    &&& spec_header_decode(head_data@) is None
                    &&& final(self).hashed_head() == Some(head_data@)
                    &&& final(self).head_hash() == Some(blake2b_256_of(head_data@))
                    &&& final(self).current_best_number_spec() == old(
                        self,
                    ).current_best_number_spec()
                    &&& final(self).current_best_header_spec() == old(
                        self,
                    ).current_best_header_spec()
                    &&& final(self).best_hub() == old(self).best_hub()
                },
                HeadOutcome::Notified => {
                    let h = spec_header_decode(head_data@).unwrap();
                    &&& spec_header_decode(head_data@) is Some
                    &&& final(self).hashed_head() == Some(head_data@)
                    &&& final(self).head_hash() == Some(blake2b_256_of(head_data@))
                    &&& final(self).current_best_number_spec() == h.number
                    &&& final(self).current_best_header_spec() == head_data@
                    // every subscriber was sent exactly this notification,
                    // and it is now pending in every slot
                    &&& forall|i: int|
                        0 <= i < old(self).best_hub().subscriber_count()
                            ==> (#[trigger] final(self).best_hub().slots_seq()[i]).sent_history()
                            == old(self).best_hub().slots_seq()[i].sent_history().push(
                            NotificationModel { number: h.number as nat, bytes: head_data@ },
                        )
                    &&& forall|i: int|
                        0 <= i < old(self).best_hub().subscriber_count()
                            ==> (#[trigger] final(self).best_hub().slots_seq()[i]).slot_contents()
                            == seq![NotificationModel { number: h.number as nat, bytes: head_data@ }]
                    // duplicate suppression
                    &&& (old(self).hashed_head() matches Some(b) ==> head_data@ != b)
                },
            },
    {
        let hash = blake2b_256(&head_data);
        let duplicate = match &self.previous_best_head_hash {
            Some(prev) => bytes_eq(prev, &hash),
            None => false,
        };
        if duplicate {
            return HeadOutcome::Duplicate;
        }
        self.previous_best_head_hash = Some(hash);
        self.hashed_input = Ghost(Some(head_data@));
        match decode_header(&head_data) {
            Some(header) => {
                let number = header.number;
                let notification = Notification { number, scale_encoded_header: head_data };
                self.best_hub.broadcast(&notification);
                self.current_best_number = number;
                self.current_best_header = notification.scale_encoded_header;
                proof {
                    // equal bytes would have hashed equal and been suppressed
                    match old(self).hashed_head() {
                        Some(b) => {
                            assert(blake2b_256_of(b) != blake2b_256_of(head_data@));
                        },
                        None => {},
                    }
                }
                HeadOutcome::Notified
            },
            None => HeadOutcome::NotAHeader,
        }
    }

    /// A validation-data runtime call failed: forget the stored digest, so
    /// the next head is treated as new. Returns whether the failure is
    /// network-caused and so only worth a low-severity log line.
    pub fn on_call_failed(&mut self, is_network_problem: bool) -> (log_quietly: bool)
        requires
            old(self).wf(),
        ensures
            final(self).wf(),
            log_quietly == is_network_problem,
            final(self).head_hash() is None,
            final(self).hashed_head() is None,
            final(self).current_best_number_spec() == old(self).current_best_number_spec(),
            final(self).current_best_header_spec() == old(self).current_best_header_spec(),
            final(self).current_finalized_header_spec() == old(
                self,
            ).current_finalized_header_spec(),
            final(self).best_hub() == old(self).best_hub(),
    {
        self.previous_best_head_hash = None;
        self.hashed_input = Ghost(None);
        is_network_problem
    }

    // -- the foreground facade --

    /// Whether the task believes it is near the head of the chain: true once
    /// head data has been obtained at least once since the last failure.
    pub fn is_near_head_of_chain_heuristic(&self) -> (r: bool)
        ensures
            r == (self.head_hash() is Some),
    {
        match &self.previous_best_head_hash {
            Some(_) => true,
            None => false,
        }
    }

    /// Register a best-block subscriber: returns the current best header and
    /// the subscriber's index.
    pub fn subscribe_best(&mut self) -> (r: (Vec<u8>, usize))
        requires
            old(self).wf(),
        ensures
            final(self).wf(),
            r.0@ == old(self).current_best_header_spec(),
            r.1 as int == old(self).best_hub().subscriber_count(),
            final(self).best_hub().subscriber_count() == old(self).best_hub().subscriber_count()
                + 1,
            final(self).current_best_number_spec() == old(self).current_best_number_spec(),
            final(self).current_best_header_spec() == old(self).current_best_header_spec(),
            final(self).head_hash() == old(self).head_hash(),
            final(self).hashed_head() == old(self).hashed_head(),
    {
        let current = copy_bytes(&self.current_best_header);
        let idx = self.best_hub.subscribe();
        (current, idx)
    }

    /// The current finalized header, for a finalized-block subscriber.
    /// Parachain finality is not derived, so no updates ever follow.
    pub fn subscribe_finalized(&self) -> (r: Vec<u8>)
        ensures
            r@ == self.current_finalized_header_spec(),
    {
        copy_bytes(&self.current_finalized_header)
    }

    /// Take the pending notification of best-block subscriber `idx`.
    pub fn take_best_notification(&mut self, idx: usize) -> (r: Option<Notification>)
        requires
            old(self).wf(),
            (idx as int) < old(self).best_hub().subscriber_count(),
        ensures
            final(self).wf(),
            final(self).best_hub().subscriber_count() == old(self).best_hub().subscriber_count(),
            final(self).current_best_number_spec() == old(self).current_best_number_spec(),
            final(self).current_best_header_spec() == old(self).current_best_header_spec(),
            final(self).head_hash() == old(self).head_hash(),
            final(self).hashed_head() == old(self).hashed_head(),
            match r {
                Some(n) => old(self).best_hub().slots_seq()[idx as int].slot_contents() == seq![n@]
                    && final(self).best_hub().slots_seq()[idx as int].received_history() == old(
                    self,
                ).best_hub().slots_seq()[idx as int].received_history().push(n@),
                None => old(self).best_hub().slots_seq()[idx as int].slot_contents()
                    == Seq::<NotificationModel>::empty()
                    && final(self).best_hub().slots_seq()[idx as int].received_history() == old(
                    self,
                ).best_hub().slots_seq()[idx as int].received_history(),
            },
    {
        self.best_hub.take(idx)
    }

    /// The stored head-data digest, for inspection.
    pub fn best_head_hash(&self) -> (r: Option<Vec<u8>>)
        ensures
            match r {
                Some(h) => self.head_hash() == Some(h@),
                None => self.head_hash() is None,
            },
    {
        match &self.previous_best_head_hash {
            Some(h) => Some(copy_bytes(h)),
            None => None,
        }
    }

    pub fn current_best_number(&self) -> (r: u64)
        ensures
            r == self.current_best_number_spec(),
    {
        self.current_best_number
    }

    /// Law: every subscriber observes parachain best-block numbers in
    /// non-decreasing order.
    pub proof fn subscriber_monotone(&self, i: int)
        requires
            self.wf(),
            0 <= i < self.best_hub().subscriber_count(),
        ensures
            numbers_non_decreasing(self.best_hub().slots_seq()[i].received_history()),
    {
        self.best_hub.notifications_monotone(i);
    }
}

/// Byte-for-byte equality of two byte vectors.
fn bytes_eq(a: &Vec<u8>, b: &Vec<u8>) -> (r: bool)
    ensures
        r == (a@ == b@),
{
    if a.len() != b.len() {
        proof {
            assert(a@ != b@);
        }
        return false;
    }
    let mut i: usize = 0;
    while i < a.len()
        invariant
            a@.len() == b@.len(),
            i <= a@.len(),
            forall|j: int| 0 <= j < i as int ==> a@[j] == b@[j],
        decreases a@.len() - i,
    {
        if a[i] != b[i] {
            return false;
        }
        i = i + 1;
    }
    proof {
        assert(a@ =~= b@);
    }
    true
}

} // verus!
