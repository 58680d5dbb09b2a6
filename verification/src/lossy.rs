//! Lossy single-slot notification channels and the fan-out hub.
//!
//! A slot holds at most one pending notification; a newer one overwrites an
//! unread one, so a slow subscriber never applies backpressure. The ghost
//! histories record every value the task sent and every value the subscriber
//! took, and the slot invariant ties them together: what is taken is a
//! subsequence of what was sent, in order and without duplication.

use vstd::prelude::*;

use crate::subseq::is_subseq_map;
use crate::subseq::is_subseq_of;
use crate::subseq::lemma_subseq_push_both;
use crate::subseq::lemma_subseq_take_left;

verus! {

/// One best- or finalized-block notification: the SCALE-encoded header bytes
/// together with the block number they stand for.
pub struct Notification {
    pub number: u64,
    pub scale_encoded_header: Vec<u8>,
}

/// The mathematical value of a [`Notification`].
pub struct NotificationModel {
    pub number: nat,
    pub bytes: Seq<u8>,
}

impl View for Notification {
    type V = NotificationModel;

    open spec fn view(&self) -> NotificationModel {
        NotificationModel { number: self.number as nat, bytes: self.scale_encoded_header@ }
    }
}

/// Byte-for-byte copy of a byte vector.
pub fn copy_bytes(v: &Vec<u8>) -> (r: Vec<u8>)
    ensures
        r@ == v@,
{
    let mut r: Vec<u8> = Vec::new();
    let mut i: usize = 0;
    while i < v.len()
        invariant
            i <= v.len(),
            r@ == v@.take(i as int),
        decreases v.len() - i,
    {
        r.push(v[i]);
        i = i + 1;
        proof {
            assert(v@.take(i as int) == v@.take(i - 1).push(v@[i - 1]));
        }
    }
    proof {
        assert(v@.take(v@.len() as int) == v@);
    }
    r
}

impl Notification {
    /// A copy carrying the same number and the same bytes.
    pub fn duplicate(&self) -> (r: Notification)
        ensures
            r@ == self@,
    {
        Notification { number: self.number, scale_encoded_header: copy_bytes(&self.scale_encoded_header) }
    }
}

/// The block numbers in `s` never decrease.
pub open spec fn numbers_non_decreasing(s: Seq<NotificationModel>) -> bool {
    forall|i: int, j: int| 0 <= i < j < s.len() ==> #[trigger] s[i].number <= #[trigger] s[j].number
}

/// One subscriber's end of a lossy channel: a single overwritable slot.
pub struct LossySlot {
    value: Option<Notification>,
    sent: Ghost<Seq<NotificationModel>>,
    received: Ghost<Seq<NotificationModel>>,
}

impl LossySlot {
    /// Every notification the task has pushed into this slot, oldest first.
    pub closed spec fn sent_history(&self) -> Seq<NotificationModel> {
        self.sent@
    }

    /// Every notification the subscriber has taken out, oldest first.
    pub closed spec fn received_history(&self) -> Seq<NotificationModel> {
        self.received@
    }

    /// The pending notification, as a sequence of length zero or one.
    pub closed spec fn slot_contents(&self) -> Seq<NotificationModel> {
        match self.value {
            Some(n) => seq![n@],
            None => Seq::empty(),
        }
    }

    pub closed spec fn wf(&self) -> bool {
        is_subseq_of(self.received@ + self.slot_contents(), self.sent@)
    }

    pub fn new() -> (r: LossySlot)
        ensures
            r.wf(),
            r.sent_history() == Seq::<NotificationModel>::empty(),
            r.received_history() == Seq::<NotificationModel>::empty(),
            r.slot_contents() == Seq::<NotificationModel>::empty(),
    {
        let r = LossySlot { value: None, sent: Ghost(Seq::empty()), received: Ghost(Seq::empty()) };
        proof {
            let m = Seq::<int>::empty();
            assert(is_subseq_map(m, r.received@ + r.slot_contents(), r.sent@));
        }
        r
    }

    /// Push a notification, overwriting an unread one.
    pub fn send(&mut self, n: Notification)
        requires
            old(self).wf(),
        ensures
            final(self).wf(),
            final(self).sent_history() == old(self).sent_history().push(n@),
            final(self).received_history() == old(self).received_history(),
            final(self).slot_contents() == seq![n@],
    {
        proof {
            let received = self.received@;
            let sent = self.sent@;
            lemma_subseq_take_left(received + self.slot_contents(), sent, received.len() as int);
            assert((received + self.slot_contents()).take(received.len() as int) =~= received);
            lemma_subseq_push_both(received, sent, n@);
            assert(received.push(n@) =~= received + seq![n@]);
        }
        let ghost new_sent = self.sent@.push(n@);
        self.value = Some(n);
        self.sent = Ghost(new_sent);
    }

    /// Take the pending notification out, if one is waiting.
    pub fn take(&mut self) -> (r: Option<Notification>)
        requires
            old(self).wf(),
        ensures
            final(self).wf(),
            final(self).sent_history() == old(self).sent_history(),
            final(self).slot_contents() == Seq::<NotificationModel>::empty(),
            match r {
                Some(n) => old(self).slot_contents() == seq![n@]
                    && final(self).received_history() == old(self).received_history().push(n@),
                None => old(self).slot_contents() == Seq::<NotificationModel>::empty()
                    && final(self).received_history() == old(self).received_history(),
            },
    {
        let r = self.value.take();
        match &r {
            Some(n) => {
                proof {
                    assert(self.received@.push(n@) + Seq::<NotificationModel>::empty()
                        =~= self.received@ + old(self).slot_contents());
                }
                self.received = Ghost(self.received@.push(n@));
            },
            None => {
                proof {
                    assert(self.received@ + Seq::<NotificationModel>::empty()
                        =~= self.received@ + old(self).slot_contents());
                }
            },
        }
        r
    }

    /// Law: what a subscriber receives is a subsequence of what the task
    /// sent, in sending order and without duplication.
    pub proof fn received_is_subsequence_of_sent(&self)
        requires
            self.wf(),
        ensures
            is_subseq_of(self.received_history(), self.sent_history()),
    {
        let combined = self.received@ + self.slot_contents();
        lemma_subseq_take_left(combined, self.sent@, self.received@.len() as int);
        assert(combined.take(self.received@.len() as int) =~= self.received@);
    }
}

/// Law: a subsequence of a non-decreasing notification sequence is itself
/// non-decreasing.
pub proof fn lemma_subseq_preserves_non_decreasing(a: Seq<NotificationModel>, b: Seq<NotificationModel>)
    requires
        is_subseq_of(a, b),
        numbers_non_decreasing(b),
    ensures
        numbers_non_decreasing(a),
{
    let m = choose|m: Seq<int>| is_subseq_map(m, a, b);
    assert forall|i: int, j: int| 0 <= i < j < a.len() implies #[trigger] a[i].number <= #[trigger] a[j].number by {
        assert(m[i] < m[j]);
        assert(a[i] == b[m[i]]);
        assert(a[j] == b[m[j]]);
    }
}

/// An ordered registry of lossy channels fed with the same notifications.
pub struct NotificationHub {
    slots: Vec<LossySlot>,
    last_number: Option<u64>,
}

impl NotificationHub {
    pub closed spec fn slots_seq(&self) -> Seq<LossySlot> {
        self.slots@
    }

    pub open spec fn subscriber_count(&self) -> int {
        self.slots_seq().len() as int
    }

    /// The number carried by the most recent broadcast, if there was one.
    pub closed spec fn last_broadcast_number(&self) -> Option<u64> {
        self.last_number
    }

    pub closed spec fn wf(&self) -> bool {
        &&& forall|i: int| 0 <= i < self.slots@.len() ==> (#[trigger] self.slots@[i]).wf()
        &&& forall|i: int| 0 <= i < self.slots@.len()
            ==> numbers_non_decreasing((#[trigger] self.slots@[i]).sent_history())
        &&& forall|i: int| 0 <= i < self.slots@.len()
            ==> ((#[trigger] self.slots@[i]).sent_history().len() > 0
                ==> (self.last_number matches Some(m)
                    && self.slots@[i].sent_history().last().number <= m as nat))
    }

    pub fn new() -> (r: NotificationHub)
        ensures
            r.wf(),
            r.subscriber_count() == 0,
            r.last_broadcast_number() is None,
    {
        NotificationHub { slots: Vec::new(), last_number: None }
    }

    /// Register a new subscriber; returns its index in the registry.
    pub fn subscribe(&mut self) -> (idx: usize)
        requires
            old(self).wf(),
        ensures
            final(self).wf(),
            idx as int == old(self).subscriber_count(),
            final(self).subscriber_count() == old(self).subscriber_count() + 1,
            final(self).slots_seq()[idx as int].sent_history() == Seq::<NotificationModel>::empty(),
            final(self).slots_seq()[idx as int].received_history() == Seq::<NotificationModel>::empty(),
            final(self).slots_seq()[idx as int].slot_contents() == Seq::<NotificationModel>::empty(),
            forall|i: int| 0 <= i < old(self).subscriber_count()
                ==> final(self).slots_seq()[i] == old(self).slots_seq()[i],
            final(self).last_broadcast_number() == old(self).last_broadcast_number(),
    {
        let idx = self.slots.len();
        self.slots.push(LossySlot::new());
        idx
    }

    /// Push one notification to every subscriber.
    pub fn broadcast(&mut self, n: &Notification)
        requires
            old(self).wf(),
            old(self).last_broadcast_number() matches Some(m) ==> n.number >= m,
        ensures
            final(self).wf(),
            final(self).subscriber_count() == old(self).subscriber_count(),
            final(self).last_broadcast_number() == Some(n.number),
            forall|i: int| 0 <= i < old(self).subscriber_count()
                ==> (#[trigger] final(self).slots_seq()[i]).sent_history()
                    == old(self).slots_seq()[i].sent_history().push(n@),
            forall|i: int| 0 <= i < old(self).subscriber_count()
                ==> (#[trigger] final(self).slots_seq()[i]).received_history()
                    == old(self).slots_seq()[i].received_history(),
            forall|i: int| 0 <= i < old(self).subscriber_count()
                ==> (#[trigger] final(self).slots_seq()[i]).slot_contents() == seq![n@],
    {
        let mut i: usize = 0;
        while i < self.slots.len()
            invariant
                i <= self.slots.len(),
                self.slots@.len() == old(self).slots@.len(),
                self.last_number == old(self).last_number,
                old(self).wf(),
                old(self).last_broadcast_number() matches Some(m) ==> n.number >= m,
                forall|j: int| 0 <= j < i as int
                    ==> (#[trigger] self.slots@[j]).sent_history()
                        == old(self).slots@[j].sent_history().push(n@),
                forall|j: int| 0 <= j < i as int
                    ==> (#[trigger] self.slots@[j]).received_history()
                        == old(self).slots@[j].received_history(),
                forall|j: int| 0 <= j < i as int
                    ==> (#[trigger] self.slots@[j]).slot_contents() == seq![n@],
                forall|j: int| 0 <= j < i as int ==> (#[trigger] self.slots@[j]).wf(),
                forall|j: int| i as int <= j < self.slots@.len()
                    ==> #[trigger] self.slots@[j] == old(self).slots@[j],
            decreases self.slots.len() - i,
        {
            let copy = n.duplicate();
            let slot = &mut self.slots[i];
            slot.send(copy);
            i = i + 1;
        }
        self.last_number = Some(n.number);
        proof {
            assert forall|j: int| 0 <= j < final(self).slots@.len()
                implies numbers_non_decreasing((#[trigger] final(self).slots@[j]).sent_history()) by {
                let olds = old(self).slots@[j].sent_history();
                let news = final(self).slots@[j].sent_history();
                assert(news == olds.push(n@));
                assert forall|p: int, q: int| 0 <= p < q < news.len()
                    implies #[trigger] news[p].number <= #[trigger] news[q].number by {
                    if q < olds.len() as int {
                        assert(olds[p].number <= olds[q].number);
                    } else {
                        assert(news[q] == n@);
                        if p < olds.len() as int {
                            assert(olds.last().number <= n.number as nat);
                            assert(olds[p].number <= olds[olds.len() - 1].number);
                        }
                    }
                }
            }
        }
    }

    /// Take the pending notification of subscriber `idx`, if any.
    pub fn take(&mut self, idx: usize) -> (r: Option<Notification>)
        requires
            old(self).wf(),
            (idx as int) < old(self).subscriber_count(),
        ensures
            final(self).wf(),
            final(self).subscriber_count() == old(self).subscriber_count(),
            final(self).last_broadcast_number() == old(self).last_broadcast_number(),
            final(self).slots_seq()[idx as int].sent_history()
                == old(self).slots_seq()[idx as int].sent_history(),
            final(self).slots_seq()[idx as int].slot_contents()
                == Seq::<NotificationModel>::empty(),
            forall|i: int| 0 <= i < old(self).subscriber_count() && i != idx as int
                ==> final(self).slots_seq()[i] == old(self).slots_seq()[i],
            match r {
                Some(n) => old(self).slots_seq()[idx as int].slot_contents() == seq![n@]
                    && final(self).slots_seq()[idx as int].received_history()
                    == old(self).slots_seq()[idx as int].received_history().push(n@),
                None => old(self).slots_seq()[idx as int].slot_contents()
                    == Seq::<NotificationModel>::empty()
                    && final(self).slots_seq()[idx as int].received_history()
                    == old(self).slots_seq()[idx as int].received_history(),
            },
    {
        let slot = &mut self.slots[idx];
        slot.take()
    }

    /// Law: every subscriber observes block numbers in non-decreasing order.
    pub proof fn notifications_monotone(&self, i: int)
        requires
            self.wf(),
            0 <= i < self.subscriber_count(),
        ensures
            numbers_non_decreasing(self.slots_seq()[i].received_history()),
    {
        let slot = self.slots@[i];
        slot.received_is_subsequence_of_sent();
        lemma_subseq_preserves_non_decreasing(slot.received_history(), slot.sent_history());
    }
}

} // verus!
