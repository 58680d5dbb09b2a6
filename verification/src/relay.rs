//! Bookkeeping core of the relay-chain sync task.
//!
//! The sync state machine (owned by the asynchronous shell) emits actions:
//! start a network request against one of its sources, or cancel a request it
//! no longer wants. [`RelayCore`] owns the task-side tables those actions are
//! checked against: the `peer -> source` map, the queue of actions not yet
//! acted on, and the pending-request table mapping every in-flight request id
//! to the peer it was sent to and the handle that cancels it.
//!
//! The shell must drain the action queue (through [`RelayCore::dispatch_next`])
//! before it hands the core any event that can remove a source; the event
//! entry points require an empty queue, which is exactly the ordering rule
//! that keeps the source ids inside queued actions alive.

use vstd::prelude::*;

use futures::future::AbortHandle;

verus! {

// ---------------------------------------------------------------------------
// Actions emitted by the sync state machine, and the network requests they
// are turned into.
// ---------------------------------------------------------------------------

/// Where a blocks request starts.
pub enum FirstBlock {
    Hash(Vec<u8>),
    Number(u64),
}

/// Detail of a blocks request as the state machine words it.
pub struct BlocksDetail {
    pub first: FirstBlock,
    pub ascending: bool,
    /// Number of blocks wanted; at least one.
    pub num_blocks: u64,
    pub request_headers: bool,
    pub request_bodies: bool,
    pub request_justification: bool,
}

/// What an emitted request asks for.
pub enum RequestDetail {
    Blocks(BlocksDetail),
    WarpSync { start_block_hash: Vec<u8> },
    StorageGet { block_hash: Vec<u8>, state_trie_root: Vec<u8>, keys: Vec<Vec<u8>> },
}

/// An instruction emitted by the sync state machine.
pub enum Action {
    Start { source_id: u64, request_id: u64, detail: RequestDetail },
    Cancel { request_id: u64 },
}

pub open spec fn is_start(a: Action) -> bool {
    a matches Action::Start { .. }
}

pub open spec fn action_request_id(a: Action) -> u64 {
    match a {
        Action::Start { request_id, .. } => request_id,
        Action::Cancel { request_id } => request_id,
    }
}

pub open spec fn start_source_id(a: Action) -> u64 {
    match a {
        Action::Start { source_id, .. } => source_id,
        Action::Cancel { .. } => arbitrary(),
    }
}

pub open spec fn start_detail(a: Action) -> RequestDetail {
    match a {
        Action::Start { detail, .. } => detail,
        Action::Cancel { .. } => arbitrary(),
    }
}

/// Some action in `s` starts the request `id`.
pub open spec fn queued_start(s: Seq<Action>, id: u64) -> bool {
    exists|i: int| 0 <= i < s.len() && is_start(#[trigger] s[i]) && action_request_id(s[i]) == id
}

/// Some action in `s` cancels the request `id`.
pub open spec fn queued_cancel(s: Seq<Action>, id: u64) -> bool {
    exists|i: int| 0 <= i < s.len() && !is_start(#[trigger] s[i]) && action_request_id(s[i]) == id
}

pub open spec fn queued_any(s: Seq<Action>, id: u64) -> bool {
    queued_start(s, id) || queued_cancel(s, id)
}

/// A blocks request as handed to the network layer: the count is clamped to
/// what the wire format carries.
pub struct NetBlocksRequest {
    pub start: FirstBlock,
    pub desired_count: u32,
    pub ascending: bool,
    pub request_headers: bool,
    pub request_bodies: bool,
    pub request_justification: bool,
}

/// A network request ready to be dispatched to a peer.
pub enum NetRequest {
    Blocks(NetBlocksRequest),
    WarpSync { start_block_hash: Vec<u8> },
    StorageProof { block_hash: Vec<u8>, state_trie_root: Vec<u8>, keys: Vec<Vec<u8>> },
}

pub open spec fn spec_clamp_u32(n: u64) -> u32 {
    if n > u32::MAX as u64 {
        u32::MAX
    } else {
        n as u32
    }
}

/// The network request that a request detail is converted into.
pub open spec fn net_request_of(d: RequestDetail) -> NetRequest {
    match d {
        RequestDetail::Blocks(b) => NetRequest::Blocks(
            NetBlocksRequest {
                start: b.first,
                desired_count: spec_clamp_u32(b.num_blocks),
                ascending: b.ascending,
                request_headers: b.request_headers,
                request_bodies: b.request_bodies,
                request_justification: b.request_justification,
            },
        ),
        RequestDetail::WarpSync { start_block_hash } => NetRequest::WarpSync { start_block_hash },
        RequestDetail::StorageGet { block_hash, state_trie_root, keys } => NetRequest::StorageProof {
            block_hash,
            state_trie_root,
            keys,
        },
    }
}

fn to_net_request(d: RequestDetail) -> (r: NetRequest)
    ensures
        r == net_request_of(d),
{
    match d {
        RequestDetail::Blocks(b) => {
            let desired_count: u32 = if b.num_blocks > u32::MAX as u64 {
                u32::MAX
            } else {
                b.num_blocks as u32
            };
            NetRequest::Blocks(
                NetBlocksRequest {
                    start: b.first,
                    desired_count,
                    ascending: b.ascending,
                    request_headers: b.request_headers,
                    request_bodies: b.request_bodies,
                    request_justification: b.request_justification,
                },
            )
        },
        RequestDetail::WarpSync { start_block_hash } => NetRequest::WarpSync { start_block_hash },
        RequestDetail::StorageGet { block_hash, state_trie_root, keys } => NetRequest::StorageProof {
            block_hash,
            state_trie_root,
            keys,
        },
    }
}

/// What [`RelayCore::dispatch_next`] asks the shell to do.
pub enum DispatchOutcome {
    /// Send `request` to `peer`; its cancellation handle is now registered
    /// under `request_id`.
    Started { request_id: u64, peer: u64, request: NetRequest },
    /// The pending request `request_id` was aborted and unregistered.
    Cancelled { request_id: u64 },
    /// The action queue is empty.
    Drained,
}

// ---------------------------------------------------------------------------
// The core state.
// ---------------------------------------------------------------------------

/// One connected peer and the source id the state machine knows it by.
#[derive(Clone, Copy)]
pub struct PeerEntry {
    pub peer: u64,
    pub source: u64,
}

/// One in-flight network request: its id, the peer serving it, and the
/// handle that aborts it.
pub struct PendingRequest {
    pub request_id: u64,
    pub peer: u64,
    handle: AbortHandle,
}

pub open spec fn model_has_id(m: Seq<(u64, u64)>, id: u64) -> bool {
    exists|i: int| 0 <= i < m.len() && (#[trigger] m[i]).0 == id
}

pub open spec fn model_has_entry(m: Seq<(u64, u64)>, id: u64, peer: u64) -> bool {
    exists|i: int| 0 <= i < m.len() && (#[trigger] m[i]).0 == id && m[i].1 == peer
}

spec fn pseq_has_entry(s: Seq<PendingRequest>, id: u64, peer: u64) -> bool {
    exists|i: int| 0 <= i < s.len() && (#[trigger] s[i]).request_id == id && s[i].peer == peer
}

proof fn lemma_model_entry_equiv(s: Seq<PendingRequest>, id: u64, p: u64)
    ensures
        model_has_entry(s.map_values(|q: PendingRequest| (q.request_id, q.peer)), id, p)
            == pseq_has_entry(s, id, p),
{
    let m = s.map_values(|q: PendingRequest| (q.request_id, q.peer));
    if model_has_entry(m, id, p) {
        let k = choose|k: int| 0 <= k < m.len() && (#[trigger] m[k]).0 == id && m[k].1 == p;
        assert(s[k].request_id == id && s[k].peer == p);
    }
    if pseq_has_entry(s, id, p) {
        let k = choose|k: int|
            0 <= k < s.len() && (#[trigger] s[k]).request_id == id && s[k].peer == p;
        assert(m[k] == (id, p));
    }
}

/// The relay sync task's bookkeeping state.
pub struct RelayCore {
    peers: Vec<PeerEntry>,
    pending: Vec<PendingRequest>,
    actions: Vec<Action>,
    has_new_best: bool,
    has_new_finalized: bool,
    outstanding: Ghost<Set<u64>>,
}

impl RelayCore {
    // -- models --

    /// The `peer -> source` map, as a sequence of entries.
    pub closed spec fn peers_model(&self) -> Seq<PeerEntry> {
        self.peers@
    }

    /// The pending-request table as `(request id, peer)` pairs.
    pub closed spec fn pending_model(&self) -> Seq<(u64, u64)> {
        self.pending@.map_values(|p: PendingRequest| (p.request_id, p.peer))
    }

    /// The queued actions, oldest first.
    pub closed spec fn actions_queue(&self) -> Seq<Action> {
        self.actions@
    }

    /// The set of request ids the sync state machine considers outstanding:
    /// emitted in a start action and not yet completed or cancelled.
    pub closed spec fn outstanding(&self) -> Set<u64> {
        self.outstanding@
    }

    pub closed spec fn has_new_best_flag(&self) -> bool {
        self.has_new_best
    }

    pub closed spec fn has_new_finalized_flag(&self) -> bool {
        self.has_new_finalized
    }

    pub open spec fn has_peer(&self, peer: u64) -> bool {
        exists|i: int|
            0 <= i < self.peers_model().len() && (#[trigger] self.peers_model()[i]).peer == peer
    }

    pub open spec fn has_source(&self, source: u64) -> bool {
        exists|i: int|
            0 <= i < self.peers_model().len() && (#[trigger] self.peers_model()[i]).source == source
    }

    pub open spec fn maps_source_to(&self, source: u64, peer: u64) -> bool {
        exists|i: int|
            0 <= i < self.peers_model().len() && (#[trigger] self.peers_model()[i]).source == source
                && self.peers_model()[i].peer == peer
    }

    pub open spec fn pending_has(&self, id: u64) -> bool {
        model_has_id(self.pending_model(), id)
    }

    pub open spec fn pending_entry(&self, id: u64, peer: u64) -> bool {
        model_has_entry(self.pending_model(), id, peer)
    }

    // -- invariant --

    spec fn peers_wf(&self) -> bool {
        forall|i: int, j: int|
            0 <= i < j < self.peers@.len() ==> (#[trigger] self.peers@[i]).peer != (
            #[trigger] self.peers@[j]).peer && self.peers@[i].source != self.peers@[j].source
    }

    spec fn pending_unique(&self) -> bool {
        forall|i: int, j: int|
            0 <= i < j < self.pending@.len() ==> (#[trigger] self.pending@[i]).request_id != (
            #[trigger] self.pending@[j]).request_id
    }

    spec fn pending_peers_live(&self) -> bool {
        forall|i: int|
            0 <= i < self.pending@.len() ==> self.has_peer((#[trigger] self.pending@[i]).peer)
    }

    spec fn actions_wf(&self) -> bool {
        &&& forall|i: int|
            0 <= i < self.actions@.len() && is_start(#[trigger] self.actions@[i])
                ==> self.has_source(start_source_id(self.actions@[i]))
        &&& forall|i: int|
            0 <= i < self.actions@.len() && is_start(#[trigger] self.actions@[i])
                ==> !self.pending_has(action_request_id(self.actions@[i]))
        &&& forall|i: int|
            0 <= i < self.actions@.len() && !is_start(#[trigger] self.actions@[i])
                ==> self.pending_has(action_request_id(self.actions@[i]))
        &&& forall|i: int, j: int|
            0 <= i < j < self.actions@.len() ==> action_request_id(#[trigger] self.actions@[i])
                != action_request_id(#[trigger] self.actions@[j])
    }

    spec fn outstanding_wf(&self) -> bool {
        forall|id: u64|
            #[trigger] self.outstanding@.contains(id) <==> ((self.pending_has(id) && !queued_cancel(
                self.actions@,
                id,
            )) || queued_start(self.actions@, id))
    }

    pub closed spec fn wf(&self) -> bool {
        &&& self.peers_wf()
        &&& self.pending_unique()
        &&& self.pending_peers_live()
        &&& self.actions_wf()
        &&& self.outstanding_wf()
    }

    // -- the event contract the state machine is held to --

    /// The request-id conditions under which a batch of actions may come out
    /// of the state machine: start ids are fresh, cancel ids refer to a
    /// dispatched and not yet cancelled request, and ids never repeat.
    pub open spec fn ids_admissible(&self, new: Seq<Action>) -> bool {
        &&& forall|i: int|
            0 <= i < new.len() && is_start(#[trigger] new[i]) ==> !self.outstanding().contains(
                action_request_id(new[i]),
            ) && !self.pending_has(action_request_id(new[i])) && !queued_any(
                self.actions_queue(),
                action_request_id(new[i]),
            )
        &&& forall|i: int|
            0 <= i < new.len() && !is_start(#[trigger] new[i]) ==> self.pending_has(
                action_request_id(new[i]),
            ) && !queued_any(self.actions_queue(), action_request_id(new[i]))
        &&& forall|i: int, j: int|
            0 <= i < j < new.len() ==> action_request_id(#[trigger] new[i]) != action_request_id(
                #[trigger] new[j],
            )
    }

    /// [`RelayCore::ids_admissible`] plus liveness of every started source.
    pub open spec fn may_enqueue(&self, new: Seq<Action>) -> bool {
        &&& self.ids_admissible(new)
        &&& forall|i: int|
            0 <= i < new.len() && is_start(#[trigger] new[i]) ==> self.has_source(
                start_source_id(new[i]),
            )
    }

    // -- transfer lemmas between states with equal fields --

    proof fn same_peer_views(&self, b: &RelayCore)
        requires
            self.peers@ == b.peers@,
        ensures
            self.peers_model() == b.peers_model(),
            forall|p: u64| #[trigger] self.has_peer(p) == b.has_peer(p),
            forall|s: u64| #[trigger] self.has_source(s) == b.has_source(s),
            forall|s: u64, p: u64| #[trigger] self.maps_source_to(s, p) == b.maps_source_to(s, p),
    {
        assert(self.peers_model() == b.peers_model());
        assert forall|p: u64| #[trigger] self.has_peer(p) == b.has_peer(p) by {
            if self.has_peer(p) {
                let w = choose|i: int|
                    0 <= i < self.peers_model().len() && (#[trigger] self.peers_model()[i]).peer
                        == p;
                assert(b.peers_model()[w].peer == p);
            }
            if b.has_peer(p) {
                let w = choose|i: int|
                    0 <= i < b.peers_model().len() && (#[trigger] b.peers_model()[i]).peer == p;
                assert(self.peers_model()[w].peer == p);
            }
        }
        assert forall|s: u64| #[trigger] self.has_source(s) == b.has_source(s) by {
            if self.has_source(s) {
                let w = choose|i: int|
                    0 <= i < self.peers_model().len() && (#[trigger] self.peers_model()[i]).source
                        == s;
                assert(b.peers_model()[w].source == s);
            }
            if b.has_source(s) {
                let w = choose|i: int|
                    0 <= i < b.peers_model().len() && (#[trigger] b.peers_model()[i]).source == s;
                assert(self.peers_model()[w].source == s);
            }
        }
        assert forall|s: u64, p: u64| #[trigger] self.maps_source_to(s, p) == b.maps_source_to(
            s,
            p,
        ) by {
            if self.maps_source_to(s, p) {
                let w = choose|i: int|
                    0 <= i < self.peers_model().len() && (#[trigger] self.peers_model()[i]).source
                        == s && self.peers_model()[i].peer == p;
                assert(b.peers_model()[w].source == s && b.peers_model()[w].peer == p);
            }
            if b.maps_source_to(s, p) {
                let w = choose|i: int|
                    0 <= i < b.peers_model().len() && (#[trigger] b.peers_model()[i]).source == s
                        && b.peers_model()[i].peer == p;
                assert(self.peers_model()[w].source == s && self.peers_model()[w].peer == p);
            }
        }
    }

    proof fn same_pending_views(&self, b: &RelayCore)
        requires
            self.pending@ == b.pending@,
        ensures
            self.pending_model() == b.pending_model(),
            forall|id: u64| #[trigger] self.pending_has(id) == b.pending_has(id),
            forall|id: u64, p: u64|
                #[trigger] self.pending_entry(id, p) == b.pending_entry(id, p),
    {
        assert(self.pending_model() =~= b.pending_model());
    }

    proof fn wf_preserved_from(&self, b: &RelayCore)
        requires
            b.wf(),
            self.peers@ == b.peers@,
            self.pending@ == b.pending@,
            self.actions@ == b.actions@,
            self.outstanding@ == b.outstanding@,
        ensures
            self.wf(),
    {
        self.same_peer_views(b);
        self.same_pending_views(b);
        assert(self.peers_wf());
        assert(self.pending_unique());
        assert forall|i: int| 0 <= i < self.pending@.len() implies self.has_peer(
            (#[trigger] self.pending@[i]).peer,
        ) by {
            assert(b.has_peer(b.pending@[i].peer));
        }
        assert forall|i: int|
            0 <= i < self.actions@.len() && is_start(#[trigger] self.actions@[i]) implies self.has_source(
            start_source_id(self.actions@[i]),
        ) && !self.pending_has(action_request_id(self.actions@[i])) by {
            assert(b.actions@[i] == self.actions@[i]);
            assert(b.has_source(start_source_id(b.actions@[i])));
            assert(!b.pending_has(action_request_id(b.actions@[i])));
        }
        assert forall|i: int|
            0 <= i < self.actions@.len() && !is_start(#[trigger] self.actions@[i]) implies self.pending_has(
            action_request_id(self.actions@[i]),
        ) by {
            assert(b.actions@[i] == self.actions@[i]);
            assert(b.pending_has(action_request_id(b.actions@[i])));
        }
        assert forall|id: u64| #[trigger] self.outstanding@.contains(id) <==> ((self.pending_has(
            id,
        ) && !queued_cancel(self.actions@, id)) || queued_start(self.actions@, id)) by {
            assert(b.outstanding@.contains(id) <==> ((b.pending_has(id) && !queued_cancel(
                b.actions@,
                id,
            )) || queued_start(b.actions@, id)));
        }
    }

    // -- construction --

    pub fn new() -> (r: RelayCore)
        ensures
            r.wf(),
            r.peers_model() == Seq::<PeerEntry>::empty(),
            r.pending_model() == Seq::<(u64, u64)>::empty(),
            r.actions_queue() == Seq::<Action>::empty(),
            r.outstanding() == Set::<u64>::empty(),
            !r.has_new_best_flag(),
            !r.has_new_finalized_flag(),
    {
        let r = RelayCore {
            peers: Vec::new(),
            pending: Vec::new(),
            actions: Vec::new(),
            has_new_best: false,
            has_new_finalized: false,
            outstanding: Ghost(Set::empty()),
        };
        proof {
            assert(r.pending_model() =~= Seq::<(u64, u64)>::empty());
        }
        r
    }

    // -- queueing actions --

    /// Record a batch of actions freshly emitted by the state machine.
    fn enqueue_actions(&mut self, new_actions: Vec<Action>)
        requires
            old(self).wf(),
            old(self).may_enqueue(new_actions@),
        ensures
            final(self).wf(),
            final(self).actions_queue() == old(self).actions_queue() + new_actions@,
            forall|id: u64|
                #[trigger] final(self).outstanding().contains(id) <==> ((old(
                    self,
                ).outstanding().contains(id) && !queued_cancel(new_actions@, id)) || queued_start(
                    new_actions@,
                    id,
                )),
            final(self).peers_model() == old(self).peers_model(),
            final(self).pending_model() == old(self).pending_model(),
            final(self).has_new_best_flag() == old(self).has_new_best_flag(),
            final(self).has_new_finalized_flag() == old(self).has_new_finalized_flag(),
    {
        let ghost olds = self.actions@;
        let ghost news = new_actions@;
        let mut tail = new_actions;
        self.actions.append(&mut tail);
        let ghost new_out = Set::new(
            |id: u64|
                (self.outstanding@.contains(id) && !queued_cancel(news, id)) || queued_start(
                    news,
                    id,
                ),
        );
        self.outstanding = Ghost(new_out);
        proof {
            let all = self.actions@;
            assert(all == olds + news);
            lemma_queued_concat(olds, news);
            self.same_peer_views(old(self));
            self.same_pending_views(old(self));
            // queue invariant, clause by clause
            assert forall|i: int|
                0 <= i < all.len() && is_start(#[trigger] all[i]) implies self.has_source(
                start_source_id(all[i]),
            ) by {
                if i < olds.len() {
                    assert(all[i] == olds[i]);
                } else {
                    assert(all[i] == news[i - olds.len()]);
                }
            }
            assert forall|i: int|
                0 <= i < all.len() && is_start(#[trigger] all[i]) implies !self.pending_has(
                action_request_id(all[i]),
            ) by {
                if i < olds.len() {
                    assert(all[i] == olds[i]);
                } else {
                    assert(all[i] == news[i - olds.len()]);
                }
            }
            assert forall|i: int|
                0 <= i < all.len() && !is_start(#[trigger] all[i]) implies self.pending_has(
                action_request_id(all[i]),
            ) by {
                if i < olds.len() {
                    assert(all[i] == olds[i]);
                } else {
                    assert(all[i] == news[i - olds.len()]);
                }
            }
            assert forall|i: int, j: int| 0 <= i < j < all.len() implies action_request_id(
                #[trigger] all[i],
            ) != action_request_id(#[trigger] all[j]) by {
                let idj = action_request_id(all[j]);
                if j < olds.len() {
                    assert(all[i] == olds[i] && all[j] == olds[j]);
                } else {
                    assert(all[j] == news[j - olds.len()]);
                    if i < olds.len() {
                        assert(all[i] == olds[i]);
                        assert(!queued_any(olds, idj));
                        if action_request_id(all[i]) == idj {
                            if is_start(olds[i]) {
                                assert(queued_start(olds, idj));
                            } else {
                                assert(queued_cancel(olds, idj));
                            }
                        }
                    } else {
                        assert(all[i] == news[i - olds.len()]);
                    }
                }
            }
            // the outstanding-set equation
            assert forall|id: u64| #[trigger] self.outstanding@.contains(id) <==> ((
            self.pending_has(id) && !queued_cancel(all, id)) || queued_start(all, id)) by {
                assert(queued_start(all, id) == (queued_start(olds, id) || queued_start(news, id)));
                assert(queued_cancel(all, id) == (queued_cancel(olds, id) || queued_cancel(
                    news,
                    id,
                )));
                if queued_start(news, id) {
                    assert(self.outstanding@.contains(id));
                } else if queued_cancel(news, id) {
                    let w = choose|i: int|
                        0 <= i < news.len() && !is_start(#[trigger] news[i]) && action_request_id(
                            news[i],
                        ) == id;
                    assert(!queued_any(olds, id));
                    assert(!queued_start(all, id));
                } else {
                    assert(self.outstanding@.contains(id) == old(self).outstanding@.contains(id));
                }
            }
        }
    }

    /// Fold a state-machine outcome back in: queue its next actions and
    /// remember whether a new best or newly finalized block was reported.
    pub fn absorb_outcome(
        &mut self,
        next_actions: Vec<Action>,
        is_new_best: bool,
        is_new_finalized: bool,
    )
        requires
            old(self).wf(),
            old(self).may_enqueue(next_actions@),
        ensures
            final(self).wf(),
            final(self).actions_queue() == old(self).actions_queue() + next_actions@,
            forall|id: u64|
                #[trigger] final(self).outstanding().contains(id) <==> ((old(
                    self,
                ).outstanding().contains(id) && !queued_cancel(next_actions@, id)) || queued_start(
                    next_actions@,
                    id,
                )),
            final(self).peers_model() == old(self).peers_model(),
            final(self).pending_model() == old(self).pending_model(),
            final(self).has_new_best_flag() == (old(self).has_new_best_flag() || is_new_best),
            final(self).has_new_finalized_flag() == (old(self).has_new_finalized_flag()
                || is_new_finalized),
    {
        if is_new_best {
            self.has_new_best = true;
        }
        if is_new_finalized {
            self.has_new_finalized = true;
        }
        proof {
            self.wf_preserved_from(old(self));
            self.same_peer_views(old(self));
            self.same_pending_views(old(self));
        }
        self.enqueue_actions(next_actions);
    }

    // -- dispatching --

    /// Act on the oldest queued action. For a start action the request is
    /// converted for the network layer and `handle` is registered so the
    /// request can later be cancelled; for a cancel action the stored handle
    /// is aborted and the request unregistered. The returned outcome tells
    /// the shell what to send where.
    pub fn dispatch_next(&mut self, handle: AbortHandle) -> (r: DispatchOutcome)
        requires
            old(self).wf(),
        ensures
            final(self).wf(),
            final(self).peers_model() == old(self).peers_model(),
            final(self).outstanding() == old(self).outstanding(),
            final(self).has_new_best_flag() == old(self).has_new_best_flag(),
            final(self).has_new_finalized_flag() == old(self).has_new_finalized_flag(),
            match r {
                DispatchOutcome::Started { request_id, peer, request } => {
                    let a0 = old(self).actions_queue()[0];
                    &&& old(self).actions_queue().len() > 0
                    &&& is_start(a0)
                    &&& request_id == action_request_id(a0)
                    &&& request == net_request_of(start_detail(a0))
                    // the dispatched action's source is live, and `peer` is its peer
                    &&& old(self).has_source(start_source_id(a0))
                    &&& old(self).maps_source_to(start_source_id(a0), peer)
                    &&& final(self).actions_queue() == old(self).actions_queue().subrange(
                        1,
                        old(self).actions_queue().len() as int,
                    )
                    &&& final(self).pending_model() == old(self).pending_model().push(
                        (request_id, peer),
                    )
                },
                DispatchOutcome::Cancelled { request_id } => {
                    let a0 = old(self).actions_queue()[0];
                    &&& old(self).actions_queue().len() > 0
                    &&& !is_start(a0)
                    &&& request_id == action_request_id(a0)
                    &&& old(self).pending_has(request_id)
                    &&& final(self).actions_queue() == old(self).actions_queue().subrange(
                        1,
                        old(self).actions_queue().len() as int,
                    )
                    &&& forall|id: u64, p: u64|
                        #[trigger] final(self).pending_entry(id, p) <==> (old(self).pending_entry(
                            id,
                            p,
                        ) && id != request_id)
                    &&& forall|id: u64|
                        #[trigger] final(self).pending_has(id) <==> (old(self).pending_has(id)
                            && id != request_id)
                },
                DispatchOutcome::Drained => {
                    &&& old(self).actions_queue().len() == 0
                    &&& final(self).actions_queue() == old(self).actions_queue()
                    &&& final(self).pending_model() == old(self).pending_model()
                },
            },
    {
        if self.actions.len() == 0 {
            return DispatchOutcome::Drained;
        }
        let ghost olda = self.actions@;
        let ghost oldp = self.pending@;
        let action = self.actions.remove(0);
        proof {
            assert(self.actions@ =~= olda.subrange(1, olda.len() as int));
            assert(action == olda[0]);
        }
        match action {
            Action::Start { source_id, request_id, detail } => {
                proof {
                    assert(is_start(olda[0]) && start_source_id(olda[0]) == source_id);
                    assert(old(self).has_source(source_id));
                    self.same_peer_views(old(self));
                    self.same_pending_views(old(self));
                }
                let peer = self.peer_of_source(source_id);
                let request = to_net_request(detail);
                let entry = PendingRequest { request_id, peer, handle };
                let ghost entry_spec = entry;
                self.pending.push(entry);
                proof {
                    assert(self.pending@ == oldp.push(entry_spec));
                    assert(self.pending_model() =~= old(self).pending_model().push(
                        (request_id, peer),
                    ));
                    self.lemma_after_start_dispatch(old(self), olda, request_id, peer);
                }
                DispatchOutcome::Started { request_id, peer, request }
            },
            Action::Cancel { request_id } => {
                proof {
                    assert(!is_start(olda[0]) && action_request_id(olda[0]) == request_id);
                    assert(old(self).pending_has(request_id));
                    self.same_peer_views(old(self));
                    self.same_pending_views(old(self));
                }
                let idx = self.find_pending_index(request_id);
                let entry = self.pending.remove(idx);
                entry.handle.abort();
                proof {
                    assert(self.pending@ =~= oldp.subrange(0, idx as int) + oldp.subrange(
                        idx + 1,
                        oldp.len() as int,
                    ));
                    self.lemma_after_cancel_dispatch(old(self), olda, oldp, idx as int, request_id);
                }
                DispatchOutcome::Cancelled { request_id }
            },
        }
    }

    /// Find the peer a source id stands for.
    fn peer_of_source(&self, source_id: u64) -> (r: u64)
        requires
            self.has_source(source_id),
        ensures
            self.maps_source_to(source_id, r),
    {
        let mut i: usize = 0;
        while i < self.peers.len()
            invariant
                self.has_source(source_id),
                i <= self.peers@.len(),
                forall|j: int| 0 <= j < i as int ==> (#[trigger] self.peers@[j]).source != source_id,
            decreases self.peers@.len() - i,
        {
            let e = self.peers[i];
            if e.source == source_id {
                proof {
                    assert(self.peers_model()[i as int].source == source_id
                        && self.peers_model()[i as int].peer == e.peer);
                }
                return e.peer;
            }
            i = i + 1;
        }
        proof {
            let w = choose|j: int|
                0 <= j < self.peers_model().len() && (#[trigger] self.peers_model()[j]).source
                    == source_id;
            assert(false);
        }
        0
    }

    /// The source id a connected peer is known by, if any.
    pub fn source_of_peer(&self, peer: u64) -> (r: Option<u64>)
        requires
            self.wf(),
        ensures
            match r {
                Some(s) => self.maps_source_to(s, peer),
                None => !self.has_peer(peer),
            },
    {
        let mut i: usize = 0;
        while i < self.peers.len()
            invariant
                i <= self.peers@.len(),
                forall|j: int| 0 <= j < i as int ==> (#[trigger] self.peers@[j]).peer != peer,
            decreases self.peers@.len() - i,
        {
            let e = self.peers[i];
            if e.peer == peer {
                proof {
                    assert(self.peers_model()[i as int].source == e.source
                        && self.peers_model()[i as int].peer == peer);
                }
                return Some(e.source);
            }
            i = i + 1;
        }
        proof {
            if self.has_peer(peer) {
                let w = choose|j: int|
                    0 <= j < self.peers_model().len() && (#[trigger] self.peers_model()[j]).peer
                        == peer;
                assert(false);
            }
        }
        None
    }

    fn find_pending_index(&self, request_id: u64) -> (r: usize)
        requires
            self.pending_has(request_id),
        ensures
            (r as int) < self.pending@.len(),
            self.pending_model()[r as int].0 == request_id,
    {
        let mut i: usize = 0;
        while i < self.pending.len()
            invariant
                self.pending_has(request_id),
                i <= self.pending@.len(),
                forall|j: int|
                    0 <= j < i as int ==> (#[trigger] self.pending@[j]).request_id != request_id,
            decreases self.pending@.len() - i,
        {
            if self.pending[i].request_id == request_id {
                proof {
                    assert(self.pending_model()[i as int].0 == request_id);
                }
                return i;
            }
            i = i + 1;
        }
        proof {
            let w = choose|j: int|
                0 <= j < self.pending_model().len() && (#[trigger] self.pending_model()[j]).0
                    == request_id;
            assert(self.pending@[w].request_id == request_id);
            assert(false);
        }
        0
    }

    fn find_peer_index(&self, peer: u64) -> (r: usize)
        requires
            self.has_peer(peer),
        ensures
            (r as int) < self.peers@.len(),
            self.peers_model()[r as int].peer == peer,
    {
        let mut i: usize = 0;
        while i < self.peers.len()
            invariant
                self.has_peer(peer),
                i <= self.peers@.len(),
                forall|j: int| 0 <= j < i as int ==> (#[trigger] self.peers@[j]).peer != peer,
            decreases self.peers@.len() - i,
        {
            if self.peers[i].peer == peer {
                proof {
                    assert(self.peers_model()[i as int].peer == peer);
                }
                return i;
            }
            i = i + 1;
        }
        proof {
            let w = choose|j: int|
                0 <= j < self.peers_model().len() && (#[trigger] self.peers_model()[j]).peer
                    == peer;
            assert(false);
        }
        0
    }

    // -- network events --

    /// A peer connected on the task's chain and was added to the state
    /// machine as `source_id`, which emitted `next_actions` for it.
    pub fn on_connected(&mut self, peer: u64, source_id: u64, next_actions: Vec<Action>)
        requires
            old(self).wf(),
            old(self).actions_queue().len() == 0,
            !old(self).has_peer(peer),
            !old(self).has_source(source_id),
            old(self).ids_admissible(next_actions@),
            forall|i: int|
                0 <= i < next_actions@.len() && is_start(#[trigger] next_actions@[i]) ==> (old(
                    self,
                ).has_source(start_source_id(next_actions@[i])) || start_source_id(
                    next_actions@[i],
                ) == source_id),
        ensures
            final(self).wf(),
            final(self).peers_model() == old(self).peers_model().push(
                PeerEntry { peer, source: source_id },
            ),
            final(self).actions_queue() == next_actions@,
            forall|id: u64|
                #[trigger] final(self).outstanding().contains(id) <==> ((old(
                    self,
                ).outstanding().contains(id) && !queued_cancel(next_actions@, id)) || queued_start(
                    next_actions@,
                    id,
                )),
            final(self).pending_model() == old(self).pending_model(),
            final(self).has_new_best_flag() == old(self).has_new_best_flag(),
            final(self).has_new_finalized_flag() == old(self).has_new_finalized_flag(),
    {
        self.peers.push(PeerEntry { peer, source: source_id });
        proof {
            self.same_pending_views(old(self));
            assert(self.peers_model() == old(self).peers_model().push(
                PeerEntry { peer, source: source_id },
            ));
            // the fresh entry keeps the map injective both ways
            assert forall|a: int, b: int| 0 <= a < b < self.peers@.len() implies (
            #[trigger] self.peers@[a]).peer != (#[trigger] self.peers@[b]).peer
                && self.peers@[a].source != self.peers@[b].source by {
                if b == self.peers@.len() - 1 {
                    assert(self.peers@[a] == old(self).peers_model()[a]);
                    if self.peers@[a].peer == peer {
                        assert(old(self).has_peer(peer));
                    }
                    if self.peers@[a].source == source_id {
                        assert(old(self).has_source(source_id));
                    }
                } else {
                    assert(self.peers@[a] == old(self).peers_model()[a]);
                    assert(self.peers@[b] == old(self).peers_model()[b]);
                }
            }
            assert forall|i: int|
                0 <= i < next_actions@.len() && is_start(
                    #[trigger] next_actions@[i],
                ) implies self.has_source(start_source_id(next_actions@[i])) by {
                let s = start_source_id(next_actions@[i]);
                if old(self).has_source(s) {
                    let w = choose|j: int|
                        0 <= j < old(self).peers_model().len() && (#[trigger] old(
                            self,
                        ).peers_model()[j]).source == s;
                    assert(self.peers_model()[w].source == s);
                } else {
                    assert(self.peers_model()[self.peers_model().len() - 1].source == s);
                }
            }
            assert forall|i: int| 0 <= i < self.pending@.len() implies self.has_peer(
                (#[trigger] self.pending@[i]).peer,
            ) by {
                assert(old(self).has_peer(old(self).pending@[i].peer));
                let w = choose|j: int|
                    0 <= j < old(self).peers_model().len() && (#[trigger] old(
                        self,
                    ).peers_model()[j]).peer == old(self).pending@[i].peer;
                assert(self.peers_model()[w].peer == self.pending@[i].peer);
            }
            // the queue is empty, so its invariants and the outstanding
            // equation carry over unchanged
            assert(self.actions@.len() == 0);
            assert forall|id: u64| #[trigger] self.outstanding@.contains(id) <==> ((
            self.pending_has(id) && !queued_cancel(self.actions@, id)) || queued_start(
                self.actions@,
                id,
            )) by {
                assert(old(self).outstanding@.contains(id) <==> ((old(self).pending_has(id)
                    && !queued_cancel(old(self).actions@, id)) || queued_start(
                    old(self).actions@,
                    id,
                )));
            }
            assert(self.wf());
        }
        self.enqueue_actions(next_actions);
        proof {
            assert(self.actions@ =~= next_actions@);
        }
    }

    /// A peer disconnected: forget its source mapping, abort every pending
    /// request that was addressed to it, and drop those requests from the
    /// table. Afterwards no pending request refers to the peer, so a late
    /// completion of one of its requests is discarded by
    /// [`RelayCore::on_request_completed`].
    pub fn remove_peer(&mut self, peer: u64)
        requires
            old(self).wf(),
            old(self).actions_queue().len() == 0,
            old(self).has_peer(peer),
        ensures
            final(self).wf(),
            final(self).actions_queue().len() == 0,
            forall|p: u64| #[trigger] final(self).has_peer(p) <==> (old(self).has_peer(p) && p != peer),
            forall|s: u64, p: u64|
                #[trigger] final(self).maps_source_to(s, p) <==> (old(self).maps_source_to(s, p)
                    && p != peer),
            forall|id: u64, p: u64|
                #[trigger] final(self).pending_entry(id, p) <==> (old(self).pending_entry(id, p)
                    && p != peer),
            forall|id: u64|
                #[trigger] final(self).pending_has(id) <==> (old(self).pending_has(id) && !old(
                    self,
                ).pending_entry(id, peer)),
            forall|id: u64|
                #[trigger] final(self).outstanding().contains(id) <==> (old(
                    self,
                ).outstanding().contains(id) && !old(self).pending_entry(id, peer)),
            final(self).has_new_best_flag() == old(self).has_new_best_flag(),
            final(self).has_new_finalized_flag() == old(self).has_new_finalized_flag(),
    {
        // forget the peer -> source mapping
        let i = self.find_peer_index(peer);
        let ghost oldpeers = self.peers@;
        self.peers.remove(i);
        proof {
            assert(self.peers@ =~= oldpeers.subrange(0, i as int) + oldpeers.subrange(
                i + 1,
                oldpeers.len() as int,
            ));
        }
        // abort and drop every pending request addressed to the peer
        let ghost orig = self.pending@;
        proof {
            assert(self.pending@ =~= orig.subrange(0, self.pending@.len() as int));
        }
        let mut kept: Vec<PendingRequest> = Vec::new();
        while self.pending.len() > 0
            invariant
                old(self).wf(),
                (i as int) < oldpeers.len(),
                self.peers@ == oldpeers.subrange(0, i as int) + oldpeers.subrange(
                    i + 1,
                    oldpeers.len() as int,
                ),
                self.actions@ == old(self).actions@,
                self.outstanding@ == old(self).outstanding@,
                self.has_new_best == old(self).has_new_best,
                self.has_new_finalized == old(self).has_new_finalized,
                orig == old(self).pending@,
                self.pending@.len() <= orig.len(),
                self.pending@ == orig.subrange(0, self.pending@.len() as int),
                forall|a: int, b: int|
                    0 <= a < b < kept@.len() ==> (#[trigger] kept@[a]).request_id != (
                    #[trigger] kept@[b]).request_id,
                forall|id: u64, p: u64|
                    #[trigger] pseq_has_entry(kept@, id, p) <==> (p != peer && exists|j: int|
                        self.pending@.len() <= j < orig.len() && (#[trigger] orig[j]).request_id
                            == id && orig[j].peer == p),
            decreases self.pending@.len(),
        {
            let ghost nbefore = self.pending@.len() as int;
            let ghost kold = kept@;
            let e = self.pending.pop().unwrap();
            proof {
                assert(orig.subrange(0, nbefore)[nbefore - 1] == orig[nbefore - 1]);
                assert(e == orig[nbefore - 1]);
                assert(self.pending@ =~= orig.subrange(0, nbefore - 1));
            }
            if e.peer == peer {
                e.handle.abort();
                proof {
                    assert forall|id: u64, p: u64| #[trigger] pseq_has_entry(kold, id, p) <==> (p
                        != peer && exists|j: int|
                        self.pending@.len() <= j < orig.len() && (#[trigger] orig[j]).request_id
                            == id && orig[j].peer == p) by {
                        if pseq_has_entry(kold, id, p) {
                            assert(p != peer);
                            let w = choose|j: int|
                                nbefore <= j < orig.len() && (#[trigger] orig[j]).request_id == id
                                    && orig[j].peer == p;
                            assert(nbefore - 1 <= w < orig.len());
                        } else if p != peer && exists|j: int|
                            self.pending@.len() <= j < orig.len() && (#[trigger] orig[j]).request_id
                                == id && orig[j].peer == p {
                            let w = choose|j: int|
                                self.pending@.len() <= j < orig.len() && (
                                #[trigger] orig[j]).request_id == id && orig[j].peer == p;
                            assert(w != nbefore - 1);
                            assert(nbefore <= w);
                        }
                    }
                }
            } else {
                kept.push(e);
                proof {
                    assert(kept@ == kold.push(e));
                    // the pushed id was not in `kept` already
                    assert forall|a: int, b: int| 0 <= a < b < kept@.len() implies (
                    #[trigger] kept@[a]).request_id != (#[trigger] kept@[b]).request_id by {
                        if b == kept@.len() - 1 && kept@[a].request_id == e.request_id {
                            assert(kold[a] == kept@[a]);
                            assert(pseq_has_entry(kold, e.request_id, kept@[a].peer));
                            let w = choose|j: int|
                                nbefore <= j < orig.len() && (#[trigger] orig[j]).request_id
                                    == e.request_id && orig[j].peer == kept@[a].peer;
                            assert(orig[nbefore - 1].request_id == orig[w].request_id);
                        }
                    }
                    assert forall|id: u64, p: u64| #[trigger] pseq_has_entry(kept@, id, p) <==> (p
                        != peer && exists|j: int|
                        self.pending@.len() <= j < orig.len() && (#[trigger] orig[j]).request_id
                            == id && orig[j].peer == p) by {
                        if pseq_has_entry(kept@, id, p) {
                            let w = choose|k: int|
                                0 <= k < kept@.len() && (#[trigger] kept@[k]).request_id == id
                                    && kept@[k].peer == p;
                            if w == kept@.len() - 1 {
                                assert(id == e.request_id && p == e.peer);
                                assert(orig[nbefore - 1].request_id == id && orig[nbefore - 1].peer
                                    == p);
                            } else {
                                assert(kold[w] == kept@[w]);
                                assert(pseq_has_entry(kold, id, p));
                                let w2 = choose|j: int|
                                    nbefore <= j < orig.len() && (#[trigger] orig[j]).request_id
                                        == id && orig[j].peer == p;
                                assert(nbefore - 1 <= w2);
                            }
                        } else if p != peer && exists|j: int|
                            self.pending@.len() <= j < orig.len() && (#[trigger] orig[j]).request_id
                                == id && orig[j].peer == p {
                            let w = choose|j: int|
                                self.pending@.len() <= j < orig.len() && (
                                #[trigger] orig[j]).request_id == id && orig[j].peer == p;
                            if w == nbefore - 1 {
                                assert(kept@[kept@.len() - 1].request_id == id && kept@[kept@.len()
                                    - 1].peer == p);
                            } else {
                                assert(nbefore <= w);
                                assert(pseq_has_entry(kold, id, p));
                                let w3 = choose|k: int|
                                    0 <= k < kold.len() && (#[trigger] kold[k]).request_id == id
                                        && kold[k].peer == p;
                                assert(kept@[w3].request_id == id && kept@[w3].peer == p);
                            }
                        }
                    }
                }
            }
        }
        self.pending = kept;
        let ghost new_out = Set::new(
            |id: u64|
                old(self).outstanding@.contains(id) && !model_has_entry(
                    old(self).pending_model(),
                    id,
                    peer,
                ),
        );
        self.outstanding = Ghost(new_out);
        proof {
            self.lemma_after_remove_peer(old(self), oldpeers, i as int, peer);
        }
    }

    /// A wrapped request future completed. `succeeded` is false when the
    /// future was aborted. Returns whether the shell must inject the
    /// response into the state machine: a completion whose request id is no
    /// longer in the pending table (it was cancelled, or its peer
    /// disconnected) has no observable effect.
    pub fn on_request_completed(&mut self, request_id: u64, succeeded: bool) -> (inject: bool)
        requires
            old(self).wf(),
            old(self).actions_queue().len() == 0,
        ensures
            final(self).wf(),
            inject == (succeeded && old(self).pending_has(request_id)),
            final(self).actions_queue().len() == 0,
            final(self).peers_model() == old(self).peers_model(),
            final(self).has_new_best_flag() == old(self).has_new_best_flag(),
            final(self).has_new_finalized_flag() == old(self).has_new_finalized_flag(),
            inject ==> forall|id: u64, p: u64|
                #[trigger] final(self).pending_entry(id, p) <==> (old(self).pending_entry(id, p)
                    && id != request_id),
            inject ==> forall|id: u64|
                #[trigger] final(self).pending_has(id) <==> (old(self).pending_has(id) && id
                    != request_id),
            inject ==> final(self).outstanding() == old(self).outstanding().remove(request_id),
            !inject ==> *final(self) == *old(self),
    {
        if !succeeded {
            return false;
        }
        match self.find_pending_opt(request_id) {
            None => false,
            Some(i) => {
                let ghost oldp = self.pending@;
                self.pending.remove(i);
                self.outstanding = Ghost(self.outstanding@.remove(request_id));
                proof {
                    assert(self.pending@ =~= oldp.subrange(0, i as int) + oldp.subrange(
                        i + 1,
                        oldp.len() as int,
                    ));
                    self.lemma_after_completion(old(self), oldp, i as int, request_id);
                }
                true
            },
        }
    }

    fn find_pending_opt(&self, request_id: u64) -> (r: Option<usize>)
        ensures
            match r {
                Some(i) => (i as int) < self.pending@.len() && self.pending_model()[i as int].0
                    == request_id,
                None => !self.pending_has(request_id),
            },
    {
        let mut i: usize = 0;
        while i < self.pending.len()
            invariant
                i <= self.pending@.len(),
                forall|j: int|
                    0 <= j < i as int ==> (#[trigger] self.pending@[j]).request_id != request_id,
            decreases self.pending@.len() - i,
        {
            if self.pending[i].request_id == request_id {
                proof {
                    assert(self.pending_model()[i as int].0 == request_id);
                }
                return Some(i);
            }
            i = i + 1;
        }
        proof {
            if self.pending_has(request_id) {
                let w = choose|j: int|
                    0 <= j < self.pending_model().len() && (#[trigger] self.pending_model()[j]).0
                        == request_id;
                assert(self.pending@[w].request_id == request_id);
                assert(false);
            }
        }
        None
    }

    // -- notification flags --

    /// Whether a new best block was reported and not yet fanned out; reading
    /// clears the flag.
    pub fn take_new_best_flag(&mut self) -> (r: bool)
        requires
            old(self).wf(),
        ensures
            final(self).wf(),
            r == old(self).has_new_best_flag(),
            !final(self).has_new_best_flag(),
            final(self).has_new_finalized_flag() == old(self).has_new_finalized_flag(),
            final(self).peers_model() == old(self).peers_model(),
            final(self).pending_model() == old(self).pending_model(),
            final(self).actions_queue() == old(self).actions_queue(),
            final(self).outstanding() == old(self).outstanding(),
    {
        let r = self.has_new_best;
        self.has_new_best = false;
        proof {
            self.wf_preserved_from(old(self));
        }
        r
    }

    /// Whether a new finalized block was reported and not yet fanned out;
    /// reading clears the flag.
    pub fn take_new_finalized_flag(&mut self) -> (r: bool)
        requires
            old(self).wf(),
        ensures
            final(self).wf(),
            r == old(self).has_new_finalized_flag(),
            !final(self).has_new_finalized_flag(),
            final(self).has_new_best_flag() == old(self).has_new_best_flag(),
            final(self).peers_model() == old(self).peers_model(),
            final(self).pending_model() == old(self).pending_model(),
            final(self).actions_queue() == old(self).actions_queue(),
            final(self).outstanding() == old(self).outstanding(),
    {
        let r = self.has_new_finalized;
        self.has_new_finalized = false;
        proof {
            self.wf_preserved_from(old(self));
        }
        r
    }

    // -- observers --

    pub fn pending_count(&self) -> (r: usize)
        ensures
            r as int == self.pending_model().len(),
    {
        self.pending.len()
    }

    pub fn queued_action_count(&self) -> (r: usize)
        ensures
            r as int == self.actions_queue().len(),
    {
        self.actions.len()
    }

    pub fn has_pending_request(&self, request_id: u64) -> (r: bool)
        ensures
            r == self.pending_has(request_id),
    {
        match self.find_pending_opt(request_id) {
            Some(_) => true,
            None => false,
        }
    }

    // -- laws --

    /// Law: when the action queue is drained — at every await point — the
    /// pending-request table holds exactly the request ids the state machine
    /// considers outstanding.
    pub proof fn pending_matches_outstanding(&self)
        requires
            self.wf(),
            self.actions_queue().len() == 0,
        ensures
            forall|id: u64| #[trigger] self.outstanding().contains(id) <==> self.pending_has(id),
    {
        assert forall|id: u64| #[trigger] self.outstanding().contains(id) <==> self.pending_has(
            id,
        ) by {
            if queued_start(self.actions@, id) {
                let w = choose|i: int|
                    0 <= i < self.actions@.len() && is_start(#[trigger] self.actions@[i])
                        && action_request_id(self.actions@[i]) == id;
                assert(false);
            }
            if queued_cancel(self.actions@, id) {
                let w = choose|i: int|
                    0 <= i < self.actions@.len() && !is_start(#[trigger] self.actions@[i])
                        && action_request_id(self.actions@[i]) == id;
                assert(false);
            }
        }
    }

    /// Law: every queued start action references a source id that is live in
    /// the `peer -> source` map, so a request is never dispatched against a
    /// removed source.
    pub proof fn queued_starts_reference_live_sources(&self)
        requires
            self.wf(),
        ensures
            forall|i: int|
                0 <= i < self.actions_queue().len() && is_start(#[trigger] self.actions_queue()[i])
                    ==> self.has_source(start_source_id(self.actions_queue()[i])),
    {
    }

    /// Law: with the queue drained, a request id absent from the pending
    /// table is not outstanding either — the machine does not expect a
    /// response for it, so discarding its late completion is sound.
    pub proof fn unknown_request_not_outstanding(&self, request_id: u64)
        requires
            self.wf(),
            self.actions_queue().len() == 0,
            !self.pending_has(request_id),
        ensures
            !self.outstanding().contains(request_id),
    {
        self.pending_matches_outstanding();
    }

    // -- invariant-restoration lemmas (internal) --

    proof fn lemma_after_start_dispatch(
        &self,
        prev: &RelayCore,
        olda: Seq<Action>,
        request_id: u64,
        peer: u64,
    )
        requires
            prev.wf(),
            olda == prev.actions@,
            olda.len() > 0,
            is_start(olda[0]),
            action_request_id(olda[0]) == request_id,
            self.peers@ == prev.peers@,
            self.actions@ == olda.subrange(1, olda.len() as int),
            self.pending@.len() == prev.pending@.len() + 1,
            forall|k: int| 0 <= k < prev.pending@.len() ==> self.pending@[k] == prev.pending@[k],
            self.pending@[prev.pending@.len() as int].request_id == request_id,
            self.pending@[prev.pending@.len() as int].peer == peer,
            prev.maps_source_to(start_source_id(olda[0]), peer),
            self.outstanding@ == prev.outstanding@,
        ensures
            self.wf(),
    {
        self.same_peer_views(prev);
        let tail = self.actions@;
        let n = prev.pending@.len() as int;
        assert forall|k: int| 0 <= k < tail.len() implies tail[k] == olda[k + 1] by {}
        // the new id was not pending before
        if prev.pending_has(request_id) {
            assert(queued_start(olda, request_id));
            assert(false);
        }
        assert forall|i: int, j: int| 0 <= i < j < self.pending@.len() implies (
        #[trigger] self.pending@[i]).request_id != (#[trigger] self.pending@[j]).request_id by {
            if j == n {
                if prev.pending@[i].request_id == request_id {
                    assert(prev.pending_model()[i].0 == request_id);
                }
            }
        }
        // every pending peer is live
        assert forall|i: int| 0 <= i < self.pending@.len() implies self.has_peer(
            (#[trigger] self.pending@[i]).peer,
        ) by {
            if i < n {
                assert(prev.has_peer(prev.pending@[i].peer));
            } else {
                let w = choose|k: int|
                    0 <= k < prev.peers_model().len() && (#[trigger] prev.peers_model()[k]).source
                        == start_source_id(olda[0]) && prev.peers_model()[k].peer == peer;
                assert(self.peers_model()[w].peer == peer);
            }
        }
        // pending-membership correspondence for ids other than the new one
        assert forall|id: u64| id != request_id implies (self.pending_has(id) <==> prev.pending_has(
            id,
        )) by {
            if prev.pending_has(id) {
                let w = choose|k: int|
                    0 <= k < prev.pending_model().len() && (#[trigger] prev.pending_model()[k]).0
                        == id;
                assert(self.pending_model()[w].0 == id);
            }
            if self.pending_has(id) {
                let w = choose|k: int|
                    0 <= k < self.pending_model().len() && (#[trigger] self.pending_model()[k]).0
                        == id;
                assert(w < n);
                assert(prev.pending_model()[w].0 == id);
            }
        }
        assert(self.pending_model()[n].0 == request_id);
        assert(self.pending_has(request_id));
        // queue invariants carry over to the tail
        assert forall|i: int|
            0 <= i < tail.len() && is_start(#[trigger] tail[i]) implies self.has_source(
            start_source_id(tail[i]),
        ) && !self.pending_has(action_request_id(tail[i])) by {
            assert(tail[i] == olda[i + 1]);
            assert(action_request_id(olda[0]) != action_request_id(olda[i + 1]));
        }
        assert forall|i: int|
            0 <= i < tail.len() && !is_start(#[trigger] tail[i]) implies self.pending_has(
            action_request_id(tail[i]),
        ) by {
            assert(tail[i] == olda[i + 1]);
            assert(prev.pending_has(action_request_id(olda[i + 1])));
            assert(action_request_id(olda[0]) != action_request_id(olda[i + 1]));
        }
        assert forall|i: int, j: int| 0 <= i < j < tail.len() implies action_request_id(
            #[trigger] tail[i],
        ) != action_request_id(#[trigger] tail[j]) by {
            assert(tail[i] == olda[i + 1] && tail[j] == olda[j + 1]);
        }
        // the outstanding equation
        assert forall|id: u64| #[trigger] self.outstanding@.contains(id) <==> ((self.pending_has(
            id,
        ) && !queued_cancel(tail, id)) || queued_start(tail, id)) by {
            lemma_queued_shift(olda, id);
            if id == request_id {
                assert(queued_start(olda, id));
            }
        }
    }

    proof fn lemma_after_cancel_dispatch(
        &self,
        prev: &RelayCore,
        olda: Seq<Action>,
        oldp: Seq<PendingRequest>,
        idx: int,
        request_id: u64,
    )
        requires
            prev.wf(),
            olda == prev.actions@,
            oldp == prev.pending@,
            olda.len() > 0,
            !is_start(olda[0]),
            action_request_id(olda[0]) == request_id,
            0 <= idx < oldp.len(),
            oldp[idx].request_id == request_id,
            self.peers@ == prev.peers@,
            self.actions@ == olda.subrange(1, olda.len() as int),
            self.pending@ == oldp.subrange(0, idx) + oldp.subrange(idx + 1, oldp.len() as int),
            self.outstanding@ == prev.outstanding@,
        ensures
            self.wf(),
            forall|id: u64, p: u64|
                #[trigger] self.pending_entry(id, p) <==> (prev.pending_entry(id, p) && id
                    != request_id),
            forall|id: u64|
                #[trigger] self.pending_has(id) <==> (prev.pending_has(id) && id != request_id),
    {
        self.same_peer_views(prev);
        let tail = self.actions@;
        let m = self.pending@;
        assert(m.len() == oldp.len() - 1);
        assert forall|k: int| 0 <= k < m.len() implies m[k] == (if k < idx {
            oldp[k]
        } else {
            oldp[k + 1]
        }) by {}
        assert forall|k: int| 0 <= k < tail.len() implies tail[k] == olda[k + 1] by {}
        // entry correspondence
        assert forall|id: u64, p: u64| #[trigger] self.pending_entry(id, p) <==> (
        prev.pending_entry(id, p) && id != request_id) by {
            if self.pending_entry(id, p) {
                let w = choose|k: int|
                    0 <= k < self.pending_model().len() && (#[trigger] self.pending_model()[k]).0
                        == id && self.pending_model()[k].1 == p;
                let w2: int = if w < idx {
                    w
                } else {
                    w + 1
                };
                assert(prev.pending_model()[w2] == (id, p));
                if id == request_id {
                    assert(prev.pending@[w2].request_id == request_id);
                    assert(w2 != idx);
                }
            }
            if prev.pending_entry(id, p) && id != request_id {
                let w = choose|k: int|
                    0 <= k < prev.pending_model().len() && (#[trigger] prev.pending_model()[k]).0
                        == id && prev.pending_model()[k].1 == p;
                assert(prev.pending@[w].request_id == id);
                assert(w != idx);
                let w2: int = if w < idx {
                    w
                } else {
                    w - 1
                };
                assert(self.pending_model()[w2] == (id, p));
            }
        }
        // id-membership correspondence
        assert forall|id: u64| self.pending_has(id) <==> (prev.pending_has(id) && id != request_id) by {
            if self.pending_has(id) {
                let w = choose|k: int|
                    0 <= k < self.pending_model().len() && (#[trigger] self.pending_model()[k]).0
                        == id;
                let w2: int = if w < idx {
                    w
                } else {
                    w + 1
                };
                assert(prev.pending_model()[w2].0 == id);
                if id == request_id {
                    assert(prev.pending@[w2].request_id == request_id);
                    assert(w2 != idx);
                }
            }
            if prev.pending_has(id) && id != request_id {
                let w = choose|k: int|
                    0 <= k < prev.pending_model().len() && (#[trigger] prev.pending_model()[k]).0
                        == id;
                assert(prev.pending@[w].request_id == id);
                assert(w != idx);
                let w2: int = if w < idx {
                    w
                } else {
                    w - 1
                };
                assert(self.pending_model()[w2].0 == id);
            }
        }
        // well-formedness
        assert forall|i: int, j: int| 0 <= i < j < m.len() implies (#[trigger] m[i]).request_id != (
        #[trigger] m[j]).request_id by {}
        assert forall|i: int| 0 <= i < m.len() implies self.has_peer((#[trigger] m[i]).peer) by {
            assert(prev.has_peer(m[i].peer));
        }
        assert forall|i: int|
            0 <= i < tail.len() && is_start(#[trigger] tail[i]) implies self.has_source(
            start_source_id(tail[i]),
        ) && !self.pending_has(action_request_id(tail[i])) by {
            assert(tail[i] == olda[i + 1]);
        }
        assert forall|i: int|
            0 <= i < tail.len() && !is_start(#[trigger] tail[i]) implies self.pending_has(
            action_request_id(tail[i]),
        ) by {
            assert(tail[i] == olda[i + 1]);
            assert(action_request_id(olda[0]) != action_request_id(olda[i + 1]));
        }
        assert forall|i: int, j: int| 0 <= i < j < tail.len() implies action_request_id(
            #[trigger] tail[i],
        ) != action_request_id(#[trigger] tail[j]) by {
            assert(tail[i] == olda[i + 1] && tail[j] == olda[j + 1]);
        }
        assert forall|id: u64| #[trigger] self.outstanding@.contains(id) <==> ((self.pending_has(
            id,
        ) && !queued_cancel(tail, id)) || queued_start(tail, id)) by {
            lemma_queued_shift(olda, id);
            if id == request_id {
                assert(queued_cancel(olda, id));
                if queued_start(olda, id) {
                    let w = choose|k: int|
                        0 <= k < olda.len() && is_start(#[trigger] olda[k]) && action_request_id(
                            olda[k],
                        ) == id;
                    assert(w != 0);
                    assert(action_request_id(olda[0]) != action_request_id(olda[w]));
                }
                assert(!prev.outstanding@.contains(id));
            }
        }
    }

    proof fn lemma_after_completion(
        &self,
        prev: &RelayCore,
        oldp: Seq<PendingRequest>,
        idx: int,
        request_id: u64,
    )
        requires
            prev.wf(),
            prev.actions@.len() == 0,
            oldp == prev.pending@,
            0 <= idx < oldp.len(),
            oldp[idx].request_id == request_id,
            self.peers@ == prev.peers@,
            self.actions@ == prev.actions@,
            self.pending@ == oldp.subrange(0, idx) + oldp.subrange(idx + 1, oldp.len() as int),
            self.outstanding@ == prev.outstanding@.remove(request_id),
        ensures
            self.wf(),
            forall|id: u64, p: u64|
                #[trigger] self.pending_entry(id, p) <==> (prev.pending_entry(id, p) && id
                    != request_id),
            forall|id: u64|
                #[trigger] self.pending_has(id) <==> (prev.pending_has(id) && id != request_id),
    {
        self.same_peer_views(prev);
        let m = self.pending@;
        assert forall|k: int| 0 <= k < m.len() implies m[k] == (if k < idx {
            oldp[k]
        } else {
            oldp[k + 1]
        }) by {}
        assert forall|id: u64, p: u64| #[trigger] self.pending_entry(id, p) <==> (
        prev.pending_entry(id, p) && id != request_id) by {
            if self.pending_entry(id, p) {
                let w = choose|k: int|
                    0 <= k < self.pending_model().len() && (#[trigger] self.pending_model()[k]).0
                        == id && self.pending_model()[k].1 == p;
                let w2: int = if w < idx {
                    w
                } else {
                    w + 1
                };
                assert(prev.pending_model()[w2] == (id, p));
                if id == request_id {
                    assert(prev.pending@[w2].request_id == request_id);
                    assert(w2 != idx);
                }
            }
            if prev.pending_entry(id, p) && id != request_id {
                let w = choose|k: int|
                    0 <= k < prev.pending_model().len() && (#[trigger] prev.pending_model()[k]).0
                        == id && prev.pending_model()[k].1 == p;
                assert(prev.pending@[w].request_id == id);
                assert(w != idx);
                let w2: int = if w < idx {
                    w
                } else {
                    w - 1
                };
                assert(self.pending_model()[w2] == (id, p));
            }
        }
        assert forall|id: u64| self.pending_has(id) <==> (prev.pending_has(id) && id != request_id) by {
            if self.pending_has(id) {
                let w = choose|k: int|
                    0 <= k < self.pending_model().len() && (#[trigger] self.pending_model()[k]).0
                        == id;
                let w2: int = if w < idx {
                    w
                } else {
                    w + 1
                };
                assert(prev.pending_model()[w2].0 == id);
                if id == request_id {
                    assert(prev.pending@[w2].request_id == request_id);
                    assert(w2 != idx);
                }
            }
            if prev.pending_has(id) && id != request_id {
                let w = choose|k: int|
                    0 <= k < prev.pending_model().len() && (#[trigger] prev.pending_model()[k]).0
                        == id;
                assert(prev.pending@[w].request_id == id);
                assert(w != idx);
                let w2: int = if w < idx {
                    w
                } else {
                    w - 1
                };
                assert(self.pending_model()[w2].0 == id);
            }
        }
        assert forall|i: int, j: int| 0 <= i < j < m.len() implies (#[trigger] m[i]).request_id != (
        #[trigger] m[j]).request_id by {}
        assert forall|i: int| 0 <= i < m.len() implies self.has_peer((#[trigger] m[i]).peer) by {
            assert(prev.has_peer(m[i].peer));
        }
        prev.pending_matches_outstanding();
        assert forall|id: u64| #[trigger] self.outstanding@.contains(id) <==> ((self.pending_has(
            id,
        ) && !queued_cancel(self.actions@, id)) || queued_start(self.actions@, id)) by {
            if queued_cancel(self.actions@, id) {
                let w = choose|k: int|
                    0 <= k < self.actions@.len() && !is_start(#[trigger] self.actions@[k])
                        && action_request_id(self.actions@[k]) == id;
                assert(false);
            }
            if queued_start(self.actions@, id) {
                let w = choose|k: int|
                    0 <= k < self.actions@.len() && is_start(#[trigger] self.actions@[k])
                        && action_request_id(self.actions@[k]) == id;
                assert(false);
            }
        }
    }

    proof fn lemma_after_remove_peer(
        &self,
        prev: &RelayCore,
        oldpeers: Seq<PeerEntry>,
        idx: int,
        peer: u64,
    )
        requires
            prev.wf(),
            prev.actions@.len() == 0,
            oldpeers == prev.peers@,
            0 <= idx < oldpeers.len(),
            oldpeers[idx].peer == peer,
            self.peers@ == oldpeers.subrange(0, idx) + oldpeers.subrange(
                idx + 1,
                oldpeers.len() as int,
            ),
            self.actions@ == prev.actions@,
            forall|id: u64, p: u64|
                #[trigger] pseq_has_entry(self.pending@, id, p) <==> (p != peer && exists|j: int|
                    0 <= j < prev.pending@.len() && (#[trigger] prev.pending@[j]).request_id == id
                        && prev.pending@[j].peer == p),
            forall|i: int, j: int|
                0 <= i < j < self.pending@.len() ==> (#[trigger] self.pending@[i]).request_id != (
                #[trigger] self.pending@[j]).request_id,
            self.outstanding@ == Set::new(
                |id: u64|
                    prev.outstanding@.contains(id) && !model_has_entry(
                        prev.pending_model(),
                        id,
                        peer,
                    ),
            ),
        ensures
            self.wf(),
            forall|p: u64| #[trigger] self.has_peer(p) <==> (prev.has_peer(p) && p != peer),
            forall|s: u64, p: u64|
                #[trigger] self.maps_source_to(s, p) <==> (prev.maps_source_to(s, p) && p != peer),
            forall|id: u64, p: u64|
                #[trigger] self.pending_entry(id, p) <==> (prev.pending_entry(id, p) && p != peer),
            forall|id: u64|
                #[trigger] self.pending_has(id) <==> (prev.pending_has(id) && !prev.pending_entry(
                    id,
                    peer,
                )),
            forall|id: u64|
                #[trigger] self.outstanding@.contains(id) <==> (prev.outstanding@.contains(id)
                    && !prev.pending_entry(id, peer)),
    {
        let ps = self.peers@;
        assert(self.peers_model() == ps);
        assert(prev.peers_model() == oldpeers);
        assert forall|k: int| 0 <= k < ps.len() implies ps[k] == (if k < idx {
            oldpeers[k]
        } else {
            oldpeers[k + 1]
        }) by {}
        // peer-map correspondence
        assert forall|p: u64| #[trigger] self.has_peer(p) <==> (prev.has_peer(p) && p != peer) by {
            if self.has_peer(p) {
                let w = choose|k: int| 0 <= k < ps.len() && (#[trigger] ps[k]).peer == p;
                let w2: int = if w < idx {
                    w
                } else {
                    w + 1
                };
                assert(oldpeers[w2].peer == p);
                if p == peer {
                    assert(w2 != idx);
                }
            }
            if prev.has_peer(p) && p != peer {
                let w = choose|k: int| 0 <= k < oldpeers.len() && (#[trigger] oldpeers[k]).peer == p;
                assert(w != idx);
                let w2: int = if w < idx {
                    w
                } else {
                    w - 1
                };
                assert(ps[w2].peer == p);
            }
        }
        assert forall|s: u64, p: u64| #[trigger] self.maps_source_to(s, p) <==> (
        prev.maps_source_to(s, p) && p != peer) by {
            if self.maps_source_to(s, p) {
                let w = choose|k: int|
                    0 <= k < ps.len() && (#[trigger] ps[k]).source == s && ps[k].peer == p;
                let w2: int = if w < idx {
                    w
                } else {
                    w + 1
                };
                assert(oldpeers[w2].source == s && oldpeers[w2].peer == p);
                if p == peer {
                    assert(w2 != idx);
                }
            }
            if prev.maps_source_to(s, p) && p != peer {
                let w = choose|k: int|
                    0 <= k < oldpeers.len() && (#[trigger] oldpeers[k]).source == s
                        && oldpeers[k].peer == p;
                assert(w != idx);
                let w2: int = if w < idx {
                    w
                } else {
                    w - 1
                };
                assert(ps[w2].source == s && ps[w2].peer == p);
            }
        }
        // pending-entry correspondence
        assert forall|id: u64, p: u64| #[trigger] self.pending_entry(id, p) <==> (
        prev.pending_entry(id, p) && p != peer) by {
            lemma_model_entry_equiv(self.pending@, id, p);
            lemma_model_entry_equiv(prev.pending@, id, p);
            if prev.pending_entry(id, p) {
                let w = choose|k: int|
                    0 <= k < prev.pending@.len() && (#[trigger] prev.pending@[k]).request_id == id
                        && prev.pending@[k].peer == p;
            }
            if exists|j: int|
                0 <= j < prev.pending@.len() && (#[trigger] prev.pending@[j]).request_id == id
                    && prev.pending@[j].peer == p {
                let w = choose|j: int|
                    0 <= j < prev.pending@.len() && (#[trigger] prev.pending@[j]).request_id == id
                        && prev.pending@[j].peer == p;
                assert(pseq_has_entry(prev.pending@, id, p));
            }
            assert(pseq_has_entry(self.pending@, id, p) <==> (p != peer && exists|j: int|
                0 <= j < prev.pending@.len() && (#[trigger] prev.pending@[j]).request_id == id
                    && prev.pending@[j].peer == p));
        }
        // id-level membership
        assert forall|id: u64| #[trigger] self.pending_has(id) <==> (prev.pending_has(id)
            && !prev.pending_entry(id, peer)) by {
            if self.pending_has(id) {
                let w = choose|k: int|
                    0 <= k < self.pending_model().len() && (#[trigger] self.pending_model()[k]).0
                        == id;
                let p = self.pending_model()[w].1;
                assert(self.pending_entry(id, p));
                assert(prev.pending_entry(id, p) && p != peer);
                if prev.pending_entry(id, peer) {
                    let w2 = choose|k: int|
                        0 <= k < prev.pending_model().len() && (
                        #[trigger] prev.pending_model()[k]).0 == id && prev.pending_model()[k].1
                            == peer;
                    let w3 = choose|k: int|
                        0 <= k < prev.pending_model().len() && (
                        #[trigger] prev.pending_model()[k]).0 == id && prev.pending_model()[k].1
                            == p;
                    assert(prev.pending@[w2].request_id == id && prev.pending@[w3].request_id
                        == id);
                    assert(w2 == w3);
                }
            }
            if prev.pending_has(id) && !prev.pending_entry(id, peer) {
                let w = choose|k: int|
                    0 <= k < prev.pending_model().len() && (#[trigger] prev.pending_model()[k]).0
                        == id;
                let p = prev.pending_model()[w].1;
                assert(prev.pending_entry(id, p));
                assert(p != peer);
                assert(self.pending_entry(id, p));
            }
        }
        // peers stay unique
        assert forall|i: int, j: int| 0 <= i < j < ps.len() implies (#[trigger] ps[i]).peer != (
        #[trigger] ps[j]).peer && ps[i].source != ps[j].source by {}
        // pending peers stay live
        assert forall|i: int| 0 <= i < self.pending@.len() implies self.has_peer(
            (#[trigger] self.pending@[i]).peer,
        ) by {
            let id = self.pending@[i].request_id;
            let p = self.pending@[i].peer;
            assert(self.pending_model()[i] == (id, p));
            assert(self.pending_entry(id, p));
            assert(prev.pending_entry(id, p) && p != peer);
        }
        // the outstanding equation (the queue is empty on both sides)
        prev.pending_matches_outstanding();
        assert forall|id: u64| #[trigger] self.outstanding@.contains(id) <==> ((self.pending_has(
            id,
        ) && !queued_cancel(self.actions@, id)) || queued_start(self.actions@, id)) by {
            if queued_cancel(self.actions@, id) {
                let w = choose|k: int|
                    0 <= k < self.actions@.len() && !is_start(#[trigger] self.actions@[k])
                        && action_request_id(self.actions@[k]) == id;
                assert(false);
            }
            if queued_start(self.actions@, id) {
                let w = choose|k: int|
                    0 <= k < self.actions@.len() && is_start(#[trigger] self.actions@[k])
                        && action_request_id(self.actions@[k]) == id;
                assert(false);
            }
            if self.pending_has(id) {
                let w = choose|k: int|
                    0 <= k < self.pending_model().len() && (#[trigger] self.pending_model()[k]).0
                        == id;
                let p = self.pending_model()[w].1;
                assert(self.pending_entry(id, p));
                assert(prev.pending_entry(id, p));
                assert(prev.pending_has(id));
                if model_has_entry(prev.pending_model(), id, peer) {
                    let w2 = choose|k: int|
                        0 <= k < prev.pending_model().len() && (
                        #[trigger] prev.pending_model()[k]).0 == id && prev.pending_model()[k].1
                            == peer;
                    let w3 = choose|k: int|
                        0 <= k < prev.pending_model().len() && (
                        #[trigger] prev.pending_model()[k]).0 == id && prev.pending_model()[k].1
                            == p;
                    assert(prev.pending@[w2].request_id == id && prev.pending@[w3].request_id
                        == id);
                    assert(w2 == w3);
                }
            } else {
                if prev.outstanding@.contains(id) && !model_has_entry(
                    prev.pending_model(),
                    id,
                    peer,
                ) {
                    let w = choose|k: int|
                        0 <= k < prev.pending_model().len() && (
                        #[trigger] prev.pending_model()[k]).0 == id;
                    let p = prev.pending_model()[w].1;
                    assert(prev.pending@[w].request_id == id && prev.pending@[w].peer == p);
                    assert(prev.pending_entry(id, p));
                    assert(p != peer);
                    assert(self.pending_entry(id, p));
                    assert(false);
                }
            }
        }
        // restate the outstanding change over entries
        assert forall|id: u64| #[trigger] self.outstanding@.contains(id) <==> (
        prev.outstanding@.contains(id) && !prev.pending_entry(id, peer)) by {}
    }
}

// ---------------------------------------------------------------------------
// Helper lemmas about action queues.
// ---------------------------------------------------------------------------

proof fn lemma_queued_concat(a: Seq<Action>, b: Seq<Action>)
    ensures
        forall|id: u64|
            #[trigger] queued_start(a + b, id) == (queued_start(a, id) || queued_start(b, id)),
        forall|id: u64|
            #[trigger] queued_cancel(a + b, id) == (queued_cancel(a, id) || queued_cancel(b, id)),
{
    let all = a + b;
    assert forall|id: u64| #[trigger] queued_start(all, id) == (queued_start(a, id) || queued_start(
        b,
        id,
    )) by {
        if queued_start(all, id) {
            let i = choose|i: int|
                0 <= i < all.len() && is_start(#[trigger] all[i]) && action_request_id(all[i])
                    == id;
            if i < a.len() {
                assert(all[i] == a[i]);
            } else {
                assert(all[i] == b[i - a.len()]);
            }
        }
        if queued_start(a, id) {
            let i = choose|i: int|
                0 <= i < a.len() && is_start(#[trigger] a[i]) && action_request_id(a[i]) == id;
            assert(all[i] == a[i]);
        }
        if queued_start(b, id) {
            let i = choose|i: int|
                0 <= i < b.len() && is_start(#[trigger] b[i]) && action_request_id(b[i]) == id;
            assert(all[a.len() + i] == b[i]);
        }
    }
    assert forall|id: u64| #[trigger] queued_cancel(all, id) == (queued_cancel(a, id)
        || queued_cancel(b, id)) by {
        if queued_cancel(all, id) {
            let i = choose|i: int|
                0 <= i < all.len() && !is_start(#[trigger] all[i]) && action_request_id(all[i])
                    == id;
            if i < a.len() {
                assert(all[i] == a[i]);
            } else {
                assert(all[i] == b[i - a.len()]);
            }
        }
        if queued_cancel(a, id) {
            let i = choose|i: int|
                0 <= i < a.len() && !is_start(#[trigger] a[i]) && action_request_id(a[i]) == id;
            assert(all[i] == a[i]);
        }
        if queued_cancel(b, id) {
            let i = choose|i: int|
                0 <= i < b.len() && !is_start(#[trigger] b[i]) && action_request_id(b[i]) == id;
            assert(all[a.len() + i] == b[i]);
        }
    }
}

/// How the queued-request predicates change when the head action is popped,
/// for a queue whose action ids are pairwise distinct.
proof fn lemma_queued_shift(s: Seq<Action>, id: u64)
    requires
        s.len() > 0,
        forall|i: int, j: int|
            0 <= i < j < s.len() ==> action_request_id(#[trigger] s[i]) != action_request_id(
                #[trigger] s[j],
            ),
    ensures
        id != action_request_id(s[0]) ==> queued_start(s.subrange(1, s.len() as int), id)
            == queued_start(s, id),
        id != action_request_id(s[0]) ==> queued_cancel(s.subrange(1, s.len() as int), id)
            == queued_cancel(s, id),
        id == action_request_id(s[0]) ==> !queued_start(s.subrange(1, s.len() as int), id)
            && !queued_cancel(s.subrange(1, s.len() as int), id),
{
    let tail = s.subrange(1, s.len() as int);
    assert forall|k: int| 0 <= k < tail.len() implies tail[k] == s[k + 1] by {}
    if id != action_request_id(s[0]) {
        if queued_start(s, id) {
            let w = choose|i: int|
                0 <= i < s.len() && is_start(#[trigger] s[i]) && action_request_id(s[i]) == id;
            assert(w != 0);
            assert(tail[w - 1] == s[w]);
        }
        if queued_start(tail, id) {
            let w = choose|i: int|
                0 <= i < tail.len() && is_start(#[trigger] tail[i]) && action_request_id(tail[i])
                    == id;
            assert(tail[w] == s[w + 1]);
        }
        if queued_cancel(s, id) {
            let w = choose|i: int|
                0 <= i < s.len() && !is_start(#[trigger] s[i]) && action_request_id(s[i]) == id;
            assert(w != 0);
            assert(tail[w - 1] == s[w]);
        }
        if queued_cancel(tail, id) {
            let w = choose|i: int|
                0 <= i < tail.len() && !is_start(#[trigger] tail[i]) && action_request_id(tail[i])
                    == id;
            assert(tail[w] == s[w + 1]);
        }
    } else {
        if queued_start(tail, id) {
            let w = choose|i: int|
                0 <= i < tail.len() && is_start(#[trigger] tail[i]) && action_request_id(tail[i])
                    == id;
            assert(tail[w] == s[w + 1]);
            assert(action_request_id(s[0]) != action_request_id(s[w + 1]));
        }
        if queued_cancel(tail, id) {
            let w = choose|i: int|
                0 <= i < tail.len() && !is_start(#[trigger] tail[i]) && action_request_id(tail[i])
                    == id;
            assert(tail[w] == s[w + 1]);
            assert(action_request_id(s[0]) != action_request_id(s[w + 1]));
        }
    }
}

// ---------------------------------------------------------------------------
// Small verified pieces of the dispatch and response paths.
// ---------------------------------------------------------------------------

/// The local finality state pushed to the network on a new finalization.
pub struct GrandpaState {
    pub set_id: u64,
    pub round_number: u64,
    pub commit_finalized_height: u32,
}

/// The finality state to publish after finalizing `finalized_number` under
/// authority-set `set_id`, or `None` when the height does not fit the wire
/// format's 32 bits. The round number is not tracked and is published as 1.
pub fn grandpa_state_to_publish(set_id: u64, finalized_number: u64) -> (r: Option<GrandpaState>)
    ensures
        match r {
            Some(g) => finalized_number <= u32::MAX as u64 && g.set_id == set_id && g.round_number
                == 1 && g.commit_finalized_height as u64 == finalized_number,
            None => finalized_number > u32::MAX as u64,
        },
{
    if finalized_number > u32::MAX as u64 {
        None
    } else {
        Some(
            GrandpaState {
                set_id,
                round_number: 1,
                commit_finalized_height: finalized_number as u32,
            },
        )
    }
}

/// The verifier's verdict on one requested storage key.
pub enum KeyProofOutcome {
    /// The proof covers the key; `Some` carries its value, `None` proves its
    /// absence.
    Proven(Option<Vec<u8>>),
    /// The proof does not verify for this key.
    Invalid,
}

/// Why a storage-proof response is reported to the machine as failed.
#[derive(Debug)]
pub enum StorageRequestError {
    InvalidProof,
}

pub open spec fn key_outcome_value(o: KeyProofOutcome) -> Option<Seq<u8>> {
    match o {
        KeyProofOutcome::Proven(Some(v)) => Some(v@),
        KeyProofOutcome::Proven(None) => None,
        KeyProofOutcome::Invalid => None,
    }
}

fn copy_opt_bytes(v: &Option<Vec<u8>>) -> (r: Option<Vec<u8>>)
    ensures
        match r {
            Some(b) => *v matches Some(b0) && b@ == b0@,
            None => *v is None,
        },
{
    match v {
        Some(b) => Some(crate::lossy::copy_bytes(b)),
        None => None,
    }
}

/// Assemble the per-key verdicts of a storage-proof response into the value
/// list handed to the state machine: one entry per requested key, in request
/// order, and an error as soon as any single key fails to verify.
pub fn assemble_storage_response(outcomes: &Vec<KeyProofOutcome>) -> (r: Result<
    Vec<Option<Vec<u8>>>,
    StorageRequestError,
>)
    ensures
        match r {
            Ok(values) => {
                &&& values@.len() == outcomes@.len()
                &&& forall|i: int|
                    0 <= i < outcomes@.len() ==> !((#[trigger] outcomes@[i]) matches
                        KeyProofOutcome::Invalid)
                &&& forall|i: int|
                    0 <= i < outcomes@.len() ==> (match values@[i] {
                        Some(v) => key_outcome_value(#[trigger] outcomes@[i]) == Some(v@),
                        None => key_outcome_value(#[trigger] outcomes@[i]) is None,
                    })
            },
            Err(_) => exists|i: int|
                0 <= i < outcomes@.len() && (#[trigger] outcomes@[i]) matches
                    KeyProofOutcome::Invalid,
        },
{
    let mut values: Vec<Option<Vec<u8>>> = Vec::new();
    let mut i: usize = 0;
    while i < outcomes.len()
        invariant
            i <= outcomes@.len(),
            values@.len() == i as int,
            forall|k: int|
                0 <= k < i as int ==> !((#[trigger] outcomes@[k]) matches KeyProofOutcome::Invalid),
            forall|k: int|
                0 <= k < i as int ==> (match values@[k] {
                    Some(v) => key_outcome_value(#[trigger] outcomes@[k]) == Some(v@),
                    None => key_outcome_value(#[trigger] outcomes@[k]) is None,
                }),
        decreases outcomes@.len() - i,
    {
        match &outcomes[i] {
            KeyProofOutcome::Proven(v) => {
                values.push(copy_opt_bytes(v));
            },
            KeyProofOutcome::Invalid => {
                proof {
                    assert(outcomes@[i as int] matches KeyProofOutcome::Invalid);
                }
                return Err(StorageRequestError::InvalidProof);
            },
        }
        i = i + 1;
    }
    Ok(values)
}

} // verus!
