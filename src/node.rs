//! The distributed-state component: the local copy of the shared map, its
//! version, the peer set and the transaction protocol that orders updates
//! across the cluster. The node decides; the caller delivers the events it
//! returns and hands it the events that arrive.
use vstd::prelude::*;
use std::collections::HashMap;
use crate::bytes::{
    i32_bytes, i32_of, u128_bytes, u128_of, i32_to_bytes, u128_to_bytes, i32_from_ne_bytes,
    u128_from_ne_bytes,
};
use crate::codec::{frame, serialize};
use crate::event::{
    clone_list, event_of, Dest, Dir, Event, EventView, APPROVE_TRANSACTION, BROADCAST_EVENT,
    COMMIT_TRANSACTION, GET_FROM_SHARED_MEMORY, NODE_CONNECTED, NODE_DISCONNECTED,
    REQUEST_TRANSACTION, TRANSACTION_FAILED, TRANSACTION_SUCCEEDED, TX_NODE_CONNECTED,
    TX_NODE_DISCONNECTED, TX_SYNC_SHARED_MEMORY, TX_UPDATE_SHARED_MEMORY, UPDATE_SHARED_MEMORY,
};
use crate::fsm::{table_view, views, FSM};
use crate::shared::{pairs_map, SharedMemory};

verus! {

/// The largest peer set: its size travels as an `i32`.
pub const MAX_PEERS: usize = 0x7fff_ffff;

/// The state of a node.
pub struct NodeView {
    pub memory: Map<i32, Seq<u8>>,
    pub version: u128,
    pub node_id: u128,
    pub peers: Seq<u128>,
    pub in_transaction: bool,
    pub is_master: bool,
    pub kind: i32,
    pub queue: Seq<EventView>,
    pub approvals: nat,
}

/// The `i32` in the `i`-th field of `data`, if there is one.
pub open spec fn field_i32(data: Seq<Seq<u8>>, i: int) -> Option<i32> {
    if 0 <= i < data.len() {
        i32_of(data[i])
    } else {
        None
    }
}

/// The `u128` in the `i`-th field of `data`, if there is one.
pub open spec fn field_u128(data: Seq<Seq<u8>>, i: int) -> Option<u128> {
    if 0 <= i < data.len() {
        u128_of(data[i])
    } else {
        None
    }
}

/// An approval of a peer's request, sent back along the request's meta chain.
pub open spec fn approve_ev(id: u128, meta: Seq<Seq<u8>>) -> EventView {
    event_of(
        Some(Dir::Outcoming),
        Some(Dest::Server),
        APPROVE_TRANSACTION,
        seq![u128_bytes(id)],
        meta,
    )
}

/// An event for the plugin manager, addressed by a meta chain.
pub open spec fn plugin_ev(kind: i32, data: Seq<Seq<u8>>, meta: Seq<Seq<u8>>) -> EventView {
    event_of(Some(Dir::Incoming), Some(Dest::PluginMan), kind, data, meta)
}

/// The identities of a peer set as byte strings.
pub open spec fn peer_fields(peers: Seq<u128>) -> Seq<Seq<u8>> {
    peers.map_values(|p: u128| u128_bytes(p))
}

/// A payload for the server to write to every listed peer.
pub open spec fn broadcast_ev(payload: Seq<u8>, peers: Seq<u128>) -> EventView {
    event_of(
        Some(Dir::Outcoming),
        Some(Dest::Server),
        BROADCAST_EVENT,
        seq![payload, i32_bytes(peers.len() as i32)] + peer_fields(peers),
        Seq::empty(),
    )
}

/// A request for a transaction of `kind` by node `id`.
pub open spec fn request_ev(kind: i32, id: u128, extra: Seq<Seq<u8>>) -> EventView {
    event_of(
        Some(Dir::Incoming),
        None,
        REQUEST_TRANSACTION,
        seq![i32_bytes(kind), u128_bytes(id)] + extra,
        Seq::empty(),
    )
}

/// The commit of a transaction whose fields are `data`.
pub open spec fn commit_ev(data: Seq<Seq<u8>>) -> EventView {
    event_of(Some(Dir::Incoming), None, COMMIT_TRANSACTION, data, Seq::empty())
}

/// A transaction waiting in the local queue.
pub open spec fn transaction_ev(kind: i32, data: Seq<Seq<u8>>, meta: Seq<Seq<u8>>) -> EventView {
    event_of(None, None, kind, data, meta)
}

/// The outcome of a peer's request against the local transaction state.
pub enum Contention {
    /// Malformed, or not from a peer.
    Ignore,
    /// Not the master of a transaction: approve and follow the peer.
    Approve,
    /// The local transaction wins: no approval.
    Keep,
    /// The local transaction yields and stays queued for later.
    Hold,
    /// The local transaction yields and is dropped.
    Drop,
    /// The local update yields, is dropped and its plugin is told.
    Fail,
}

/// The contention rules: the lower kind wins; between equal kinds a sync
/// with the higher version wins, and otherwise the higher identity.
pub open spec fn contention(s: NodeView, req: EventView) -> Contention {
    match (field_i32(req.data, 0), field_u128(req.data, 1)) {
        (Some(other_kind), Some(other_id)) => {
            if !s.peers.contains(other_id) {
                Contention::Ignore
            } else if !s.is_master {
                Contention::Approve
            } else if other_kind == s.kind {
                if s.kind == TX_SYNC_SHARED_MEMORY {
                    match field_u128(req.data, 2) {
                        Some(v) => if s.version > v || (s.version == v && s.node_id > other_id) {
                            Contention::Keep
                        } else {
                            Contention::Drop
                        },
                        None => Contention::Ignore,
                    }
                } else if s.node_id > other_id {
                    Contention::Keep
                } else if s.kind == TX_UPDATE_SHARED_MEMORY {
                    Contention::Fail
                } else {
                    Contention::Hold
                }
            } else if other_kind > s.kind {
                Contention::Keep
            } else if s.kind == TX_UPDATE_SHARED_MEMORY {
                Contention::Fail
            } else {
                Contention::Hold
            }
        },
        _ => Contention::Ignore,
    }
}

/// The state after a peer's request.
pub open spec fn after_request(s: NodeView, req: EventView) -> NodeView {
    let k = field_i32(req.data, 0)->0;
    match contention(s, req) {
        Contention::Approve => NodeView { in_transaction: true, kind: k, ..s },
        Contention::Hold => NodeView { is_master: false, approvals: 0, kind: k, ..s },
        Contention::Drop | Contention::Fail => NodeView {
            is_master: false,
            approvals: 0,
            kind: k,
            queue: s.queue.skip(1),
            ..s
        },
        _ => s,
    }
}

/// The events sent in answer to a peer's request.
pub open spec fn request_out(s: NodeView, req: EventView) -> Seq<EventView> {
    match contention(s, req) {
        Contention::Approve | Contention::Hold | Contention::Drop => seq![
            approve_ev(s.node_id, req.meta),
        ],
        Contention::Fail => seq![
            plugin_ev(TRANSACTION_FAILED, Seq::empty(), s.queue[0].meta),
            approve_ev(s.node_id, req.meta),
        ],
        _ => Seq::empty(),
    }
}

/// The version given to a committed update: the commit time, or one past
/// the local version when the clock has not moved beyond it.
pub open spec fn commit_version(version: u128, now: u128) -> u128 {
    if now > version {
        now
    } else if version < u128::MAX {
        (version + 1) as u128
    } else {
        version
    }
}

/// The fields of the commit of the transaction at the head of the queue.
pub open spec fn commit_data(s: NodeView, now: u128) -> Seq<Seq<u8>> {
    seq![u128_bytes(s.node_id), i32_bytes(s.kind)] + if s.kind == TX_UPDATE_SHARED_MEMORY {
        seq![u128_bytes(commit_version(s.version, now))] + s.queue[0].data
    } else {
        s.queue[0].data
    }
}

/// The extra fields of a request: a sync carries its version.
pub open spec fn proposal_extra(head: EventView) -> Seq<Seq<u8>> {
    if head.kind == TX_SYNC_SHARED_MEMORY && head.data.len() > 0 {
        seq![head.data[0]]
    } else {
        Seq::empty()
    }
}

/// Whether an update commit applies: well-formed and newer than the local
/// version.
pub open spec fn update_applies(s: NodeView, data: Seq<Seq<u8>>) -> bool {
    &&& data.len() >= 5
    &&& field_u128(data, 2) matches Some(v) && v > s.version
    &&& field_i32(data, 3) is Some
}

/// The peer set after a peer joined.
pub open spec fn joined(s: NodeView, id: Option<u128>) -> Seq<u128> {
    match id {
        Some(id) => if id != s.node_id && !s.peers.contains(id) && s.peers.len() < MAX_PEERS {
            s.peers.push(id)
        } else {
            s.peers
        },
        None => s.peers,
    }
}

/// `peers` without `id`.
pub open spec fn without(peers: Seq<u128>, id: u128) -> Seq<u128>
    decreases peers.len(),
{
    if peers.len() == 0 {
        peers
    } else {
        let w = without(peers.drop_last(), id);
        if peers.last() == id {
            w
        } else {
            w.push(peers.last())
        }
    }
}

/// The peer set after a peer left.
pub open spec fn left(peers: Seq<u128>, id: Option<u128>) -> Seq<u128> {
    match id {
        Some(id) => without(peers, id),
        None => peers,
    }
}

/// `e` is a sync transaction carrying `version` and the entries of `memory`,
/// each once.
pub open spec fn is_sync_of(e: EventView, version: u128, memory: Map<i32, Seq<u8>>) -> bool {
    &&& e.dir is None
    &&& e.dest is None
    &&& e.kind == TX_SYNC_SHARED_MEMORY
    &&& e.meta.len() == 0
    &&& e.data.len() >= 1
    &&& e.data[0] == u128_bytes(version)
    &&& (e.data.len() - 1) % 2 == 0
    &&& pairs_map(e.data.skip(1), ((e.data.len() - 1) / 2) as nat) == memory
    &&& (e.data.len() - 1) / 2 == memory.dom().len()
}

/// The end of a transaction: no transaction in progress.
pub open spec fn ended(s: NodeView, t: NodeView) -> bool {
    &&& !t.in_transaction
    &&& !t.is_master
    &&& t.approvals == 0
    &&& t.node_id == s.node_id
    &&& t.kind == s.kind
}

/// Performing the transaction whose commit fields are `data` takes `s` to
/// `t` and emits `out`.
pub open spec fn perform_post(
    s: NodeView,
    data: Seq<Seq<u8>>,
    meta: Seq<Seq<u8>>,
    t: NodeView,
    out: Seq<EventView>,
) -> bool {
    &&& ended(s, t)
    &&& match field_i32(data, 1) {
        Some(k) => if k == TX_NODE_CONNECTED {
            &&& t.memory == s.memory
            &&& t.version == s.version
            &&& t.peers == joined(s, field_u128(data, 2))
            &&& t.queue.len() == s.queue.len() + 1
            &&& t.queue.drop_last() == s.queue
            &&& is_sync_of(t.queue.last(), s.version, s.memory)
            &&& out.len() == 0
        } else if k == TX_NODE_DISCONNECTED {
            &&& t.memory == s.memory
            &&& t.version == s.version
            &&& t.peers == left(s.peers, field_u128(data, 2))
            &&& t.queue == s.queue
            &&& out.len() == 0
        } else if k == TX_SYNC_SHARED_MEMORY {
            &&& t.peers == s.peers
            &&& t.queue == s.queue
            &&& out.len() == 0
            &&& match field_u128(data, 2) {
                Some(v) => if v > s.version {
                    &&& t.memory == pairs_map(data.skip(3), ((data.len() - 3) / 2) as nat)
                    &&& t.version == v
                } else {
                    &&& t.memory == s.memory
                    &&& t.version == s.version
                },
                None => t.memory == s.memory && t.version == s.version,
            }
        } else if k == TX_UPDATE_SHARED_MEMORY {
            &&& t.peers == s.peers
            &&& t.queue == s.queue
            &&& if update_applies(s, data) {
                &&& t.memory == s.memory.insert(field_i32(data, 3)->0, data[4])
                &&& t.version == field_u128(data, 2)->0
            } else {
                &&& t.memory == s.memory
                &&& t.version == s.version
            }
            &&& out == if s.is_master {
                seq![
                    plugin_ev(
                        if update_applies(s, data) {
                            TRANSACTION_SUCCEEDED
                        } else {
                            TRANSACTION_FAILED
                        },
                        Seq::empty(),
                        meta,
                    ),
                ]
            } else {
                Seq::<EventView>::empty()
            }
        } else {
            &&& t.memory == s.memory
            &&& t.version == s.version
            &&& t.peers == s.peers
            &&& t.queue == s.queue
            &&& out.len() == 0
        },
        None => {
            &&& t.memory == s.memory
            &&& t.version == s.version
            &&& t.peers == s.peers
            &&& t.queue == s.queue
            &&& out.len() == 0
        },
    }
}

/// The invariant of a node's state: peers are distinct others, within the
/// bound; a master is in a transaction, whose event is the head of the queue
/// and of the recorded kind, and still awaits approvals.
pub open spec fn node_inv(s: NodeView) -> bool {
    &&& s.peers.no_duplicates()
    &&& !s.peers.contains(s.node_id)
    &&& s.peers.len() <= MAX_PEERS
    &&& s.is_master ==> s.in_transaction
    &&& s.is_master ==> s.queue.len() > 0 && s.kind == s.queue[0].kind
    &&& s.is_master ==> s.approvals < s.peers.len()
    &&& !s.is_master ==> s.approvals == 0
}

/// The peer set holds distinct others, within the bound.
pub open spec fn peers_ok(s: NodeView) -> bool {
    &&& s.peers.no_duplicates()
    &&& !s.peers.contains(s.node_id)
    &&& s.peers.len() <= MAX_PEERS
}

/// As `node_inv`, but a master may hold as many approvals as it has peers.
pub open spec fn node_inv_loose(s: NodeView) -> bool {
    &&& s.peers.no_duplicates()
    &&& !s.peers.contains(s.node_id)
    &&& s.peers.len() <= MAX_PEERS
    &&& s.is_master ==> s.in_transaction
    &&& s.is_master ==> s.queue.len() > 0 && s.kind == s.queue[0].kind
    &&& s.is_master ==> s.approvals <= s.peers.len()
    &&& !s.is_master ==> s.approvals == 0
}

/// The moves of the node's state machine: init (0), wait (1), handle an
/// incoming event (2), handle an outcoming event (3), stop (4).
pub open spec fn node_table() -> Map<u8, Seq<u8>> {
    map![
        0u8 => seq![1u8, 4u8],
        1u8 => seq![2u8, 3u8, 4u8],
        2u8 => seq![1u8, 4u8],
        3u8 => seq![1u8, 4u8],
        4u8 => Seq::<u8>::empty(),
    ]
}

/// A master whose every peer has approved.
pub open spec fn master_ready(s: NodeView) -> bool {
    s.is_master && s.approvals >= s.peers.len()
}

/// Committing the transaction at the head of the queue at time `now`:
/// broadcast the commit, then perform it.
pub open spec fn commit_post(s: NodeView, now: u128, t: NodeView, out: Seq<EventView>) -> bool {
    let data = commit_data(s, now);
    let s2 = NodeView { queue: s.queue.skip(1), approvals: 0, ..s };
    &&& out.len() >= 1
    &&& out[0] == broadcast_ev(frame(commit_ev(data)), s.peers)
    &&& perform_post(s2, data, s.queue[0].meta, t, out.skip(1))
}

/// Commits if every peer has approved; otherwise nothing changes.
pub open spec fn try_post(s: NodeView, now: u128, t: NodeView, out: Seq<EventView>) -> bool {
    if master_ready(s) {
        commit_post(s, now, t, out)
    } else {
        t == s && out.len() == 0
    }
}

/// Proposing the transaction at the head of the queue: broadcast the
/// request to the peers and become master; with no peers, commit at once.
pub open spec fn propose_post(
    s: NodeView,
    extra: Seq<Seq<u8>>,
    now: u128,
    t: NodeView,
    out: Seq<EventView>,
) -> bool {
    let kind = s.queue[0].kind;
    let s1 = NodeView { in_transaction: true, is_master: true, kind, approvals: 0, ..s };
    &&& out.len() >= 1
    &&& out[0] == broadcast_ev(frame(request_ev(kind, s.node_id, extra)), s.peers)
    &&& try_post(s1, now, t, out.skip(1))
}

/// When idle with a transaction queued, propose it.
pub open spec fn propose_next_post(s: NodeView, now: u128, t: NodeView, out: Seq<EventView>) -> bool {
    if !s.in_transaction && s.queue.len() > 0 {
        propose_post(s, proposal_extra(s.queue[0]), now, t, out)
    } else {
        t == s && out.len() == 0
    }
}

/// An approval from a peer counts when this node is master.
pub open spec fn approve_post(
    s: NodeView,
    e: EventView,
    now: u128,
    t: NodeView,
    out: Seq<EventView>,
) -> bool {
    match field_u128(e.data, 0) {
        Some(id) => if s.peers.contains(id) && s.is_master {
            try_post(NodeView { approvals: s.approvals + 1, ..s }, now, t, out)
        } else {
            t == s && out.len() == 0
        },
        None => t == s && out.len() == 0,
    }
}

/// A commit from a peer is performed.
pub open spec fn commit_in_post(s: NodeView, e: EventView, t: NodeView, out: Seq<EventView>) -> bool {
    match field_u128(e.data, 0) {
        Some(id) => if s.peers.contains(id) {
            perform_post(s, e.data, e.meta, t, out)
        } else {
            t == s && out.len() == 0
        },
        None => t == s && out.len() == 0,
    }
}

/// A new peer connection queues a `NodeConnected` transaction.
pub open spec fn connected_post(s: NodeView, e: EventView, t: NodeView, out: Seq<EventView>) -> bool {
    &&& t == NodeView {
        queue: s.queue.push(transaction_ev(TX_NODE_CONNECTED, e.data, Seq::empty())),
        ..s
    }
    &&& out.len() == 0
}

/// A lost peer connection leaves the quorum at once and queues a
/// `NodeDisconnected` transaction; a master that now has every approval
/// commits.
pub open spec fn disconnected_post(
    s: NodeView,
    e: EventView,
    now: u128,
    t: NodeView,
    out: Seq<EventView>,
) -> bool {
    let s1 = NodeView {
        peers: left(s.peers, field_u128(e.data, 0)),
        queue: s.queue.push(transaction_ev(TX_NODE_DISCONNECTED, e.data, Seq::empty())),
        ..s
    };
    try_post(s1, now, t, out)
}

/// A plugin's write is queued as an update transaction; a malformed one is
/// refused.
pub open spec fn update_post(s: NodeView, e: EventView, t: NodeView, out: Seq<EventView>) -> bool {
    if e.data.len() >= 2 && field_i32(e.data, 0) is Some {
        &&& t == NodeView {
            queue: s.queue.push(
                transaction_ev(TX_UPDATE_SHARED_MEMORY, seq![e.data[0], e.data[1]], e.meta),
            ),
            ..s
        }
        &&& out.len() == 0
    } else {
        &&& t == s
        &&& out == seq![plugin_ev(TRANSACTION_FAILED, Seq::empty(), e.meta)]
    }
}

/// The answer to a read: the value at the key, or nothing.
pub open spec fn get_reply(m: Map<i32, Seq<u8>>, data: Seq<Seq<u8>>) -> Seq<Seq<u8>> {
    match field_i32(data, 0) {
        Some(k) => if m.contains_key(k) {
            seq![m[k]]
        } else {
            Seq::empty()
        },
        None => Seq::empty(),
    }
}

/// The handling of an event that the node is to handle.
pub open spec fn incoming_post(
    s: NodeView,
    e: EventView,
    now: u128,
    t: NodeView,
    out: Seq<EventView>,
) -> bool {
    if e.kind == REQUEST_TRANSACTION {
        t == after_request(s, e) && out == request_out(s, e)
    } else if e.kind == APPROVE_TRANSACTION {
        approve_post(s, e, now, t, out)
    } else if e.kind == COMMIT_TRANSACTION {
        commit_in_post(s, e, t, out)
    } else if e.kind == NODE_CONNECTED {
        connected_post(s, e, t, out)
    } else if e.kind == NODE_DISCONNECTED {
        disconnected_post(s, e, now, t, out)
    } else {
        t == s && out.len() == 0
    }
}

/// The handling of an event that a plugin asks the node to carry out.
pub open spec fn outcoming_post(s: NodeView, e: EventView, t: NodeView, out: Seq<EventView>) -> bool {
    if e.kind == UPDATE_SHARED_MEMORY {
        update_post(s, e, t, out)
    } else if e.kind == GET_FROM_SHARED_MEMORY {
        t == s && out == seq![plugin_ev(GET_FROM_SHARED_MEMORY, get_reply(s.memory, e.data), e.meta)]
    } else {
        t == s && out.len() == 0
    }
}

/// Removing a value keeps the rest of the sequence's properties.
pub proof fn lemma_without(peers: Seq<u128>, id: u128)
    ensures
        forall|p: u128| without(peers, id).contains(p) <==> (peers.contains(p) && p != id),
        peers.no_duplicates() ==> without(peers, id).no_duplicates(),
        without(peers, id).len() <= peers.len(),
        peers.no_duplicates() && peers.contains(id) ==> without(peers, id).len() + 1
            == peers.len(),
        !peers.contains(id) ==> without(peers, id) == peers,
    decreases peers.len(),
{
    if peers.len() > 0 {
        let d = peers.drop_last();
        lemma_without(d, id);
        assert(peers == d.push(peers.last()));
        let w = without(d, id);
        assert forall|p: u128| peers.contains(p) <==> (d.contains(p) || p == peers.last()) by {
            if peers.contains(p) {
                let i = choose|i: int| 0 <= i < peers.len() && peers[i] == p;
                if i < peers.len() - 1 {
                    assert(d[i] == p);
                }
            }
            if d.contains(p) {
                let i = choose|i: int| 0 <= i < d.len() && d[i] == p;
                assert(peers[i] == p);
            }
            if p == peers.last() {
                assert(peers[peers.len() - 1] == p);
            }
        }
        if peers.last() != id {
            assert forall|p: u128| w.push(peers.last()).contains(p) <==> (w.contains(p) || p
                == peers.last()) by {
                if w.push(peers.last()).contains(p) {
                    let i = choose|i: int|
                        0 <= i < w.push(peers.last()).len() && w.push(peers.last())[i] == p;
                    if i < w.len() {
                        assert(w[i] == p);
                    }
                }
                if w.contains(p) {
                    let i = choose|i: int| 0 <= i < w.len() && w[i] == p;
                    assert(w.push(peers.last())[i] == p);
                }
                if p == peers.last() {
                    assert(w.push(peers.last())[w.len() as int] == p);
                }
            }
        }
        if peers.no_duplicates() {
            assert(d.no_duplicates());
            if peers.last() != id {
                assert(!d.contains(peers.last()));
            }
        }
        if peers.no_duplicates() && peers.contains(id) && peers.last() != id {
            let i = choose|i: int| 0 <= i < peers.len() && peers[i] == id;
            assert(d[i] == id);
        }
        if peers.no_duplicates() && peers.last() == id {
            assert(!d.contains(id));
        }
        if !peers.contains(id) {
            assert(!d.contains(id)) by {
                if d.contains(id) {
                    let i = choose|i: int| 0 <= i < d.len() && d[i] == id;
                    assert(peers[i] == id);
                }
            }
            assert(peers.last() != id);
        }
    }
}

/// One step of the node's machine from phase `phase`, holding `pending`, in
/// state `s`, given what arrived (`inbound`): the phase `next`, what it then
/// holds, the state `t` and the events sent.
pub open spec fn step_post(
    phase: u8,
    pending: Seq<EventView>,
    s: NodeView,
    inbound: Option<EventView>,
    now: u128,
    next: u8,
    pending_after: Seq<EventView>,
    t: NodeView,
    out: Seq<EventView>,
) -> bool {
    if phase == 0 {
        next == 1 && pending_after == pending && t == s && out.len() == 0
    } else if phase == 1 {
        match inbound {
            None => next == 1 && pending_after == pending && propose_next_post(s, now, t, out),
            Some(e) => {
                &&& t == s
                &&& out.len() == 0
                &&& if e.dir == Some(Dir::Incoming) {
                    next == 2 && pending_after == seq![e]
                } else if e.dir == Some(Dir::Outcoming) {
                    next == 3 && pending_after == seq![e]
                } else {
                    next == 1 && pending_after == pending
                }
            },
        }
    } else if phase == 2 {
        next == 1 && pending_after.len() == 0 && incoming_post(s, pending[0], now, t, out)
    } else if phase == 3 {
        next == 1 && pending_after.len() == 0 && outcoming_post(s, pending[0], t, out)
    } else {
        next == phase && pending_after == pending && t == s && out.len() == 0
    }
}

/// A committed write is read back: once the update of key `k` to `v` at the
/// head of the queue commits on this node, a read of `k` answers `v`, and
/// the writing plugin is told that it succeeded.
pub proof fn lemma_update_then_get(
    s: NodeView,
    now: u128,
    t: NodeView,
    out: Seq<EventView>,
    k: i32,
    v: Seq<u8>,
)
    requires
        node_inv_loose(s),
        master_ready(s),
        s.kind == TX_UPDATE_SHARED_MEMORY,
        s.queue[0].data == seq![i32_bytes(k), v],
        s.version < u128::MAX,
        commit_post(s, now, t, out),
    ensures
        get_reply(t.memory, seq![i32_bytes(k)]) == seq![v],
        out.len() == 2,
        out[1] == plugin_ev(TRANSACTION_SUCCEEDED, Seq::empty(), s.queue[0].meta),
{
    let data = commit_data(s, now);
    let s2 = NodeView { queue: s.queue.skip(1), approvals: 0, ..s };
    crate::bytes::lemma_i32_of_bytes(k);
    crate::bytes::lemma_i32_of_bytes(TX_UPDATE_SHARED_MEMORY);
    crate::bytes::lemma_u128_of_bytes(commit_version(s.version, now));
    assert(data[1] == i32_bytes(TX_UPDATE_SHARED_MEMORY));
    assert(data[2] == u128_bytes(commit_version(s.version, now)));
    assert(data[3] == i32_bytes(k));
    assert(data[4] == v);
    assert(update_applies(s2, data));
    assert(t.memory == s.memory.insert(k, v));
    assert(out.skip(1).len() == 1);
    assert(out[1] == out.skip(1)[0]);
}

/// A commit that is not newer than the local version changes neither the
/// map nor the version, for syncs and for updates alike.
pub proof fn lemma_stale_commit_is_noop(
    s: NodeView,
    data: Seq<Seq<u8>>,
    meta: Seq<Seq<u8>>,
    t: NodeView,
    out: Seq<EventView>,
)
    requires
        perform_post(s, data, meta, t, out),
        field_i32(data, 1) == Some(TX_SYNC_SHARED_MEMORY) || field_i32(data, 1) == Some(
            TX_UPDATE_SHARED_MEMORY,
        ),
        field_u128(data, 2) matches Some(v) && v <= s.version,
    ensures
        t.memory == s.memory,
        t.version == s.version,
        t.peers == s.peers,
        t.queue == s.queue,
{
}

/// With no peers, a proposal is its own quorum: the transaction commits in
/// the same step and the node leaves the transaction.
pub proof fn lemma_self_quorum(
    s: NodeView,
    extra: Seq<Seq<u8>>,
    now: u128,
    t: NodeView,
    out: Seq<EventView>,
)
    requires
        node_inv(s),
        !s.in_transaction,
        s.queue.len() > 0,
        s.peers.len() == 0,
        propose_post(s, extra, now, t, out),
    ensures
        out.len() >= 2,
        commit_post(
            NodeView {
                in_transaction: true,
                is_master: true,
                kind: s.queue[0].kind,
                approvals: 0,
                ..s
            },
            now,
            t,
            out.skip(1),
        ),
        !t.in_transaction,
        !t.is_master,
{
}

/// A peer that disconnects while this node is master leaves the quorum:
/// the number of approvals needed drops by one, and if every remaining peer
/// had approved, the transaction commits at once.
pub proof fn lemma_disconnect_shrinks_quorum(
    s: NodeView,
    e: EventView,
    now: u128,
    t: NodeView,
    out: Seq<EventView>,
    id: u128,
)
    requires
        node_inv(s),
        s.is_master,
        field_u128(e.data, 0) == Some(id),
        s.peers.contains(id),
        disconnected_post(s, e, now, t, out),
    ensures
        left(s.peers, Some(id)).len() + 1 == s.peers.len(),
        s.approvals + 1 == s.peers.len() ==> (out.len() >= 1 && !t.in_transaction
            && !t.is_master),
{
    lemma_without(s.peers, id);
}

/// A sync carries its proposer's map: a node with an older version that
/// performs the commit of a sync built from a map and version ends with
/// exactly that map and version.
pub proof fn lemma_sync_converges(
    memory: Map<i32, Seq<u8>>,
    version: u128,
    sync: EventView,
    proposer: u128,
    r: NodeView,
    meta: Seq<Seq<u8>>,
    t: NodeView,
    out: Seq<EventView>,
)
    requires
        is_sync_of(sync, version, memory),
        version > r.version,
        perform_post(
            r,
            seq![u128_bytes(proposer), i32_bytes(TX_SYNC_SHARED_MEMORY)] + sync.data,
            meta,
            t,
            out,
        ),
    ensures
        t.memory == memory,
        t.version == version,
        t.peers == r.peers,
{
    let data = seq![u128_bytes(proposer), i32_bytes(TX_SYNC_SHARED_MEMORY)] + sync.data;
    crate::bytes::lemma_i32_of_bytes(TX_SYNC_SHARED_MEMORY);
    crate::bytes::lemma_u128_of_bytes(version);
    assert(data[1] == i32_bytes(TX_SYNC_SHARED_MEMORY));
    assert(data[2] == u128_bytes(version));
    assert(data.skip(3) =~= sync.data.skip(1));
}

/// A node that performs the commit announcing a connected peer has that
/// peer in its peer set afterwards, unless the peer is the node itself or
/// the set is full.
pub proof fn lemma_connected_peer_joins(
    s: NodeView,
    id: u128,
    proposer: u128,
    rest: Seq<Seq<u8>>,
    meta: Seq<Seq<u8>>,
    t: NodeView,
    out: Seq<EventView>,
)
    requires
        id != s.node_id,
        s.peers.len() < MAX_PEERS,
        perform_post(
            s,
            seq![u128_bytes(proposer), i32_bytes(TX_NODE_CONNECTED), u128_bytes(id)] + rest,
            meta,
            t,
            out,
        ),
    ensures
        t.peers.contains(id),
        forall|p: u128| s.peers.contains(p) ==> t.peers.contains(p),
{
    let data = seq![u128_bytes(proposer), i32_bytes(TX_NODE_CONNECTED), u128_bytes(id)] + rest;
    crate::bytes::lemma_i32_of_bytes(TX_NODE_CONNECTED);
    crate::bytes::lemma_u128_of_bytes(id);
    assert(data[1] == i32_bytes(TX_NODE_CONNECTED));
    assert(data[2] == u128_bytes(id));
    if !s.peers.contains(id) {
        assert(t.peers == s.peers.push(id));
        assert(t.peers[s.peers.len() as int] == id);
        assert forall|p: u128| s.peers.contains(p) implies t.peers.contains(p) by {
            let k = choose|k: int| 0 <= k < s.peers.len() && s.peers[k] == p;
            assert(t.peers[k] == p);
        }
    }
}

/// Whether `e` asks the server to broadcast a transaction request.
pub open spec fn is_request_broadcast(e: EventView) -> bool {
    &&& e.kind == BROADCAST_EVENT
    &&& e.data.len() > 0
    &&& exists|k: i32, id: u128, extra: Seq<Seq<u8>>| e.data[0] == #[trigger] frame(request_ev(k, id, extra))
}

/// A commit's broadcast is no request's.
proof fn lemma_commit_is_no_request(data: Seq<Seq<u8>>, peers: Seq<u128>)
    ensures
        !is_request_broadcast(broadcast_ev(frame(commit_ev(data)), peers)),
{
    let b = broadcast_ev(frame(commit_ev(data)), peers);
    if is_request_broadcast(b) {
        let (k, id, extra) = choose|k: i32, id: u128, extra: Seq<Seq<u8>>|
            b.data[0] == #[trigger] frame(request_ev(k, id, extra));
        assert(b.data[0] == frame(commit_ev(data)));
        assert(frame(commit_ev(data)) + Seq::<u8>::empty() =~= frame(request_ev(k, id, extra))
            + Seq::<u8>::empty());
        crate::codec::lemma_frame_unique(
            commit_ev(data),
            request_ev(k, id, extra),
            Seq::empty(),
            Seq::empty(),
        );
    }
}

/// Performing a transaction sends no request.
proof fn lemma_perform_no_request(
    s: NodeView,
    data: Seq<Seq<u8>>,
    meta: Seq<Seq<u8>>,
    t: NodeView,
    out: Seq<EventView>,
)
    requires
        perform_post(s, data, meta, t, out),
    ensures
        forall|i: int| 0 <= i < out.len() ==> !is_request_broadcast(#[trigger] out[i]),
{
}

/// Committing sends no request.
proof fn lemma_try_no_request(s: NodeView, now: u128, t: NodeView, out: Seq<EventView>)
    requires
        try_post(s, now, t, out),
    ensures
        forall|i: int| 0 <= i < out.len() ==> !is_request_broadcast(#[trigger] out[i]),
{
    if master_ready(s) {
        let data = commit_data(s, now);
        let s2 = NodeView { queue: s.queue.skip(1), approvals: 0, ..s };
        lemma_commit_is_no_request(data, s.peers);
        lemma_perform_no_request(s2, data, s.queue[0].meta, t, out.skip(1));
        assert forall|i: int| 0 <= i < out.len() implies !is_request_broadcast(#[trigger] out[i]) by {
            if i > 0 {
                assert(out[i] == out.skip(1)[i - 1]);
            }
        }
    }
}

/// One transaction at a time: a step that begins while a transaction is in
/// progress sends no request for another one.
pub proof fn lemma_no_request_in_transaction(
    phase: u8,
    pending: Seq<EventView>,
    s: NodeView,
    inbound: Option<EventView>,
    now: u128,
    next: u8,
    pending_after: Seq<EventView>,
    t: NodeView,
    out: Seq<EventView>,
)
    requires
        s.in_transaction,
        step_post(phase, pending, s, inbound, now, next, pending_after, t, out),
    ensures
        forall|i: int| 0 <= i < out.len() ==> !is_request_broadcast(#[trigger] out[i]),
{
    if phase == 2 {
        let e = pending[0];
        if e.kind == REQUEST_TRANSACTION {
        } else if e.kind == APPROVE_TRANSACTION {
            match field_u128(e.data, 0) {
                Some(id) => if s.peers.contains(id) && s.is_master {
                    lemma_try_no_request(NodeView { approvals: s.approvals + 1, ..s }, now, t, out);
                },
                None => {},
            }
        } else if e.kind == COMMIT_TRANSACTION {
            match field_u128(e.data, 0) {
                Some(id) => if s.peers.contains(id) {
                    lemma_perform_no_request(s, e.data, e.meta, t, out);
                },
                None => {},
            }
        } else if e.kind == NODE_DISCONNECTED {
            let s1 = NodeView {
                peers: left(s.peers, field_u128(e.data, 0)),
                queue: s.queue.push(transaction_ev(TX_NODE_DISCONNECTED, e.data, Seq::empty())),
                ..s
            };
            lemma_try_no_request(s1, now, t, out);
        }
    }
}

/// The node's errors: a move that its state machine does not allow.
#[derive(Clone, Copy, Debug, PartialEq, Eq, Structural)]
pub enum NodeError {
    InternalError,
}

/// One node's distributed state.
pub struct Node {
    fsm: FSM,
    shared_memory: SharedMemory,
    shared_memory_version: u128,
    node_id: u128,
    nodes: Vec<u128>,
    is_transaction: bool,
    is_transaction_master: bool,
    transaction_kind: i32,
    transaction_queue: Vec<Event>,
    transaction_approvals: usize,
}

/// Reads the `i32` in the `i`-th field.
fn data_i32(data: &Vec<Vec<u8>>, i: usize) -> (r: Option<i32>)
    ensures
        r == field_i32(data.deep_view(), i as int),
{
    if i < data.len() {
        proof {
            crate::shared::lemma_bytes_deep_view(data@[i as int]);
        }
        match i32_from_ne_bytes(data[i].as_slice()) {
            Ok(v) => Some(v),
            Err(_) => None,
        }
    } else {
        None
    }
}

/// Reads the `u128` in the `i`-th field.
fn data_u128(data: &Vec<Vec<u8>>, i: usize) -> (r: Option<u128>)
    ensures
        r == field_u128(data.deep_view(), i as int),
{
    if i < data.len() {
        proof {
            crate::shared::lemma_bytes_deep_view(data@[i as int]);
        }
        match u128_from_ne_bytes(data[i].as_slice()) {
            Ok(v) => Some(v),
            Err(_) => None,
        }
    } else {
        None
    }
}

impl View for Node {
    type V = NodeView;

    closed spec fn view(&self) -> NodeView {
        NodeView {
            memory: self.shared_memory@,
            version: self.shared_memory_version,
            node_id: self.node_id,
            peers: self.nodes@,
            in_transaction: self.is_transaction,
            is_master: self.is_transaction_master,
            kind: self.transaction_kind,
            queue: views(self.transaction_queue@),
            approvals: self.transaction_approvals as nat,
        }
    }
}

/// A list of events, one.
fn one(e: Event) -> (r: Vec<Event>)
    ensures
        views(r@) == seq![e@],
{
    let mut r: Vec<Event> = Vec::new();
    r.push(e);
    assert(views(r@) =~= seq![e@]);
    r
}

/// Puts `e` in front of a list of events.
fn prepend(e: Event, rest: Vec<Event>) -> (r: Vec<Event>)
    ensures
        views(r@).len() == views(rest@).len() + 1,
        views(r@)[0] == e@,
        views(r@).skip(1) == views(rest@),
{
    let ghost tail = rest@;
    let mut r: Vec<Event> = Vec::new();
    r.push(e);
    let mut rest = rest;
    r.append(&mut rest);
    assert(views(r@).skip(1) =~= views(tail));
    r
}

impl Node {
    /// The node's bookkeeping holds together: the view's invariant, a
    /// well-formed map, and the state machine's table.
    pub closed spec fn wf(&self) -> bool {
        &&& node_inv(self@)
        &&& self.sound()
    }

    /// The map, the step machine and its queue hold together.
    pub closed spec fn sound(&self) -> bool {
        &&& self.shared_memory.wf()
        &&& self.fsm.table() == node_table()
        &&& self.fsm.current() <= 4
        &&& (self.fsm.current() == 2 || self.fsm.current() == 3) ==> self.fsm.queue().len() == 1
        &&& self.fsm.current() == 2 ==> self.fsm.queue()[0].dir == Some(Dir::Incoming)
        &&& self.fsm.current() == 3 ==> self.fsm.queue()[0].dir == Some(Dir::Outcoming)
        &&& (self.fsm.current() != 2 && self.fsm.current() != 3) ==> self.fsm.queue().len() == 0
    }

    /// The event that the step machine holds for its next step.
    pub closed spec fn pending(&self) -> Seq<EventView> {
        self.fsm.queue()
    }

    /// A well-formed node satisfies the invariant of its state: at most one
    /// transaction is in progress, a master's transaction is the head of the
    /// queue, and a master is in a transaction.
    pub proof fn lemma_wf_inv(&self)
        requires
            self.wf(),
        ensures
            node_inv(self@),
    {
    }

    /// The state of the node's step machine.
    pub closed spec fn phase(&self) -> u8 {
        self.fsm.current()
    }

    /// A node with the given identity, an empty map at version 0, no
    /// peers and no transaction.
    pub fn new(node_id: u128) -> (r: Node)
        ensures
            r.wf(),
            r.phase() == 0,
            r@ == (NodeView {
                memory: Map::empty(),
                version: 0,
                node_id,
                peers: Seq::empty(),
                in_transaction: false,
                is_master: false,
                kind: 0,
                queue: Seq::empty(),
                approvals: 0,
            }),
    {
        broadcast use vstd::std_specs::hash::group_hash_axioms;

        let mut table: HashMap<u8, Vec<u8>> = HashMap::new();
        table.insert(0, vec![1, 4]);
        table.insert(1, vec![2, 3, 4]);
        table.insert(2, vec![1, 4]);
        table.insert(3, vec![1, 4]);
        table.insert(4, vec![]);
        assert(table_view(table@) =~= node_table());
        let fsm = FSM::new(0, table);
        assert(fsm.queue().len() == 0);
        let r = Node {
            fsm,
            shared_memory: SharedMemory::new(),
            shared_memory_version: 0,
            node_id,
            nodes: Vec::new(),
            is_transaction: false,
            is_transaction_master: false,
            transaction_kind: 0,
            transaction_queue: Vec::new(),
            transaction_approvals: 0,
        };
        assert(r@.queue =~= Seq::<EventView>::empty());
        r
    }

    /// This node's identity.
    pub fn get_node_id(&self) -> (r: u128)
        ensures
            r == self@.node_id,
    {
        self.node_id
    }

    /// Whether `id` is a peer.
    fn is_peer(&self, id: u128) -> (r: bool)
        ensures
            r == self@.peers.contains(id),
    {
        let mut i: usize = 0;
        while i < self.nodes.len()
            invariant
                i <= self.nodes@.len(),
                forall|j: int| 0 <= j < i ==> self.nodes@[j] != id,
            decreases self.nodes.len() - i,
        {
            if self.nodes[i] == id {
                return true;
            }
            i += 1;
        }
        false
    }

    /// An approval carrying this node's identity along `meta`.
    fn approve_event(&self, meta: Vec<Vec<u8>>) -> (r: Event)
        ensures
            r@ == approve_ev(self@.node_id, meta.deep_view()),
    {
        let mut data: Vec<Vec<u8>> = Vec::new();
        let id = u128_to_bytes(self.node_id);
        proof {
            crate::shared::lemma_bytes_deep_view(id);
        }
        data.push(id);
        assert(data.deep_view() =~= seq![u128_bytes(self.node_id)]);
        Event::new(Some(Dir::Outcoming), Some(Dest::Server), APPROVE_TRANSACTION, data, meta)
    }

    /// An event for the plugin manager along `meta`, without data.
    fn plugin_event(kind: i32, meta: Vec<Vec<u8>>) -> (r: Event)
        ensures
            r@ == plugin_ev(kind, Seq::empty(), meta.deep_view()),
    {
        let data: Vec<Vec<u8>> = Vec::new();
        assert(data.deep_view() =~= Seq::<Seq<u8>>::empty());
        Event::new(Some(Dir::Incoming), Some(Dest::PluginMan), kind, data, meta)
    }

    /// Wraps `inner` for the server to write to every peer.
    fn broadcast_to_peers(&self, inner: Event) -> (r: Event)
        requires
            peers_ok(self@),
        ensures
            r@ == broadcast_ev(frame(inner@), self@.peers),
    {
        let ghost payload = frame(inner@);
        let mut data: Vec<Vec<u8>> = Vec::new();
        let bytes = serialize(inner);
        let count = i32_to_bytes(self.nodes.len() as i32);
        proof {
            crate::shared::lemma_bytes_deep_view(bytes);
            crate::shared::lemma_bytes_deep_view(count);
        }
        data.push(bytes);
        data.push(count);
        let ghost head = seq![payload, i32_bytes(self@.peers.len() as i32)];
        assert(data.deep_view() =~= head);
        let mut i: usize = 0;
        while i < self.nodes.len()
            invariant
                i <= self.nodes@.len(),
                data.deep_view() == head + peer_fields(self.nodes@.take(i as int)),
            decreases self.nodes.len() - i,
        {
            let b = u128_to_bytes(self.nodes[i]);
            proof {
                crate::shared::lemma_bytes_deep_view(b);
            }
            let ghost prev = data.deep_view();
            data.push(b);
            assert(data.deep_view() =~= prev.push(b@));
            assert(peer_fields(self.nodes@.take(i + 1)) =~= peer_fields(
                self.nodes@.take(i as int),
            ).push(u128_bytes(self.nodes@[i as int])));
            assert(data.deep_view() =~= head + peer_fields(self.nodes@.take(i + 1)));
            i += 1;
        }
        assert(self.nodes@.take(i as int) =~= self.nodes@);
        let meta: Vec<Vec<u8>> = Vec::new();
        assert(meta.deep_view() =~= Seq::<Seq<u8>>::empty());
        Event::new(Some(Dir::Outcoming), Some(Dest::Server), BROADCAST_EVENT, data, meta)
    }

    /// Removes `id` from the peer set.
    fn remove_peer(&mut self, id: u128)
        requires
            old(self).sound(),
            peers_ok(old(self)@),
        ensures
            final(self).sound(),
            final(self)@ == (NodeView { peers: without(old(self)@.peers, id), ..old(self)@ }),
            peers_ok(final(self)@),
            final(self).fsm == old(self).fsm,
    {
        proof {
            lemma_without(self.nodes@, id);
        }
        let mut kept: Vec<u128> = Vec::new();
        let mut i: usize = 0;
        while i < self.nodes.len()
            invariant
                i <= self.nodes@.len(),
                kept@ == without(self.nodes@.take(i as int), id),
            decreases self.nodes.len() - i,
        {
            assert(self.nodes@.take(i + 1).drop_last() =~= self.nodes@.take(i as int));
            if self.nodes[i] != id {
                kept.push(self.nodes[i]);
            }
            i += 1;
        }
        assert(self.nodes@.take(i as int) =~= self.nodes@);
        self.nodes = kept;
    }

    /// Performs the transaction whose commit fields are `event.data`; the
    /// proposing plugin's meta chain is `event.meta`.
    pub fn handle_perform_transaction(&mut self, event: Event) -> (out: Vec<Event>)
        requires
            old(self).sound(),
            peers_ok(old(self)@),
        ensures
            final(self).wf(),
            final(self).phase() == old(self).phase(),
            final(self).pending() == old(self).pending(),
            perform_post(old(self)@, event@.data, event@.meta, final(self)@, views(out@)),
    {
        let ghost s = self@;
        let mut out: Vec<Event> = Vec::new();
        match data_i32(&event.data, 1) {
            Some(k) => {
                if k == TX_NODE_CONNECTED {
                    match data_u128(&event.data, 2) {
                        Some(id) => {
                            if id != self.node_id && !self.is_peer(id) && self.nodes.len()
                                < MAX_PEERS {
                                self.nodes.push(id);
                                proof {
                                    assert forall|p: u128| self.nodes@.contains(p) implies (s.peers.contains(p) || p == id) by {
                                        if self.nodes@.contains(p) {
                                            let i = choose|i: int| 0 <= i < self.nodes@.len() && self.nodes@[i] == p;
                                            if i < s.peers.len() {
                                                assert(s.peers[i] == p);
                                            }
                                        }
                                    }
                                }
                            }
                        },
                        None => {},
                    }
                    let mut data: Vec<Vec<u8>> = Vec::new();
                    let vb = u128_to_bytes(self.shared_memory_version);
                    proof {
                        crate::shared::lemma_bytes_deep_view(vb);
                    }
                    data.push(vb);
                    let mut pairs = self.shared_memory.to_pairs();
                    let ghost pv = pairs.deep_view();
                    let ghost d0 = data.deep_view();
                    data.append(&mut pairs);
                    assert(data.deep_view() =~= d0 + pv);
                    assert(data.deep_view().skip(1) =~= pv);
                    let meta: Vec<Vec<u8>> = Vec::new();
                    assert(meta.deep_view() =~= Seq::<Seq<u8>>::empty());
                    let sync = Event::new(None, None, TX_SYNC_SHARED_MEMORY, data, meta);
                    let ghost q = self.transaction_queue@;
                    self.transaction_queue.push(sync);
                    assert(views(self.transaction_queue@) =~= views(q).push(sync@));
                    assert(views(self.transaction_queue@).drop_last() =~= views(q));
                } else if k == TX_NODE_DISCONNECTED {
                    match data_u128(&event.data, 2) {
                        Some(id) => {
                            self.remove_peer(id);
                        },
                        None => {},
                    }
                } else if k == TX_SYNC_SHARED_MEMORY {
                    match data_u128(&event.data, 2) {
                        Some(v) => {
                            if v > self.shared_memory_version {
                                self.shared_memory.load_pairs(&event.data, 3);
                                self.shared_memory_version = v;
                            }
                        },
                        None => {},
                    }
                } else if k == TX_UPDATE_SHARED_MEMORY {
                    let mut applies = false;
                    match (data_u128(&event.data, 2), data_i32(&event.data, 3)) {
                        (Some(v), Some(key)) => {
                            if event.data.len() >= 5 && v > self.shared_memory_version {
                                let value = event.data[4].clone();
                                proof {
                                    crate::shared::lemma_bytes_deep_view(event.data@[4]);
                                }
                                assert(value@ =~= event@.data[4]);
                                self.shared_memory.insert(key, value);
                                self.shared_memory_version = v;
                                applies = true;
                            }
                        },
                        _ => {},
                    }
                    assert(applies == update_applies(s, event@.data));
                    if self.is_transaction_master {
                        let kind = if applies {
                            TRANSACTION_SUCCEEDED
                        } else {
                            TRANSACTION_FAILED
                        };
                        out = one(Self::plugin_event(kind, event.meta));
                    } else {
                        assert(views(out@) =~= Seq::<EventView>::empty());
                    }
                }
            },
            None => {},
        }
        self.is_transaction = false;
        self.is_transaction_master = false;
        self.transaction_approvals = 0;
        out
    }

    /// Commits the current transaction once every peer has approved it.
    pub fn handle_try_perform_transaction(&mut self, now: u128) -> (out: Vec<Event>)
        requires
            old(self).sound(),
            node_inv_loose(old(self)@),
        ensures
            final(self).wf(),
            final(self).phase() == old(self).phase(),
            final(self).pending() == old(self).pending(),
            try_post(old(self)@, now, final(self)@, views(out@)),
    {
        let ghost s = self@;
        if self.is_transaction_master && self.transaction_approvals >= self.nodes.len() {
            let ghost q = self.transaction_queue@;
            let t = self.transaction_queue.remove(0);
            assert(views(self.transaction_queue@) =~= views(q).skip(1));
            assert(t@ == s.queue[0]);
            let mut data: Vec<Vec<u8>> = Vec::new();
            let idb = u128_to_bytes(self.node_id);
            let kb = i32_to_bytes(self.transaction_kind);
            proof {
                crate::shared::lemma_bytes_deep_view(idb);
                crate::shared::lemma_bytes_deep_view(kb);
            }
            data.push(idb);
            data.push(kb);
            if self.transaction_kind == TX_UPDATE_SHARED_MEMORY {
                let v = self.shared_memory_version;
                let cv: u128 = if now > v {
                    now
                } else if v < u128::MAX {
                    v + 1
                } else {
                    v
                };
                let vb = u128_to_bytes(cv);
                proof {
                    crate::shared::lemma_bytes_deep_view(vb);
                }
                data.push(vb);
            }
            let ghost d3 = data.deep_view();
            let Event { dir: _, dest: _, kind: _, data: tdata, meta: tmeta } = t;
            let mut tdata = tdata;
            data.append(&mut tdata);
            assert(data.deep_view() =~= d3 + s.queue[0].data);
            assert(data.deep_view() =~= commit_data(s, now));
            self.transaction_approvals = 0;
            let empty: Vec<Vec<u8>> = Vec::new();
            assert(empty.deep_view() =~= Seq::<Seq<u8>>::empty());
            let commit = Event::new(
                Some(Dir::Incoming),
                None,
                COMMIT_TRANSACTION,
                clone_list(&data),
                empty,
            );
            let b = self.broadcast_to_peers(commit);
            let performed = Event::new(None, None, COMMIT_TRANSACTION, data, tmeta);
            let rest = self.handle_perform_transaction(performed);
            prepend(b, rest)
        } else {
            let out: Vec<Event> = Vec::new();
            assert(views(out@) =~= Seq::<EventView>::empty());
            out
        }
    }

    /// Proposes the transaction at the head of the queue, of kind
    /// `transaction_kind`, with `additional_data` after the kind and this
    /// node's identity.
    pub fn handle_request_transaction_outcoming(
        &mut self,
        transaction_kind: i32,
        additional_data: Vec<Vec<u8>>,
        now: u128,
    ) -> (out: Vec<Event>)
        requires
            old(self).wf(),
            !old(self)@.in_transaction,
            old(self)@.queue.len() > 0,
            old(self)@.queue[0].kind == transaction_kind,
        ensures
            final(self).wf(),
            final(self).phase() == old(self).phase(),
            final(self).pending() == old(self).pending(),
            propose_post(old(self)@, additional_data.deep_view(), now, final(self)@, views(out@)),
    {
        let ghost extra = additional_data.deep_view();
        let mut data: Vec<Vec<u8>> = Vec::new();
        let kb = i32_to_bytes(transaction_kind);
        let idb = u128_to_bytes(self.node_id);
        proof {
            crate::shared::lemma_bytes_deep_view(kb);
            crate::shared::lemma_bytes_deep_view(idb);
        }
        data.push(kb);
        data.push(idb);
        let ghost d2 = data.deep_view();
        assert(d2 =~= seq![i32_bytes(transaction_kind), u128_bytes(self.node_id)]);
        let mut extra_v = additional_data;
        data.append(&mut extra_v);
        assert(data.deep_view() =~= d2 + extra);
        let empty: Vec<Vec<u8>> = Vec::new();
        assert(empty.deep_view() =~= Seq::<Seq<u8>>::empty());
        let request = Event::new(Some(Dir::Incoming), None, REQUEST_TRANSACTION, data, empty);
        assert(request@ == request_ev(transaction_kind, self.node_id, extra));
        let b = self.broadcast_to_peers(request);
        self.is_transaction = true;
        self.is_transaction_master = true;
        self.transaction_kind = transaction_kind;
        self.transaction_approvals = 0;
        let rest = self.handle_try_perform_transaction(now);
        prepend(b, rest)
    }

    /// When no transaction is in progress, proposes the next queued one.
    pub fn propose_next(&mut self, now: u128) -> (out: Vec<Event>)
        requires
            old(self).wf(),
        ensures
            final(self).wf(),
            final(self).phase() == old(self).phase(),
            final(self).pending() == old(self).pending(),
            propose_next_post(old(self)@, now, final(self)@, views(out@)),
    {
        if !self.is_transaction && self.transaction_queue.len() > 0 {
            let kind = self.transaction_queue[0].kind;
            let mut extra: Vec<Vec<u8>> = Vec::new();
            if kind == TX_SYNC_SHARED_MEMORY && self.transaction_queue[0].data.len() > 0 {
                let v = self.transaction_queue[0].data[0].clone();
                proof {
                    crate::shared::lemma_bytes_deep_view(v);
                    crate::shared::lemma_bytes_deep_view(self.transaction_queue@[0].data@[0]);
                }
                assert(v@ =~= self.transaction_queue@[0].data@[0]@);
                extra.push(v);
            }
            assert(extra.deep_view() =~= proposal_extra(self@.queue[0]));
            self.handle_request_transaction_outcoming(kind, extra, now)
        } else {
            let out: Vec<Event> = Vec::new();
            assert(views(out@) =~= Seq::<EventView>::empty());
            out
        }
    }

    /// Counts a peer's approval of this node's transaction.
    pub fn handle_approve_transaction_incoming(&mut self, event: Event, now: u128) -> (out: Vec<
        Event,
    >)
        requires
            old(self).wf(),
        ensures
            final(self).wf(),
            final(self).phase() == old(self).phase(),
            final(self).pending() == old(self).pending(),
            approve_post(old(self)@, event@, now, final(self)@, views(out@)),
    {
        match data_u128(&event.data, 0) {
            Some(id) => {
                if self.is_peer(id) && self.is_transaction_master {
                    self.transaction_approvals = self.transaction_approvals + 1;
                    return self.handle_try_perform_transaction(now);
                }
            },
            None => {},
        }
        let out: Vec<Event> = Vec::new();
        assert(views(out@) =~= Seq::<EventView>::empty());
        out
    }

    /// Performs a transaction that a peer committed.
    pub fn handle_commit_transaction_incoming(&mut self, event: Event) -> (out: Vec<Event>)
        requires
            old(self).wf(),
        ensures
            final(self).wf(),
            final(self).phase() == old(self).phase(),
            final(self).pending() == old(self).pending(),
            commit_in_post(old(self)@, event@, final(self)@, views(out@)),
    {
        match data_u128(&event.data, 0) {
            Some(id) => {
                if self.is_peer(id) {
                    return self.handle_perform_transaction(event);
                }
            },
            None => {},
        }
        let out: Vec<Event> = Vec::new();
        assert(views(out@) =~= Seq::<EventView>::empty());
        out
    }

    /// Appends a transaction to the queue.
    fn enqueue(&mut self, kind: i32, data: Vec<Vec<u8>>, meta: Vec<Vec<u8>>)
        requires
            old(self).wf(),
        ensures
            final(self).wf(),
            final(self).phase() == old(self).phase(),
            final(self).pending() == old(self).pending(),
            final(self)@ == (NodeView {
                queue: old(self)@.queue.push(
                    transaction_ev(kind, data.deep_view(), meta.deep_view()),
                ),
                ..old(self)@
            }),
    {
        let e = Event::new(None, None, kind, data, meta);
        let ghost q = self.transaction_queue@;
        self.transaction_queue.push(e);
        assert(views(self.transaction_queue@) =~= views(q).push(e@));
    }

    /// Queues a `NodeConnected` transaction for a new peer connection.
    pub fn handle_request_new_connection_outcoming(&mut self, event: Event) -> (out: Vec<Event>)
        requires
            old(self).wf(),
        ensures
            final(self).wf(),
            final(self).phase() == old(self).phase(),
            final(self).pending() == old(self).pending(),
            connected_post(old(self)@, event@, final(self)@, views(out@)),
    {
        let empty: Vec<Vec<u8>> = Vec::new();
        assert(empty.deep_view() =~= Seq::<Seq<u8>>::empty());
        self.enqueue(TX_NODE_CONNECTED, event.data, empty);
        let out: Vec<Event> = Vec::new();
        assert(views(out@) =~= Seq::<EventView>::empty());
        out
    }

    /// Drops a lost peer from the quorum, queues a `NodeDisconnected`
    /// transaction, and commits the current one if every remaining peer has
    /// approved it.
    pub fn handle_request_old_connection_outcoming(&mut self, event: Event, now: u128) -> (out:
        Vec<Event>)
        requires
            old(self).wf(),
        ensures
            final(self).wf(),
            final(self).phase() == old(self).phase(),
            final(self).pending() == old(self).pending(),
            disconnected_post(old(self)@, event@, now, final(self)@, views(out@)),
    {
        let ghost s = self@;
        match data_u128(&event.data, 0) {
            Some(id) => {
                proof {
                    lemma_without(s.peers, id);
                }
                self.remove_peer(id);
            },
            None => {},
        }
        let empty: Vec<Vec<u8>> = Vec::new();
        assert(empty.deep_view() =~= Seq::<Seq<u8>>::empty());
        let e = Event::new(None, None, TX_NODE_DISCONNECTED, event.data, empty);
        let ghost q = self.transaction_queue@;
        self.transaction_queue.push(e);
        assert(views(self.transaction_queue@) =~= views(q).push(e@));
        self.handle_try_perform_transaction(now)
    }

    /// Queues a plugin's write as an update transaction, or refuses a
    /// malformed one.
    pub fn handle_request_update_shared_memory_outcoming(&mut self, event: Event) -> (out: Vec<
        Event,
    >)
        requires
            old(self).wf(),
        ensures
            final(self).wf(),
            final(self).phase() == old(self).phase(),
            final(self).pending() == old(self).pending(),
            update_post(old(self)@, event@, final(self)@, views(out@)),
    {
        if event.data.len() >= 2 && data_i32(&event.data, 0).is_some() {
            let mut data: Vec<Vec<u8>> = Vec::new();
            let k = event.data[0].clone();
            let v = event.data[1].clone();
            proof {
                crate::shared::lemma_bytes_deep_view(k);
                crate::shared::lemma_bytes_deep_view(v);
                crate::shared::lemma_bytes_deep_view(event.data@[0]);
                crate::shared::lemma_bytes_deep_view(event.data@[1]);
            }
            assert(k@ =~= event.data@[0]@);
            assert(v@ =~= event.data@[1]@);
            data.push(k);
            data.push(v);
            assert(data.deep_view() =~= seq![event@.data[0], event@.data[1]]);
            self.enqueue(TX_UPDATE_SHARED_MEMORY, data, event.meta);
            let out: Vec<Event> = Vec::new();
            assert(views(out@) =~= Seq::<EventView>::empty());
            out
        } else {
            one(Self::plugin_event(TRANSACTION_FAILED, event.meta))
        }
    }

    /// Answers a plugin's read with the value at the key, or with no data.
    pub fn handle_request_get_from_shared_memory_outcoming(&self, event: Event) -> (out: Vec<
        Event,
    >)
        requires
            self.wf(),
        ensures
            views(out@) == seq![
                plugin_ev(GET_FROM_SHARED_MEMORY, get_reply(self@.memory, event@.data), event@.meta),
            ],
    {
        let mut data: Vec<Vec<u8>> = Vec::new();
        match data_i32(&event.data, 0) {
            Some(key) => match self.shared_memory.get(key) {
                Some(v) => {
                    proof {
                        crate::shared::lemma_bytes_deep_view(v);
                    }
                    data.push(v);
                },
                None => {},
            },
            None => {},
        }
        assert(data.deep_view() =~= get_reply(self@.memory, event@.data));
        one(Event::new(
            Some(Dir::Incoming),
            Some(Dest::PluginMan),
            GET_FROM_SHARED_MEMORY,
            data,
            event.meta,
        ))
    }

    /// Handles an event that the node is to handle, by kind; other kinds
    /// are dropped.
    pub fn handle_incoming_event(&mut self, event: Event, now: u128) -> (out: Vec<Event>)
        requires
            old(self).wf(),
        ensures
            final(self).wf(),
            final(self).phase() == old(self).phase(),
            final(self).pending() == old(self).pending(),
            incoming_post(old(self)@, event@, now, final(self)@, views(out@)),
    {
        if event.kind == REQUEST_TRANSACTION {
            self.handle_request_transaction_incoming(event)
        } else if event.kind == APPROVE_TRANSACTION {
            self.handle_approve_transaction_incoming(event, now)
        } else if event.kind == COMMIT_TRANSACTION {
            self.handle_commit_transaction_incoming(event)
        } else if event.kind == NODE_CONNECTED {
            self.handle_request_new_connection_outcoming(event)
        } else if event.kind == NODE_DISCONNECTED {
            self.handle_request_old_connection_outcoming(event, now)
        } else {
            let out: Vec<Event> = Vec::new();
            assert(views(out@) =~= Seq::<EventView>::empty());
            out
        }
    }

    /// Handles an event that a plugin asks the node to carry out, by kind;
    /// other kinds are dropped.
    pub fn handle_outcoming_event(&mut self, event: Event) -> (out: Vec<Event>)
        requires
            old(self).wf(),
        ensures
            final(self).wf(),
            final(self).phase() == old(self).phase(),
            final(self).pending() == old(self).pending(),
            outcoming_post(old(self)@, event@, final(self)@, views(out@)),
    {
        if event.kind == UPDATE_SHARED_MEMORY {
            self.handle_request_update_shared_memory_outcoming(event)
        } else if event.kind == GET_FROM_SHARED_MEMORY {
            self.handle_request_get_from_shared_memory_outcoming(event)
        } else {
            let out: Vec<Event> = Vec::new();
            assert(views(out@) =~= Seq::<EventView>::empty());
            out
        }
    }

    /// One step of the node: init moves to wait; wait takes the event that
    /// arrived, if any, and moves by its direction, or, with nothing to do,
    /// proposes the next queued transaction; the handling phases handle the
    /// held event and return to wait.
    pub fn step(&mut self, inbound: Option<Event>, now: u128) -> (r: Result<Vec<Event>, NodeError>)
        requires
            old(self).wf(),
        ensures
            final(self).wf(),
            node_inv(final(self)@),
            final(self)@.version >= old(self)@.version,
            r matches Ok(out) && step_post(
                old(self).phase(),
                old(self).pending(),
                old(self)@,
                match inbound {
                    Some(e) => Some(e@),
                    None => None,
                },
                now,
                final(self).phase(),
                final(self).pending(),
                final(self)@,
                views(out@),
            ),
    {
        let state = self.fsm.get_state();
        if state == 0 {
            self.init()?;
            let out: Vec<Event> = Vec::new();
            assert(views(out@) =~= Seq::<EventView>::empty());
            Ok(out)
        } else if state == 1 {
            self.wait_event(inbound, now)
        } else if state == 2 || state == 3 {
            let event = match self.fsm.pop_event() {
                Some(e) => e,
                None => {
                    return Err(NodeError::InternalError);
                },
            };
            match self.fsm.transition(1) {
                Ok(()) => {},
                Err(_) => {
                    return Err(NodeError::InternalError);
                },
            }
            let out = if state == 2 {
                self.handle_incoming_event(event, now)
            } else {
                self.handle_outcoming_event(event)
            };
            Ok(out)
        } else {
            self.stop()?;
            let out: Vec<Event> = Vec::new();
            assert(views(out@) =~= Seq::<EventView>::empty());
            Ok(out)
        }
    }

    fn init(&mut self) -> (r: Result<(), NodeError>)
        requires
            old(self).wf(),
            old(self).phase() == 0,
        ensures
            final(self).wf(),
            r is Ok,
            final(self).phase() == 1,
            final(self).pending() == old(self).pending(),
            final(self)@ == old(self)@,
    {
        match self.fsm.transition(1) {
            Ok(()) => Ok(()),
            Err(_) => Err(NodeError::InternalError),
        }
    }

    fn stop(&mut self) -> (r: Result<(), NodeError>)
        ensures
            r is Ok,
            *final(self) == *old(self),
    {
        Ok(())
    }

    fn wait_event(&mut self, inbound: Option<Event>, now: u128) -> (r: Result<Vec<Event>, NodeError>)
        requires
            old(self).wf(),
            old(self).phase() == 1,
        ensures
            final(self).wf(),
            final(self)@.version >= old(self)@.version,
            r matches Ok(out) && step_post(
                1,
                old(self).pending(),
                old(self)@,
                match inbound {
                    Some(e) => Some(e@),
                    None => None,
                },
                now,
                final(self).phase(),
                final(self).pending(),
                final(self)@,
                views(out@),
            ),
    {
        match inbound {
            None => {
                if self.fsm.is_queue_empty() {
                    Ok(self.propose_next(now))
                } else {
                    Err(NodeError::InternalError)
                }
            },
            Some(event) => {
                let dir = event.dir;
                let target: u8 = match dir {
                    Some(Dir::Incoming) => 2,
                    Some(Dir::Outcoming) => 3,
                    None => 1,
                };
                if target != 1 {
                    self.fsm.push_event(event);
                    assert(self.fsm.queue() =~= seq![event@]);
                    match self.fsm.transition(target) {
                        Ok(()) => {},
                        Err(_) => {
                            return Err(NodeError::InternalError);
                        },
                    }
                }
                let out: Vec<Event> = Vec::new();
                assert(views(out@) =~= Seq::<EventView>::empty());
                Ok(out)
            },
        }
    }

    /// Applies the contention rules to a peer's request and answers it.
    pub fn handle_request_transaction_incoming(&mut self, event: Event) -> (out: Vec<Event>)
        requires
            old(self).wf(),
        ensures
            final(self).wf(),
            final(self).phase() == old(self).phase(),
            final(self).pending() == old(self).pending(),
            final(self)@ == after_request(old(self)@, event@),
            views(out@) == request_out(old(self)@, event@),
    {
        let ghost s = self@;
        let ghost e = event@;
        let other_kind = data_i32(&event.data, 0);
        let other_id = data_u128(&event.data, 1);
        let (ok, oid) = match (other_kind, other_id) {
            (Some(k), Some(i)) => (k, i),
            _ => {
                return Vec::new();
            },
        };
        if !self.is_peer(oid) {
            return Vec::new();
        }
        if !self.is_transaction_master {
            self.is_transaction = true;
            self.transaction_kind = ok;
            return one(self.approve_event(event.meta));
        }
        let local = self.transaction_kind;
        let outcome = if ok == local {
            if local == TX_SYNC_SHARED_MEMORY {
                match data_u128(&event.data, 2) {
                    Some(v) => {
                        if self.shared_memory_version > v || (self.shared_memory_version == v
                            && self.node_id > oid) {
                            Contention::Keep
                        } else {
                            Contention::Drop
                        }
                    },
                    None => {
                        return Vec::new();
                    },
                }
            } else if self.node_id > oid {
                Contention::Keep
            } else if local == TX_UPDATE_SHARED_MEMORY {
                Contention::Fail
            } else {
                Contention::Hold
            }
        } else if ok > local {
            Contention::Keep
        } else if local == TX_UPDATE_SHARED_MEMORY {
            Contention::Fail
        } else {
            Contention::Hold
        };
        assert(outcome == contention(s, e));
        match outcome {
            Contention::Keep => Vec::new(),
            Contention::Hold => {
                self.is_transaction_master = false;
                self.transaction_approvals = 0;
                self.transaction_kind = ok;
                one(self.approve_event(event.meta))
            },
            Contention::Drop => {
                self.is_transaction_master = false;
                self.transaction_approvals = 0;
                self.transaction_kind = ok;
                let ghost q = self.transaction_queue@;
                self.transaction_queue.remove(0);
                assert(views(self.transaction_queue@) =~= views(q).skip(1));
                one(self.approve_event(event.meta))
            },
            Contention::Fail => {
                self.is_transaction_master = false;
                self.transaction_approvals = 0;
                self.transaction_kind = ok;
                let approve = self.approve_event(event.meta);
                let ghost q = self.transaction_queue@;
                let t = self.transaction_queue.remove(0);
                assert(views(self.transaction_queue@) =~= views(q).skip(1));
                assert(t@ == s.queue[0]);
                let failed = Self::plugin_event(TRANSACTION_FAILED, t.meta);
                let out = prepend(failed, one(approve));
                assert(views(out@)[1] == views(out@).skip(1)[0]);
                assert(views(out@) =~= request_out(s, e));
                out
            },
            Contention::Approve | Contention::Ignore => Vec::new(),
        }
    }
}

impl From<crate::fsm::FSMError> for NodeError {
    fn from(e: crate::fsm::FSMError) -> (r: NodeError) {
        NodeError::InternalError
    }
}

impl vstd::std_specs::convert::FromSpecImpl<crate::fsm::FSMError> for NodeError {
    open spec fn obeys_from_spec() -> bool {
        true
    }

    open spec fn from_spec(v: crate::fsm::FSMError) -> NodeError {
        NodeError::InternalError
    }
}

} // verus!
