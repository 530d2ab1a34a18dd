//! The event: the one unit of communication between the components of a node
//! and on the wire.
use vstd::prelude::*;

verus! {

/// Handshake: the connecting side is a client.
pub const MARK_ME_CLIENT: i32 = 0;
/// Handshake: the connecting side is a node; data = [node id].
pub const MARK_ME_NODE: i32 = 1;
/// Client command: data = [source, name].
pub const NEW_PLUGIN: i32 = 2;
/// Client command: data = [name].
pub const REMOVE_PLUGIN: i32 = 3;
/// Client command: no data.
pub const GET_PLUGIN_LIST: i32 = 4;
/// Client command: data = [plugin name, serialised inner event].
pub const NEW_PLUGIN_EVENT: i32 = 5;
/// Response bound for a client.
pub const RESPOND_CLIENT: i32 = 6;
/// Plugin operation: data = [key, value].
pub const UPDATE_SHARED_MEMORY: i32 = 7;
/// Plugin operation: data = [key]; the answer carries [value] or nothing.
pub const GET_FROM_SHARED_MEMORY: i32 = 8;
/// Notification to a plugin that its write was committed.
pub const TRANSACTION_SUCCEEDED: i32 = 9;
/// Notification to a plugin that its write was refused.
pub const TRANSACTION_FAILED: i32 = 10;
/// Peer operation: data = [transaction kind, proposer id, extra...].
pub const REQUEST_TRANSACTION: i32 = 11;
/// Peer operation: data = [approver id].
pub const APPROVE_TRANSACTION: i32 = 12;
/// Peer operation: data = [proposer id, transaction kind, transaction data...].
pub const COMMIT_TRANSACTION: i32 = 13;
/// A peer connection was established: data = [peer id].
pub const NODE_CONNECTED: i32 = 14;
/// A peer connection was lost: data = [peer id].
pub const NODE_DISCONNECTED: i32 = 15;
/// Kept for wire compatibility; the peer set is the quorum.
pub const UPDATE_NODE_COUNT: i32 = 16;
/// data = [payload, count, id_1, ..., id_count].
pub const BROADCAST_EVENT: i32 = 17;
/// Internal to the server: a descriptor to watch.
pub const NEW_FD: i32 = 18;
/// Internal to the server: a descriptor to stop watching.
pub const OLD_FD: i32 = 19;
/// Internal to the server: the scanner found a peer; data = [peer id].
pub const NEW_STREAM: i32 = 20;
/// Internal to the server: a watched descriptor is readable; data = [fd].
pub const NEW_STREAM_EVENT: i32 = 21;

/// Transaction kind: a peer joined.
pub const TX_NODE_CONNECTED: i32 = 0;
/// Transaction kind: a peer left.
pub const TX_NODE_DISCONNECTED: i32 = 1;
/// Transaction kind: replace the shared map.
pub const TX_SYNC_SHARED_MEMORY: i32 = 2;
/// Transaction kind: write one key.
pub const TX_UPDATE_SHARED_MEMORY: i32 = 3;

/// Incoming: the receiver is to handle the event. Outcoming: the receiver
/// is to emit it on behalf of the sender.
#[derive(Clone, Copy, Debug, PartialEq, Eq, Structural)]
pub enum Dir {
    Incoming,
    Outcoming,
}

/// The component a router delivers an event to.
#[derive(Clone, Copy, Debug, PartialEq, Eq, Structural)]
pub enum Dest {
    Node,
    PluginMan,
    Server,
}

/// An event. `meta` is a stack of return addresses: each hop pushes one
/// element at the front and the reply path pops them again.
#[derive(Debug)]
pub struct Event {
    pub dir: Option<Dir>,
    pub dest: Option<Dest>,
    pub kind: i32,
    pub data: Vec<Vec<u8>>,
    pub meta: Vec<Vec<u8>>,
}

/// The mathematical value of an event.
pub struct EventView {
    pub dir: Option<Dir>,
    pub dest: Option<Dest>,
    pub kind: i32,
    pub data: Seq<Seq<u8>>,
    pub meta: Seq<Seq<u8>>,
}

impl View for Event {
    type V = EventView;

    open spec fn view(&self) -> EventView {
        EventView {
            dir: self.dir,
            dest: self.dest,
            kind: self.kind,
            data: self.data.deep_view(),
            meta: self.meta.deep_view(),
        }
    }
}

/// The value of an event with the given fields.
pub open spec fn event_of(
    dir: Option<Dir>,
    dest: Option<Dest>,
    kind: i32,
    data: Seq<Seq<u8>>,
    meta: Seq<Seq<u8>>,
) -> EventView {
    EventView { dir, dest, kind, data, meta }
}

/// A copy of a list of byte strings.
pub fn clone_list(v: &Vec<Vec<u8>>) -> (r: Vec<Vec<u8>>)
    ensures
        r.deep_view() == v.deep_view(),
{
    let mut r: Vec<Vec<u8>> = Vec::new();
    let mut i: usize = 0;
    while i < v.len()
        invariant
            i <= v.len(),
            r@.len() == i,
            forall|j: int| 0 <= j < i ==> (#[trigger] r@[j])@ == v@[j]@,
        decreases v.len() - i,
    {
        let b = v[i].clone();
        assert(b@ =~= v@[i as int]@);
        r.push(b);
        i += 1;
    }
    assert forall|j: int| 0 <= j < r@.len() implies (#[trigger] r@[j]).deep_view()
        == v@[j].deep_view() by {
        assert(r@[j].deep_view() =~= v@[j].deep_view());
    }
    assert(r.deep_view() =~= v.deep_view());
    r
}

impl Event {
    /// An event with the given fields.
    pub fn new(
        dir: Option<Dir>,
        dest: Option<Dest>,
        kind: i32,
        data: Vec<Vec<u8>>,
        meta: Vec<Vec<u8>>,
    ) -> (r: Event)
        ensures
            r@ == event_of(dir, dest, kind, data.deep_view(), meta.deep_view()),
    {
        Event { dir, dest, kind, data, meta }
    }

    /// A copy of this event.
    pub fn duplicate(&self) -> (r: Event)
        ensures
            r@ == self@,
    {
        Event {
            dir: self.dir,
            dest: self.dest,
            kind: self.kind,
            data: clone_list(&self.data),
            meta: clone_list(&self.meta),
        }
    }
}

} // verus!
