//! The server's decisions: which descriptors are listeners, clients and
//! peers, how a new connection's handshake classifies it, how events read
//! from a stream are addressed, and where outgoing events are written.
//! Sockets, reads and writes stay with the caller.
use vstd::prelude::*;
use crate::bytes::{i32_bytes, i32_of, u128_bytes, u128_of, i32_to_bytes, u128_to_bytes,
    i32_from_ne_bytes, u128_from_ne_bytes};
use crate::codec::{frame, serialize};
use crate::event::{
    clone_list, event_of, Dest, Dir, Event, EventView, APPROVE_TRANSACTION, BROADCAST_EVENT,
    MARK_ME_CLIENT, MARK_ME_NODE, NEW_FD, NODE_CONNECTED,
    NODE_DISCONNECTED, OLD_FD, RESPOND_CLIENT,
};
use crate::fsm::views;
use crate::plugin_man::{outcoming_action, PluginAction};

verus! {

/// A connected peer: its stream, its IPv4 address and its identity.
#[derive(Clone, Copy, Debug, PartialEq, Eq, Structural)]
pub struct Peer {
    pub fd: i32,
    pub ip: u32,
    pub node_id: u128,
}

/// Bytes to write to a stream.
pub struct Outgoing {
    pub fd: i32,
    pub bytes: Vec<u8>,
}

/// The value of a write.
pub open spec fn out_view(o: Outgoing) -> (i32, Seq<u8>) {
    (o.fd, o.bytes@)
}

/// What a descriptor that became readable belongs to.
#[derive(Clone, Copy, Debug, PartialEq, Eq, Structural)]
pub enum FdRole {
    Listener,
    Client,
    Peer,
    Unknown,
}

/// The outcome of a new connection's handshake.
pub enum Handshake {
    /// A client: its stream is now watched.
    Client,
    /// A new peer: write `reply` to it and send `notify` to the router.
    Node { reply: Vec<u8>, notify: Event },
    /// A peer at an address already connected: close the stream.
    Duplicate,
    /// Neither: shut the stream down.
    Reject,
}

/// Whether a peer list has distinct descriptors, addresses and identities.
pub open spec fn peers_ok(p: Seq<Peer>) -> bool {
    forall|i: int, j: int|
        0 <= i < p.len() && 0 <= j < p.len() && i != j ==> (#[trigger] p[i]).fd != (#[trigger] p[j]).fd
            && p[i].ip != p[j].ip && p[i].node_id != p[j].node_id
}

/// Whether a peer has the descriptor `fd`.
pub open spec fn peer_has_fd(p: Seq<Peer>, fd: i32) -> bool {
    exists|i: int| 0 <= i < p.len() && (#[trigger] p[i]).fd == fd
}

/// Whether a peer has the address `ip`.
pub open spec fn peer_has_ip(p: Seq<Peer>, ip: u32) -> bool {
    exists|i: int| 0 <= i < p.len() && (#[trigger] p[i]).ip == ip
}

/// The event that a client's event becomes on its way to the plugin
/// manager: tagged with the client's descriptor.
pub open spec fn client_ingress(fd: i32, e: EventView) -> EventView {
    event_of(Some(Dir::Incoming), Some(Dest::PluginMan), e.kind, e.data, seq![i32_bytes(fd)])
}

/// The event that a peer's event becomes on its way to the node: the
/// peer's descriptor pushed on its meta chain.
pub open spec fn peer_ingress(fd: i32, e: EventView) -> EventView {
    event_of(Some(Dir::Incoming), Some(Dest::Node), e.kind, e.data, seq![i32_bytes(fd)] + e.meta)
}

/// The notice to the node that a peer is connected.
pub open spec fn connected_ev(data: Seq<Seq<u8>>) -> EventView {
    event_of(Some(Dir::Incoming), Some(Dest::Node), NODE_CONNECTED, data, Seq::empty())
}

/// The notice to the node that a peer is gone.
pub open spec fn disconnected_ev(id: u128) -> EventView {
    event_of(
        Some(Dir::Incoming),
        Some(Dest::Node),
        NODE_DISCONNECTED,
        seq![u128_bytes(id)],
        Seq::empty(),
    )
}

/// An event with its meta chain replaced.
pub open spec fn with_meta(e: EventView, meta: Seq<Seq<u8>>) -> EventView {
    event_of(e.dir, e.dest, e.kind, e.data, meta)
}

/// The descriptor at the head of a meta chain.
pub open spec fn meta_fd(meta: Seq<Seq<u8>>) -> Option<i32> {
    if meta.len() > 0 {
        i32_of(meta[0])
    } else {
        None
    }
}

/// The descriptor of the peer `id`, if one is connected.
pub open spec fn fd_of_id(p: Seq<Peer>, id: u128) -> Option<i32> {
    if exists|i: int| 0 <= i < p.len() && (#[trigger] p[i]).node_id == id {
        Some(p[choose|i: int| 0 <= i < p.len() && (#[trigger] p[i]).node_id == id].fd)
    } else {
        None
    }
}

/// The writes of a broadcast of `payload` to the peers listed in `ids`:
/// one per listed identity that is connected, in list order.
pub open spec fn broadcast_writes(p: Seq<Peer>, payload: Seq<u8>, ids: Seq<Seq<u8>>) -> Seq<
    (i32, Seq<u8>),
>
    decreases ids.len(),
{
    if ids.len() == 0 {
        Seq::empty()
    } else {
        let prev = broadcast_writes(p, payload, ids.drop_last());
        match u128_of(ids.last()) {
            Some(id) => match fd_of_id(p, id) {
                Some(fd) => prev.push((fd, payload)),
                None => prev,
            },
            None => prev,
        }
    }
}

/// The identities listed in a broadcast's fields `[payload, n, id_1, ...,
/// id_n]`; none when the count does not match.
pub open spec fn listed_ids(data: Seq<Seq<u8>>) -> Seq<Seq<u8>> {
    if data.len() >= 2 {
        match i32_of(data[1]) {
            Some(n) => if 0 <= n && n <= data.len() - 2 {
                data.subrange(2, 2 + n)
            } else {
                Seq::empty()
            },
            None => Seq::empty(),
        }
    } else {
        Seq::empty()
    }
}

/// Where the server writes an outgoing event: a broadcast to the listed
/// peers; an approval to the peer at the head of its meta chain, and a
/// response to the client there, each with that head popped. An address
/// that is no longer connected gets nothing.
pub open spec fn outgoing_writes(
    peers: Seq<Peer>,
    clients: Seq<i32>,
    e: EventView,
) -> Seq<(i32, Seq<u8>)> {
    if e.kind == BROADCAST_EVENT {
        if e.data.len() >= 2 {
            broadcast_writes(peers, e.data[0], listed_ids(e.data))
        } else {
            Seq::empty()
        }
    } else if e.kind == APPROVE_TRANSACTION {
        match meta_fd(e.meta) {
            Some(fd) => if peer_has_fd(peers, fd) {
                seq![(fd, frame(with_meta(e, e.meta.skip(1))))]
            } else {
                Seq::empty()
            },
            None => Seq::empty(),
        }
    } else if e.kind == RESPOND_CLIENT {
        match meta_fd(e.meta) {
            Some(fd) => if clients.contains(fd) {
                seq![(fd, frame(with_meta(e, e.meta.skip(1))))]
            } else {
                Seq::empty()
            },
            None => Seq::empty(),
        }
    } else {
        Seq::empty()
    }
}

/// The values of a list of writes.
pub open spec fn outs(o: Seq<Outgoing>) -> Seq<(i32, Seq<u8>)> {
    o.map_values(|x: Outgoing| out_view(x))
}

/// No table of `t` differs from `s`'s.
pub open spec fn unchanged(s: Server, t: Server) -> bool {
    &&& t.clients() == s.clients()
    &&& t.peers() == s.peers()
    &&& t.watched() == s.watched()
}

/// The outcome of the handshake `h` of a connection `fd` from `ip`, taking
/// the server from `s` to `t`.
pub open spec fn handshake_post(s: Server, t: Server, fd: i32, ip: u32, h: EventView, r: Handshake) -> bool {
    if h.kind == MARK_ME_CLIENT {
        if s.is_known_spec(fd) {
            (r is Reject && unchanged(s, t))
        } else {
            r is Client && t.clients() == s.clients().push(fd) && t.peers() == s.peers()
                && t.watched().contains(fd)
        }
    } else if h.kind == MARK_ME_NODE {
        if peer_has_ip(s.peers(), ip) {
            r is Duplicate && unchanged(s, t)
        } else {
            match (if h.data.len() > 0 { u128_of(h.data[0]) } else { None }) {
                Some(id) => if s.is_known_spec(fd) || fd_of_id(s.peers(), id) is Some {
                    (r is Reject && unchanged(s, t))
                } else {
                    &&& t.peers() == s.peers().push(Peer { fd, ip, node_id: id })
                    &&& t.clients() == s.clients()
                    &&& t.watched().contains(fd)
                    &&& r matches Handshake::Node { reply, notify }
                    &&& reply@ == frame(
                        event_of(None, None, MARK_ME_NODE, seq![u128_bytes(s.id())], Seq::empty()),
                    )
                    &&& notify@ == connected_ev(h.data)
                },
                None => (r is Reject && unchanged(s, t)),
            }
        }
    } else {
        (r is Reject && unchanged(s, t))
    }
}

/// The connection tables of a server.
pub struct Server {
    node_id: u128,
    servers: Vec<i32>,
    clients: Vec<i32>,
    nodes: Vec<Peer>,
    readfds: Vec<i32>,
}

/// A meta chain without its head.
fn pop_head(meta: &Vec<Vec<u8>>) -> (r: Vec<Vec<u8>>)
    requires
        meta@.len() > 0,
    ensures
        r.deep_view() == meta.deep_view().skip(1),
{
    let mut r: Vec<Vec<u8>> = Vec::new();
    let mut i: usize = 1;
    while i < meta.len()
        invariant
            1 <= i <= meta@.len(),
            r.deep_view() == meta.deep_view().subrange(1, i as int),
        decreases meta.len() - i,
    {
        let b = meta[i].clone();
        proof {
            crate::shared::lemma_bytes_deep_view(b);
            crate::shared::lemma_bytes_deep_view(meta@[i as int]);
        }
        assert(b@ =~= meta@[i as int]@);
        let ghost prev = r.deep_view();
        r.push(b);
        assert(r.deep_view() =~= prev.push(b@));
        assert(meta.deep_view().subrange(1, i + 1) =~= meta.deep_view().subrange(1, i as int).push(
            meta.deep_view()[i as int],
        ));
        i += 1;
    }
    assert(meta.deep_view().subrange(1, i as int) =~= meta.deep_view().skip(1));
    r
}

/// Whether `v` holds `x`.
fn holds(v: &Vec<i32>, x: i32) -> (r: bool)
    ensures
        r == v@.contains(x),
{
    let mut i: usize = 0;
    while i < v.len()
        invariant
            i <= v@.len(),
            forall|j: int| 0 <= j < i ==> v@[j] != x,
        decreases v.len() - i,
    {
        if v[i] == x {
            return true;
        }
        i += 1;
    }
    false
}

/// `t` is `v` with its first `x` taken out, or `v` when it holds none.
pub open spec fn dropped(v: Seq<i32>, x: i32, t: Seq<i32>) -> bool {
    if v.contains(x) {
        exists|i: int| 0 <= i < v.len() && v[i] == x && t == v.remove(i)
    } else {
        t == v
    }
}

/// Takes the first `x` out of `v`.
fn drop_fd(v: &mut Vec<i32>, x: i32)
    ensures
        dropped(old(v)@, x, final(v)@),
{
    let mut i: usize = 0;
    while i < v.len()
        invariant
            i <= v@.len(),
            v@ == old(v)@,
            forall|j: int| 0 <= j < i ==> v@[j] != x,
        decreases v.len() - i,
    {
        if v[i] == x {
            v.remove(i);
            return;
        }
        i += 1;
    }
}

/// Taking an element out keeps a list free of duplicates and takes
/// nothing else out.
proof fn lemma_dropped(v: Seq<i32>, x: i32, t: Seq<i32>)
    requires
        dropped(v, x, t),
    ensures
        forall|y: i32| t.contains(y) ==> v.contains(y),
        v.no_duplicates() ==> t.no_duplicates() && !t.contains(x),
{
    if v.contains(x) {
        let i = choose|i: int| 0 <= i < v.len() && v[i] == x && t == v.remove(i);
        assert forall|y: i32| t.contains(y) implies v.contains(y) by {
            let k = choose|k: int| 0 <= k < t.len() && t[k] == y;
            if k < i {
                assert(v[k] == y);
            } else {
                assert(v[k + 1] == y);
            }
        }
        if v.no_duplicates() {
            assert forall|a: int, b: int| 0 <= a < t.len() && 0 <= b < t.len() && a != b implies t[a]
                != t[b] by {
                let a2 = if a < i {
                    a
                } else {
                    a + 1
                };
                let b2 = if b < i {
                    b
                } else {
                    b + 1
                };
                assert(t[a] == v[a2]);
                assert(t[b] == v[b2]);
            }
            assert(!t.contains(x)) by {
                if t.contains(x) {
                    let k = choose|k: int| 0 <= k < t.len() && t[k] == x;
                    if k < i {
                        assert(v[k] == x);
                    } else {
                        assert(v[k + 1] == x);
                    }
                }
            }
        }
    }
}

impl Server {
    /// The listening descriptors.
    pub closed spec fn listeners(&self) -> Seq<i32> {
        self.servers@
    }

    /// The client descriptors.
    pub closed spec fn clients(&self) -> Seq<i32> {
        self.clients@
    }

    /// The connected peers.
    pub closed spec fn peers(&self) -> Seq<Peer> {
        self.nodes@
    }

    /// The descriptors that are polled for reading.
    pub closed spec fn watched(&self) -> Seq<i32> {
        self.readfds@
    }

    /// This node's identity.
    pub closed spec fn id(&self) -> u128 {
        self.node_id
    }

    /// A descriptor is in at most one table; peers are distinct.
    pub closed spec fn wf(&self) -> bool {
        &&& self.servers@.no_duplicates()
        &&& self.clients@.no_duplicates()
        &&& self.readfds@.no_duplicates()
        &&& peers_ok(self.nodes@)
        &&& forall|fd: i32| !(self.servers@.contains(fd) && self.clients@.contains(fd))
        &&& forall|fd: i32| !(self.servers@.contains(fd) && peer_has_fd(self.nodes@, fd))
        &&& forall|fd: i32| !(self.clients@.contains(fd) && peer_has_fd(self.nodes@, fd))
    }

    /// A well-formed server's tables: no descriptor twice in a table or in
    /// two tables, and peers with distinct descriptors, addresses and
    /// identities.
    pub proof fn lemma_wf_tables(&self)
        requires
            self.wf(),
        ensures
            self.listeners().no_duplicates(),
            self.clients().no_duplicates(),
            self.watched().no_duplicates(),
            peers_ok(self.peers()),
            forall|fd: i32| !(self.listeners().contains(fd) && self.clients().contains(fd)),
            forall|fd: i32| !(self.listeners().contains(fd) && peer_has_fd(self.peers(), fd)),
            forall|fd: i32| !(self.clients().contains(fd) && peer_has_fd(self.peers(), fd)),
    {
    }

    /// Empty tables for the node `node_id`.
    pub fn new(node_id: u128) -> (r: Server)
        ensures
            r.wf(),
            r.id() == node_id,
            r.listeners().len() == 0,
            r.clients().len() == 0,
            r.peers().len() == 0,
            r.watched().len() == 0,
    {
        Server {
            node_id,
            servers: Vec::new(),
            clients: Vec::new(),
            nodes: Vec::new(),
            readfds: Vec::new(),
        }
    }

    /// Whether `fd` is in any table.
    pub fn is_known(&self, fd: i32) -> (r: bool)
        ensures
            r == (self.listeners().contains(fd) || self.clients().contains(fd) || peer_has_fd(
                self.peers(),
                fd,
            )),
    {
        holds(&self.servers, fd) || holds(&self.clients, fd) || self.peer_index_by_fd(fd).is_some()
    }

    /// The index of the peer with stream `fd`.
    fn peer_index_by_fd(&self, fd: i32) -> (r: Option<usize>)
        ensures
            r matches Some(i) ==> i < self.peers().len() && self.peers()[i as int].fd == fd,
            r is None ==> !peer_has_fd(self.peers(), fd),
    {
        let mut i: usize = 0;
        while i < self.nodes.len()
            invariant
                i <= self.nodes@.len(),
                forall|j: int| 0 <= j < i ==> self.nodes@[j].fd != fd,
            decreases self.nodes.len() - i,
        {
            if self.nodes[i].fd == fd {
                return Some(i);
            }
            i += 1;
        }
        None
    }

    /// The descriptor of the peer `id`.
    pub fn peer_fd_by_id(&self, id: u128) -> (r: Option<i32>)
        requires
            self.wf(),
        ensures
            r == fd_of_id(self.peers(), id),
    {
        let mut i: usize = 0;
        while i < self.nodes.len()
            invariant
                self.wf(),
                i <= self.nodes@.len(),
                forall|j: int| 0 <= j < i ==> (#[trigger] self.nodes@[j]).node_id != id,
            decreases self.nodes.len() - i,
        {
            if self.nodes[i].node_id == id {
                proof {
                    let p = self.peers();
                    assert(p[i as int].node_id == id);
                    let j = choose|j: int| 0 <= j < p.len() && (#[trigger] p[j]).node_id == id;
                    if j != i {
                        assert(p[i as int].node_id != p[j].node_id);
                    }
                }
                return Some(self.nodes[i].fd);
            }
            i += 1;
        }
        None
    }

    /// Whether a peer at address `ip` is connected.
    pub fn has_peer_ip(&self, ip: u32) -> (r: bool)
        ensures
            r == peer_has_ip(self.peers(), ip),
    {
        let mut i: usize = 0;
        while i < self.nodes.len()
            invariant
                i <= self.nodes@.len(),
                forall|j: int| 0 <= j < i ==> (#[trigger] self.nodes@[j]).ip != ip,
            decreases self.nodes.len() - i,
        {
            if self.nodes[i].ip == ip {
                assert(self.peers()[i as int].ip == ip);
                return true;
            }
            i += 1;
        }
        false
    }

    /// Starts watching `fd`, once.
    fn watch(&mut self, fd: i32)
        requires
            old(self).watched().no_duplicates(),
        ensures
            final(self).watched().no_duplicates(),
            final(self).watched().contains(fd),
            forall|x: i32| final(self).watched().contains(x) ==> old(self).watched().contains(x) || x == fd,
            final(self).listeners() == old(self).listeners(),
            final(self).clients() == old(self).clients(),
            final(self).peers() == old(self).peers(),
            final(self).id() == old(self).id(),
    {
        if !holds(&self.readfds, fd) {
            let ghost w = self.readfds@;
            self.readfds.push(fd);
            assert(self.readfds@[self.readfds@.len() - 1] == fd);
            proof {
                assert forall|a: int, b: int|
                    0 <= a < self.readfds@.len() && 0 <= b < self.readfds@.len() && a != b implies self.readfds@[a]
                    != self.readfds@[b] by {
                    if a < w.len() && b < w.len() {
                        assert(w[a] == self.readfds@[a] && w[b] == self.readfds@[b]);
                    } else if a < w.len() {
                        assert(w.contains(self.readfds@[a]));
                    } else if b < w.len() {
                        assert(w.contains(self.readfds@[b]));
                    }
                }
                assert forall|x: i32| self.readfds@.contains(x) implies w.contains(x) || x == fd by {
                    let k = choose|k: int| 0 <= k < self.readfds@.len() && self.readfds@[k] == x;
                    if k < w.len() {
                        assert(w[k] == x);
                    }
                }
            }
        }
    }

    /// Adds a listening descriptor and watches it.
    pub fn add_listener(&mut self, fd: i32)
        requires
            old(self).wf(),
        ensures
            final(self).wf(),
            old(self).listeners().contains(fd) || old(self).clients().contains(fd) || peer_has_fd(
                old(self).peers(),
                fd,
            ) ==> final(self).listeners() == old(self).listeners(),
            !(old(self).listeners().contains(fd) || old(self).clients().contains(fd) || peer_has_fd(
                old(self).peers(),
                fd,
            )) ==> final(self).listeners() == old(self).listeners().push(fd)
                && final(self).watched().contains(fd),
            final(self).clients() == old(self).clients(),
            final(self).peers() == old(self).peers(),
    {
        if !self.is_known(fd) {
            self.servers.push(fd);
            proof {
                assert forall|x: i32| self.servers@.contains(x) implies old(self).servers@.contains(x)
                    || x == fd by {
                    let k = choose|k: int| 0 <= k < self.servers@.len() && self.servers@[k] == x;
                    if k < old(self).servers@.len() {
                        assert(old(self).servers@[k] == x);
                    }
                }
            }
            self.watch(fd);
        }
    }

    /// Handles the server's own bookkeeping events: `NewFd` starts watching
    /// the descriptor in `data[0]`, `OldFd` stops. Gives back whether the
    /// event was one of them.
    pub fn handle_control_event(&mut self, event: &Event) -> (r: bool)
        requires
            old(self).wf(),
        ensures
            final(self).wf(),
            r == (event@.kind == NEW_FD || event@.kind == OLD_FD),
            final(self).listeners() == old(self).listeners(),
            final(self).clients() == old(self).clients(),
            final(self).peers() == old(self).peers(),
            event@.kind == NEW_FD && event@.data.len() > 0 && i32_of(event@.data[0]) is Some
                ==> final(self).watched().contains(i32_of(event@.data[0])->0),
            event@.kind == OLD_FD && event@.data.len() > 0 && i32_of(event@.data[0]) is Some
                ==> dropped(old(self).watched(), i32_of(event@.data[0])->0, final(self).watched()),
    {
        if event.kind != NEW_FD && event.kind != OLD_FD {
            return false;
        }
        if event.data.len() > 0 {
            proof {
                crate::shared::lemma_bytes_deep_view(event.data@[0]);
            }
            match i32_from_ne_bytes(event.data[0].as_slice()) {
                Ok(fd) => {
                    if event.kind == NEW_FD {
                        self.watch(fd);
                    } else {
                        let ghost w = self.readfds@;
                        drop_fd(&mut self.readfds, fd);
                        proof {
                            lemma_dropped(w, fd, self.readfds@);
                        }
                    }
                },
                Err(_) => {},
            }
        }
        true
    }

    /// Classifies a connection accepted on a listener by its handshake
    /// event: a client, a new peer at address `ip`, or neither. The stream
    /// `fd` is then watched.
    pub fn accept_handshake(&mut self, fd: i32, ip: u32, handshake: Option<Event>) -> (r: Handshake)
        requires
            old(self).wf(),
        ensures
            final(self).wf(),
            final(self).listeners() == old(self).listeners(),
            handshake is None ==> r is Reject && unchanged(*old(self), *final(self)),
            handshake matches Some(h) ==> handshake_post(*old(self), *final(self), fd, ip, h@, r),
    {
        let h = match handshake {
            Some(h) => h,
            None => {
                return Handshake::Reject;
            },
        };
        if h.kind == MARK_ME_CLIENT {
            if self.is_known(fd) {
                return Handshake::Reject;
            }
            self.clients.push(fd);
            proof {
                assert forall|x: i32| self.clients@.contains(x) implies old(self).clients@.contains(x)
                    || x == fd by {
                    let k = choose|k: int| 0 <= k < self.clients@.len() && self.clients@[k] == x;
                    if k < old(self).clients@.len() {
                        assert(old(self).clients@[k] == x);
                    }
                }
            }
            self.watch(fd);
            Handshake::Client
        } else if h.kind == MARK_ME_NODE {
            if self.has_peer_ip(ip) {
                return Handshake::Duplicate;
            }
            let id = if h.data.len() > 0 {
                proof {
                    crate::shared::lemma_bytes_deep_view(h.data@[0]);
                }
                match u128_from_ne_bytes(h.data[0].as_slice()) {
                    Ok(id) => id,
                    Err(_) => {
                        return Handshake::Reject;
                    },
                }
            } else {
                return Handshake::Reject;
            };
            if self.is_known(fd) || self.peer_fd_by_id(id).is_some() {
                return Handshake::Reject;
            }
            self.add_peer(fd, ip, id);
            self.watch(fd);
            let reply = self.identity_frame();
            let notify = Event::new(
                Some(Dir::Incoming),
                Some(Dest::Node),
                NODE_CONNECTED,
                h.data,
                Vec::new(),
            );
            assert(notify@.meta =~= Seq::<Seq<u8>>::empty());
            Handshake::Node { reply, notify }
        } else {
            Handshake::Reject
        }
    }

    /// Whether `fd` is in any table.
    pub closed spec fn is_known_spec(&self, fd: i32) -> bool {
        self.listeners().contains(fd) || self.clients().contains(fd) || peer_has_fd(
            self.peers(),
            fd,
        )
    }

    /// Records a new peer.
    fn add_peer(&mut self, fd: i32, ip: u32, id: u128)
        requires
            old(self).wf(),
            !old(self).is_known_spec(fd),
            !peer_has_ip(old(self).peers(), ip),
            fd_of_id(old(self).peers(), id) is None,
        ensures
            final(self).wf(),
            final(self).peers() == old(self).peers().push(Peer { fd, ip, node_id: id }),
            final(self).listeners() == old(self).listeners(),
            final(self).clients() == old(self).clients(),
            final(self).watched() == old(self).watched(),
            final(self).id() == old(self).id(),
    {
        let ghost p = self.nodes@;
        self.nodes.push(Peer { fd, ip, node_id: id });
        proof {
            assert forall|x: i32| peer_has_fd(self.nodes@, x) implies peer_has_fd(p, x) || x == fd by {
                let k = choose|k: int| 0 <= k < self.nodes@.len() && self.nodes@[k].fd == x;
                if k < p.len() {
                    assert(p[k].fd == x);
                }
            }
            assert forall|i: int| 0 <= i < p.len() implies (#[trigger] p[i]).node_id != id by {
                if p[i].node_id == id {
                    assert(exists|i: int| 0 <= i < p.len() && (#[trigger] p[i]).node_id == id);
                }
            }
            assert forall|i: int| 0 <= i < p.len() implies (#[trigger] p[i]).fd != fd by {
                if p[i].fd == fd {
                    assert(peer_has_fd(p, fd));
                }
            }
            assert forall|i: int| 0 <= i < p.len() implies (#[trigger] p[i]).ip != ip by {
                if p[i].ip == ip {
                    assert(peer_has_ip(p, ip));
                }
            }
        }
    }

    /// The reply to a peer's handshake: this node's identity.
    fn identity_frame(&self) -> (r: Vec<u8>)
        ensures
            r@ == frame(
                event_of(None, None, MARK_ME_NODE, seq![u128_bytes(self.id())], Seq::empty()),
            ),
    {
        node_hello(self.node_id)
    }

    /// Addresses the events read from client `fd` to the plugin manager,
    /// tagged with the client's descriptor.
    pub fn client_events(fd: i32, events: Vec<Event>) -> (r: Vec<Event>)
        ensures
            views(r@) == views(events@).map_values(|e: EventView| client_ingress(fd, e)),
    {
        let mut out: Vec<Event> = Vec::new();
        let mut i: usize = 0;
        let fdb = i32_to_bytes(fd);
        proof {
            crate::shared::lemma_bytes_deep_view(fdb);
        }
        while i < events.len()
            invariant
                i <= events@.len(),
                fdb@ == i32_bytes(fd),
                views(out@) == views(events@).map_values(|e: EventView| client_ingress(fd, e)).take(
                    i as int,
                ),
            decreases events.len() - i,
        {
            let mut meta: Vec<Vec<u8>> = Vec::new();
            let c = fdb.clone();
            proof {
                crate::shared::lemma_bytes_deep_view(c);
            }
            assert(c@ =~= fdb@);
            meta.push(c);
            assert(meta.deep_view() =~= seq![i32_bytes(fd)]);
            let e = Event::new(
                Some(Dir::Incoming),
                Some(Dest::PluginMan),
                events[i].kind,
                clone_list(&events[i].data),
                meta,
            );
            let ghost prev = out@;
            out.push(e);
            assert(views(out@) =~= views(prev).push(e@));
            assert(views(events@).map_values(|e: EventView| client_ingress(fd, e)).take(i + 1)
                =~= views(events@).map_values(|e: EventView| client_ingress(fd, e)).take(
                i as int,
            ).push(e@));
            i += 1;
        }
        assert(views(events@).map_values(|e: EventView| client_ingress(fd, e)).take(i as int)
            =~= views(events@).map_values(|e: EventView| client_ingress(fd, e)));
        out
    }

    /// Addresses the events read from peer `fd` to the node, with the
    /// peer's descriptor pushed on each meta chain.
    pub fn peer_events(fd: i32, events: Vec<Event>) -> (r: Vec<Event>)
        ensures
            views(r@) == views(events@).map_values(|e: EventView| peer_ingress(fd, e)),
    {
        let mut out: Vec<Event> = Vec::new();
        let mut i: usize = 0;
        let fdb = i32_to_bytes(fd);
        proof {
            crate::shared::lemma_bytes_deep_view(fdb);
        }
        while i < events.len()
            invariant
                i <= events@.len(),
                fdb@ == i32_bytes(fd),
                views(out@) == views(events@).map_values(|e: EventView| peer_ingress(fd, e)).take(
                    i as int,
                ),
            decreases events.len() - i,
        {
            let mut meta: Vec<Vec<u8>> = Vec::new();
            let c = fdb.clone();
            proof {
                crate::shared::lemma_bytes_deep_view(c);
            }
            assert(c@ =~= fdb@);
            meta.push(c);
            let mut rest = clone_list(&events[i].meta);
            let ghost r0 = rest.deep_view();
            let ghost m0 = meta.deep_view();
            meta.append(&mut rest);
            assert(m0 =~= seq![i32_bytes(fd)]);
            assert(meta.deep_view() =~= m0 + r0);
            let e = Event::new(
                Some(Dir::Incoming),
                Some(Dest::Node),
                events[i].kind,
                clone_list(&events[i].data),
                meta,
            );
            let ghost prev = out@;
            out.push(e);
            assert(views(out@) =~= views(prev).push(e@));
            assert(views(events@).map_values(|e: EventView| peer_ingress(fd, e)).take(i + 1)
                =~= views(events@).map_values(|e: EventView| peer_ingress(fd, e)).take(
                i as int,
            ).push(e@));
            i += 1;
        }
        assert(views(events@).map_values(|e: EventView| peer_ingress(fd, e)).take(i as int)
            =~= views(events@).map_values(|e: EventView| peer_ingress(fd, e)));
        out
    }

    /// Forgets client `fd`, whose stream reached its end.
    pub fn client_closed(&mut self, fd: i32)
        requires
            old(self).wf(),
        ensures
            final(self).wf(),
            dropped(old(self).clients(), fd, final(self).clients()),
            dropped(old(self).watched(), fd, final(self).watched()),
            !final(self).clients().contains(fd),
            !final(self).watched().contains(fd),
            final(self).listeners() == old(self).listeners(),
            final(self).peers() == old(self).peers(),
    {
        let ghost c = self.clients@;
        drop_fd(&mut self.clients, fd);
        proof {
            lemma_dropped(c, fd, self.clients@);
        }
        let ghost w = self.readfds@;
        drop_fd(&mut self.readfds, fd);
        proof {
            lemma_dropped(w, fd, self.readfds@);
        }
    }

    /// Forgets peer `fd`, whose stream reached its end, and gives the
    /// notice for the node.
    pub fn peer_closed(&mut self, fd: i32) -> (r: Option<Event>)
        requires
            old(self).wf(),
        ensures
            final(self).wf(),
            !peer_has_fd(old(self).peers(), fd) ==> r is None && final(self).peers() == old(
                self,
            ).peers(),
            peer_has_fd(old(self).peers(), fd) ==> exists|i: int|
                0 <= i < old(self).peers().len() && (#[trigger] old(self).peers()[i]).fd == fd
                    && final(self).peers() == old(self).peers().remove(i) && (r matches Some(e)
                    && e@ == disconnected_ev(old(self).peers()[i].node_id)) && !peer_has_ip(
                    final(self).peers(),
                    old(self).peers()[i].ip,
                ) && fd_of_id(final(self).peers(), old(self).peers()[i].node_id) is None,
            !peer_has_fd(final(self).peers(), fd),
            dropped(old(self).watched(), fd, final(self).watched()),
            !final(self).watched().contains(fd),
            final(self).listeners() == old(self).listeners(),
            final(self).clients() == old(self).clients(),
    {
        let r = match self.peer_index_by_fd(fd) {
            Some(i) => {
                let ghost p = self.nodes@;
                let peer = self.nodes.remove(i);
                proof {
                    assert(self.nodes@ == p.remove(i as int));
                    assert forall|x: i32| peer_has_fd(self.nodes@, x) implies peer_has_fd(p, x) by {
                        let k = choose|k: int| 0 <= k < self.nodes@.len() && self.nodes@[k].fd == x;
                        if k < i {
                            assert(p[k].fd == x);
                        } else {
                            assert(p[k + 1].fd == x);
                        }
                    }
                    assert forall|a: int, b: int|
                        0 <= a < self.nodes@.len() && 0 <= b < self.nodes@.len() && a != b implies (
                        #[trigger] self.nodes@[a]).fd != (#[trigger] self.nodes@[b]).fd
                            && self.nodes@[a].ip != self.nodes@[b].ip && self.nodes@[a].node_id
                            != self.nodes@[b].node_id by {
                        let a2 = if a < i {
                            a
                        } else {
                            a + 1
                        };
                        let b2 = if b < i {
                            b
                        } else {
                            b + 1
                        };
                        assert(self.nodes@[a] == p[a2]);
                        assert(self.nodes@[b] == p[b2]);
                    }
                    assert forall|k: int| 0 <= k < self.nodes@.len() implies (#[trigger] self.nodes@[k]).fd
                        != fd && self.nodes@[k].ip != p[i as int].ip && self.nodes@[k].node_id
                        != p[i as int].node_id by {
                        let k2 = if k < i {
                            k
                        } else {
                            k + 1
                        };
                        assert(self.nodes@[k] == p[k2]);
                        assert(p[k2] != p[i as int] || k2 == i);
                    }
                    assert(!peer_has_fd(self.nodes@, fd));
                    assert(!peer_has_ip(self.nodes@, p[i as int].ip));
                    assert(fd_of_id(self.nodes@, p[i as int].node_id) is None);
                }
                let b = u128_to_bytes(peer.node_id);
                proof {
                    crate::shared::lemma_bytes_deep_view(b);
                }
                let mut data: Vec<Vec<u8>> = Vec::new();
                data.push(b);
                assert(data.deep_view() =~= seq![u128_bytes(peer.node_id)]);
                let meta: Vec<Vec<u8>> = Vec::new();
                assert(meta.deep_view() =~= Seq::<Seq<u8>>::empty());
                Some(Event::new(Some(Dir::Incoming), Some(Dest::Node), NODE_DISCONNECTED, data, meta))
            },
            None => None,
        };
        let ghost w = self.readfds@;
        drop_fd(&mut self.readfds, fd);
        proof {
            lemma_dropped(w, fd, self.readfds@);
        }
        r
    }

    /// Records a peer that the scanner reached and that answered with its
    /// identity `id`, and gives the notice for the node; nothing when the
    /// descriptor, address or identity is already known.
    pub fn scanned_peer(&mut self, fd: i32, ip: u32, id: u128) -> (r: Option<Event>)
        requires
            old(self).wf(),
        ensures
            final(self).wf(),
            final(self).listeners() == old(self).listeners(),
            final(self).clients() == old(self).clients(),
            old(self).is_known_spec(fd) || peer_has_ip(old(self).peers(), ip) || fd_of_id(
                old(self).peers(),
                id,
            ) is Some ==> r is None && final(self).peers() == old(self).peers(),
            !(old(self).is_known_spec(fd) || peer_has_ip(old(self).peers(), ip) || fd_of_id(
                old(self).peers(),
                id,
            ) is Some) ==> final(self).peers() == old(self).peers().push(
                Peer { fd, ip, node_id: id },
            ) && final(self).watched().contains(fd) && (r matches Some(e) && e@ == connected_ev(
                seq![u128_bytes(id)],
            )),
    {
        if self.is_known(fd) || self.has_peer_ip(ip) || self.peer_fd_by_id(id).is_some() {
            return None;
        }
        self.add_peer(fd, ip, id);
        self.watch(fd);
        let b = u128_to_bytes(id);
        proof {
            crate::shared::lemma_bytes_deep_view(b);
        }
        let mut data: Vec<Vec<u8>> = Vec::new();
        data.push(b);
        assert(data.deep_view() =~= seq![u128_bytes(id)]);
        let meta: Vec<Vec<u8>> = Vec::new();
        assert(meta.deep_view() =~= Seq::<Seq<u8>>::empty());
        Some(Event::new(Some(Dir::Incoming), Some(Dest::Node), NODE_CONNECTED, data, meta))
    }

    /// Where an outgoing event is written: see `outgoing_writes`.
    pub fn handle_outcoming_event(&self, event: &Event) -> (r: Vec<Outgoing>)
        requires
            self.wf(),
        ensures
            outs(r@) == outgoing_writes(self.peers(), self.clients(), event@),
    {
        if event.kind == BROADCAST_EVENT {
            self.handle_broadcast_event(event)
        } else if event.kind == APPROVE_TRANSACTION || event.kind == RESPOND_CLIENT {
            let mut out: Vec<Outgoing> = Vec::new();
            if event.meta.len() > 0 {
                proof {
                    crate::shared::lemma_bytes_deep_view(event.meta@[0]);
                }
                match i32_from_ne_bytes(event.meta[0].as_slice()) {
                    Ok(fd) => {
                        let connected = if event.kind == APPROVE_TRANSACTION {
                            self.peer_index_by_fd(fd).is_some()
                        } else {
                            holds(&self.clients, fd)
                        };
                        if connected {
                            let rest = pop_head(&event.meta);
                            let e = Event::new(
                                event.dir,
                                event.dest,
                                event.kind,
                                clone_list(&event.data),
                                rest,
                            );
                            let bytes = serialize(e);
                            out.push(Outgoing { fd, bytes });
                        }
                    },
                    Err(_) => {},
                }
            }
            assert(outs(out@) =~= outgoing_writes(self.peers(), self.clients(), event@));
            out
        } else {
            let out: Vec<Outgoing> = Vec::new();
            assert(outs(out@) =~= Seq::<(i32, Seq<u8>)>::empty());
            out
        }
    }

    /// Writes the payload of a broadcast to each listed peer that is
    /// connected.
    fn handle_broadcast_event(&self, event: &Event) -> (r: Vec<Outgoing>)
        requires
            self.wf(),
            event@.kind == BROADCAST_EVENT,
        ensures
            outs(r@) == outgoing_writes(self.peers(), self.clients(), event@),
    {
        let mut out: Vec<Outgoing> = Vec::new();
        if event.data.len() < 2 {
            assert(outs(out@) =~= Seq::<(i32, Seq<u8>)>::empty());
            return out;
        }
        let ghost d = event@.data;
        proof {
            crate::shared::lemma_bytes_deep_view(event.data@[1]);
            crate::shared::lemma_bytes_deep_view(event.data@[0]);
        }
        let n = match i32_from_ne_bytes(event.data[1].as_slice()) {
            Ok(n) => n,
            Err(_) => {
                assert(outs(out@) =~= Seq::<(i32, Seq<u8>)>::empty());
                return out;
            },
        };
        if n < 0 || n as usize > event.data.len() - 2 {
            assert(outs(out@) =~= Seq::<(i32, Seq<u8>)>::empty());
            return out;
        }
        let count = n as usize;
        let len = event.data.len();
        let ghost payload = d[0];
        assert(listed_ids(d) == d.subrange(2, 2 + n));
        let mut k: usize = 0;
        assert(d.subrange(2, 2) =~= Seq::<Seq<u8>>::empty());
        while k < count
            invariant
                self.wf(),
                k <= count,
                len == event.data@.len(),
                count + 2 <= len,
                d == event@.data,
                payload == d[0],
                outs(out@) == broadcast_writes(self.peers(), payload, d.subrange(2, 2 + k as int)),
            decreases count - k,
        {
            let ghost ids = d.subrange(2, 2 + k + 1);
            proof {
                crate::shared::lemma_bytes_deep_view(event.data@[2 + k as int]);
                assert(ids.drop_last() =~= d.subrange(2, 2 + k as int));
                assert(ids.last() == d[2 + k as int]);
            }
            match u128_from_ne_bytes(event.data[2 + k].as_slice()) {
                Ok(id) => {
                    match self.peer_fd_by_id(id) {
                        Some(fd) => {
                            let bytes = event.data[0].clone();
                            proof {
                                crate::shared::lemma_bytes_deep_view(bytes);
                            }
                            assert(bytes@ =~= payload);
                            let ghost prev = out@;
                            out.push(Outgoing { fd, bytes });
                            assert(outs(out@) =~= outs(prev).push((fd, payload)));
                        },
                        None => {},
                    }
                },
                Err(_) => {},
            }
            k += 1;
        }
        out
    }

    /// The descriptors to poll for reading.
    pub fn watched_fds(&self) -> (r: Vec<i32>)
        ensures
            r@ == self.watched(),
    {
        self.readfds.clone()
    }

    /// What a readable descriptor belongs to.
    pub fn role_of(&self, fd: i32) -> (r: FdRole)
        ensures
            self.listeners().contains(fd) ==> r == FdRole::Listener,
            !self.listeners().contains(fd) && self.clients().contains(fd) ==> r == FdRole::Client,
            !self.listeners().contains(fd) && !self.clients().contains(fd) && peer_has_fd(
                self.peers(),
                fd,
            ) ==> r == FdRole::Peer,
            !self.listeners().contains(fd) && !self.clients().contains(fd) && !peer_has_fd(
                self.peers(),
                fd,
            ) ==> r == FdRole::Unknown,
    {
        if holds(&self.servers, fd) {
            FdRole::Listener
        } else if holds(&self.clients, fd) {
            FdRole::Client
        } else if self.peer_index_by_fd(fd).is_some() {
            FdRole::Peer
        } else {
            FdRole::Unknown
        }
    }
}

/// A plugin's response unwinds the meta chain to nothing: the supervisor
/// pops the plugin's tag, the server pops the client's descriptor, and the
/// client receives the response with an empty chain.
pub proof fn lemma_response_meta_unwinds(
    plugin_fd: i32,
    client_fd: i32,
    e: EventView,
    a: PluginAction,
    peers: Seq<Peer>,
    clients: Seq<i32>,
)
    requires
        e.kind == RESPOND_CLIENT,
        e.meta == seq![i32_bytes(plugin_fd), i32_bytes(client_fd)],
        outcoming_action(e, a),
        clients.contains(client_fd),
    ensures
        a matches PluginAction::Emit(x) && x@.meta == seq![i32_bytes(client_fd)] && outgoing_writes(
            peers,
            clients,
            x@,
        ) == seq![(client_fd, frame(with_meta(x@, Seq::empty())))],
{
    crate::bytes::lemma_i32_of_bytes(client_fd);
    assert(e.meta.skip(1) =~= seq![i32_bytes(client_fd)]);
    assert(seq![i32_bytes(client_fd)].skip(1) =~= Seq::<Seq<u8>>::empty());
}

/// An approval reaches the peer at the head of its meta chain, and carries
/// the rest of the chain.
pub proof fn lemma_approval_meta(
    peer_fd: i32,
    rest: Seq<Seq<u8>>,
    e: EventView,
    peers: Seq<Peer>,
    clients: Seq<i32>,
)
    requires
        e.kind == APPROVE_TRANSACTION,
        e.meta == seq![i32_bytes(peer_fd)] + rest,
        peer_has_fd(peers, peer_fd),
    ensures
        outgoing_writes(peers, clients, e) == seq![(peer_fd, frame(with_meta(e, rest)))],
{
    crate::bytes::lemma_i32_of_bytes(peer_fd);
    assert(e.meta[0] == i32_bytes(peer_fd));
    assert(e.meta.skip(1) =~= rest);
}

/// Whether `a` is probed: in the /24 of `local`, below host 255, neither
/// this node's nor a connected peer's.
pub open spec fn probed(local: u32, own: Seq<u32>, known: Seq<u32>, a: u32) -> bool {
    &&& a / 256 == local / 256
    &&& a % 256 < 255
    &&& !own.contains(a)
    &&& !known.contains(a)
}

/// The addresses to probe around `local`, in ascending order.
pub fn scan_candidates(local: u32, own: &Vec<u32>, known: &Vec<u32>) -> (r: Vec<u32>)
    ensures
        forall|a: u32| r@.contains(a) <==> probed(local, own@, known@, a),
        forall|i: int, j: int| 0 <= i < j < r@.len() ==> r@[i] < r@[j],
{
    let base: u32 = local / 256 * 256;
    let mut r: Vec<u32> = Vec::new();
    let mut h: u32 = 0;
    while h < 255
        invariant
            base == local / 256 * 256,
            h <= 255,
            forall|a: u32| r@.contains(a) <==> (probed(local, own@, known@, a) && a % 256 < h),
            forall|i: int, j: int| 0 <= i < j < r@.len() ==> r@[i] < r@[j],
            forall|i: int| 0 <= i < r@.len() ==> r@[i] < base + h,
        decreases 255 - h,
    {
        let a = base + h;
        assert(a / 256 == local / 256 && a % 256 == h) by (nonlinear_arith)
            requires
                base == local / 256 * 256,
                a == base + h,
                h < 255,
        ;
        let ghost prev = r@;
        if !holds_u32(own, a) && !holds_u32(known, a) {
            r.push(a);
        }
        proof {
            assert forall|x: u32| r@.contains(x) <==> (probed(local, own@, known@, x) && x % 256 < h
                + 1) by {
                if r@.contains(x) {
                    let k = choose|k: int| 0 <= k < r@.len() && r@[k] == x;
                    if k < prev.len() {
                        assert(prev[k] == x);
                        assert(prev.contains(x));
                    } else {
                        assert(x == a);
                        assert(!own@.contains(a) && !known@.contains(a));
                    }
                }
                if probed(local, own@, known@, x) && x % 256 < h + 1 {
                    if x % 256 < h {
                        assert(prev.contains(x));
                        let k = choose|k: int| 0 <= k < prev.len() && prev[k] == x;
                        assert(r@[k] == x);
                    } else {
                        assert(x == a) by (nonlinear_arith)
                            requires
                                x / 256 == local / 256,
                                x % 256 == h,
                                a == local / 256 * 256 + h,
                        ;
                        assert(r@[r@.len() - 1] == x);
                    }
                }
            }
        }
        h += 1;
    }
    r
}

/// Whether `v` holds `x`.
fn holds_u32(v: &Vec<u32>, x: u32) -> (r: bool)
    ensures
        r == v@.contains(x),
{
    let mut i: usize = 0;
    while i < v.len()
        invariant
            i <= v@.len(),
            forall|j: int| 0 <= j < i ==> v@[j] != x,
        decreases v.len() - i,
    {
        if v[i] == x {
            return true;
        }
        i += 1;
    }
    false
}

/// The handshake a node sends when it connects to another, and with which
/// it answers one: `MarkMeNode` carrying its identity.
pub fn node_hello(node_id: u128) -> (r: Vec<u8>)
    ensures
        r@ == frame(event_of(None, None, MARK_ME_NODE, seq![u128_bytes(node_id)], Seq::empty())),
{
    let b = u128_to_bytes(node_id);
    proof {
        crate::shared::lemma_bytes_deep_view(b);
    }
    let mut data: Vec<Vec<u8>> = Vec::new();
    data.push(b);
    assert(data.deep_view() =~= seq![u128_bytes(node_id)]);
    let meta: Vec<Vec<u8>> = Vec::new();
    assert(meta.deep_view() =~= Seq::<Seq<u8>>::empty());
    serialize(Event::new(None, None, MARK_ME_NODE, data, meta))
}

/// The identity in a peer's answer to the handshake: a `MarkMeNode` whose
/// first field is sixteen bytes.
pub fn peer_identity(reply: &Event) -> (r: Option<u128>)
    ensures
        reply@.kind == MARK_ME_NODE && reply@.data.len() > 0 ==> r == u128_of(reply@.data[0]),
        !(reply@.kind == MARK_ME_NODE && reply@.data.len() > 0) ==> r is None,
{
    if reply.kind != MARK_ME_NODE || reply.data.len() == 0 {
        return None;
    }
    proof {
        crate::shared::lemma_bytes_deep_view(reply.data@[0]);
    }
    match u128_from_ne_bytes(reply.data[0].as_slice()) {
        Ok(id) => Some(id),
        Err(_) => None,
    }
}

/// The router's choice: the component an event names, if any.
pub fn route(event: &Event) -> (r: Option<Dest>)
    ensures
        r == event@.dest,
{
    event.dest
}

/// A move that the component's state machine does not allow.
#[derive(Clone, Copy, Debug, PartialEq, Eq, Structural)]
pub enum ServerError {
    InternalError,
}

impl From<crate::fsm::FSMError> for ServerError {
    fn from(e: crate::fsm::FSMError) -> (r: ServerError) {
        ServerError::InternalError
    }
}

impl vstd::std_specs::convert::FromSpecImpl<crate::fsm::FSMError> for ServerError {
    open spec fn obeys_from_spec() -> bool {
        true
    }

    open spec fn from_spec(v: crate::fsm::FSMError) -> ServerError {
        ServerError::InternalError
    }
}

} // verus!
