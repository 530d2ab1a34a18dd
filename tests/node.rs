use spacy::bytes::{i32_to_bytes, u128_from_ne_bytes, u128_to_bytes};
use spacy::codec::deserialize;
use spacy::event::{UPDATE_SHARED_MEMORY, GET_FROM_SHARED_MEMORY, TRANSACTION_SUCCEEDED, TRANSACTION_FAILED, REQUEST_TRANSACTION, APPROVE_TRANSACTION, COMMIT_TRANSACTION, NODE_CONNECTED, NODE_DISCONNECTED, BROADCAST_EVENT, TX_NODE_CONNECTED, TX_SYNC_SHARED_MEMORY, TX_UPDATE_SHARED_MEMORY, Dest, Dir, Event};
use spacy::node::Node;

fn ev(dir: Option<Dir>, dest: Option<Dest>, kind: i32, data: Vec<Vec<u8>>, meta: Vec<Vec<u8>>) -> Event {
    Event::new(dir, dest, kind, data, meta)
}

fn update(key: i32, value: &[u8], meta: Vec<Vec<u8>>) -> Event {
    ev(Some(Dir::Outcoming), Some(Dest::Node), UPDATE_SHARED_MEMORY, vec![i32_to_bytes(key), value.to_vec()], meta)
}

fn get(key: i32, meta: Vec<Vec<u8>>) -> Event {
    ev(Some(Dir::Outcoming), Some(Dest::Node), GET_FROM_SHARED_MEMORY, vec![i32_to_bytes(key)], meta)
}

fn kinds(out: &[Event]) -> Vec<i32> {
    out.iter().map(|e| e.kind).collect()
}

/// A node that has been told of connections to the given peers: one
/// `NodeConnected` transaction queued for each.
fn node_with_peers(id: u128, peers: &[u128]) -> Node {
    let mut n = Node::new(id);
    for p in peers {
        let out = n.handle_incoming_event(
            ev(Some(Dir::Incoming), Some(Dest::Node), NODE_CONNECTED, vec![u128_to_bytes(*p)], vec![]),
            1,
        );
        assert!(out.is_empty());
    }
    n
}

#[test]
fn self_quorum_write_then_read() {
    let mut n = Node::new(42);
    assert!(n.step(None, 1).unwrap().is_empty()); // init -> wait
    let meta = vec![i32_to_bytes(9), i32_to_bytes(4)];
    assert!(n.step(Some(update(7, b"v", meta.clone())), 100).unwrap().is_empty());
    assert!(n.step(None, 100).unwrap().is_empty()); // queued
    let out = n.step(None, 100).unwrap(); // idle: propose; no peers: commit at once
    assert_eq!(kinds(&out), vec![BROADCAST_EVENT, BROADCAST_EVENT, TRANSACTION_SUCCEEDED]);
    assert_eq!(out[2].meta, meta);
    assert_eq!(out[2].dest, Some(Dest::PluginMan));
    // the broadcast lists no peers
    assert_eq!(out[0].data.len(), 2);
    assert_eq!(out[0].data[1], i32_to_bytes(0));
    let out = n.handle_request_get_from_shared_memory_outcoming(get(7, vec![i32_to_bytes(9)]));
    assert_eq!(out.len(), 1);
    assert_eq!(out[0].kind, GET_FROM_SHARED_MEMORY);
    assert_eq!(out[0].data, vec![b"v".to_vec()]);
    assert_eq!(out[0].meta, vec![i32_to_bytes(9)]);
}

#[test]
fn read_of_missing_key_has_no_data() {
    let n = Node::new(1);
    let out = n.handle_request_get_from_shared_memory_outcoming(get(3, vec![]));
    assert_eq!(out.len(), 1);
    assert!(out[0].data.is_empty());
}

#[test]
fn malformed_write_is_refused() {
    let mut n = Node::new(1);
    let bad = ev(Some(Dir::Outcoming), None, UPDATE_SHARED_MEMORY, vec![vec![1, 2]], vec![vec![5]]);
    let out = n.handle_request_update_shared_memory_outcoming(bad);
    assert_eq!(kinds(&out), vec![TRANSACTION_FAILED]);
    assert_eq!(out[0].meta, vec![vec![5]]);
}

#[test]
fn commit_version_is_the_commit_time() {
    let mut n = Node::new(1);
    n.handle_request_update_shared_memory_outcoming(update(1, b"a", vec![]));
    let out = n.propose_next(555);
    // request broadcast, commit broadcast, success
    assert_eq!(out.len(), 3);
    let (inner, rest) = deserialize(&out[1].data[0]);
    assert!(rest.is_empty());
    assert_eq!(inner[0].kind, COMMIT_TRANSACTION);
    assert_eq!(u128_from_ne_bytes(&inner[0].data[0]), Ok(1));
    assert_eq!(inner[0].data[1], i32_to_bytes(TX_UPDATE_SHARED_MEMORY));
    assert_eq!(u128_from_ne_bytes(&inner[0].data[2]), Ok(555));
}

#[test]
fn stale_commit_is_a_no_op() {
    let mut n = Node::new(1);
    n.handle_request_update_shared_memory_outcoming(update(5, b"new", vec![]));
    n.propose_next(1000);
    // a commit of an older version from the node itself changes nothing
    let stale = ev(None, None, COMMIT_TRANSACTION,
        vec![u128_to_bytes(2), i32_to_bytes(TX_UPDATE_SHARED_MEMORY), u128_to_bytes(999), i32_to_bytes(5), b"old".to_vec()],
        vec![]);
    let out = n.handle_perform_transaction(stale);
    assert!(out.is_empty());
    let got = n.handle_request_get_from_shared_memory_outcoming(get(5, vec![]));
    assert_eq!(got[0].data, vec![b"new".to_vec()]);
    // and a stale sync too
    let sync = ev(None, None, COMMIT_TRANSACTION,
        vec![u128_to_bytes(2), i32_to_bytes(TX_SYNC_SHARED_MEMORY), u128_to_bytes(1000)],
        vec![]);
    n.handle_perform_transaction(sync);
    let got = n.handle_request_get_from_shared_memory_outcoming(get(5, vec![]));
    assert_eq!(got[0].data, vec![b"new".to_vec()]);
}

#[test]
fn newer_sync_replaces_the_map() {
    let mut n = Node::new(1);
    let sync = ev(None, None, COMMIT_TRANSACTION,
        vec![u128_to_bytes(2), i32_to_bytes(TX_SYNC_SHARED_MEMORY), u128_to_bytes(10),
             i32_to_bytes(1), b"one".to_vec(), i32_to_bytes(2), b"two".to_vec()],
        vec![]);
    n.handle_perform_transaction(sync);
    let got = n.handle_request_get_from_shared_memory_outcoming(get(2, vec![]));
    assert_eq!(got[0].data, vec![b"two".to_vec()]);
}

#[test]
fn connected_peer_joins_and_sync_follows() {
    let mut n = node_with_peers(10, &[20]);
    // the NodeConnected transaction commits at once: no peers yet
    let out = n.propose_next(1);
    assert_eq!(kinds(&out), vec![BROADCAST_EVENT, BROADCAST_EVENT]);
    // a sync is now queued; proposing it goes to the new peer
    let out = n.propose_next(2);
    assert_eq!(kinds(&out), vec![BROADCAST_EVENT]);
    assert_eq!(out[0].data[1], i32_to_bytes(1));
    assert_eq!(out[0].data[2], u128_to_bytes(20));
    let (inner, _) = deserialize(&out[0].data[0]);
    assert_eq!(inner[0].kind, REQUEST_TRANSACTION);
    assert_eq!(inner[0].data[0], i32_to_bytes(TX_SYNC_SHARED_MEMORY));
    assert_eq!(inner[0].data[1], u128_to_bytes(10));
    // the peer approves: the sync commits
    let approve = ev(Some(Dir::Incoming), Some(Dest::Node), APPROVE_TRANSACTION, vec![u128_to_bytes(20)], vec![]);
    let out = n.handle_approve_transaction_incoming(approve, 3);
    assert_eq!(kinds(&out), vec![BROADCAST_EVENT]);
}

fn request(kind: i32, from: u128, extra: Vec<Vec<u8>>, meta: Vec<Vec<u8>>) -> Event {
    let mut data = vec![i32_to_bytes(kind), u128_to_bytes(from)];
    data.extend(extra);
    ev(Some(Dir::Incoming), Some(Dest::Node), REQUEST_TRANSACTION, data, meta)
}

/// A node whose peer 20 has joined and whose sync has committed.
fn joined_node(id: u128) -> Node {
    let mut n = node_with_peers(id, &[20]);
    n.propose_next(1);
    n.propose_next(2);
    let approve = ev(Some(Dir::Incoming), None, APPROVE_TRANSACTION, vec![u128_to_bytes(20)], vec![]);
    n.handle_approve_transaction_incoming(approve, 3);
    n
}

#[test]
fn request_from_non_peer_is_ignored() {
    let mut n = Node::new(1);
    let out = n.handle_request_transaction_incoming(request(3, 99, vec![], vec![]));
    assert!(out.is_empty());
}

#[test]
fn idle_node_approves_a_peer() {
    let mut n = joined_node(10);
    let meta = vec![i32_to_bytes(6)];
    let out = n.handle_request_transaction_incoming(request(3, 20, vec![], meta.clone()));
    assert_eq!(kinds(&out), vec![APPROVE_TRANSACTION]);
    assert_eq!(out[0].data, vec![u128_to_bytes(10)]);
    assert_eq!(out[0].meta, meta);
    assert_eq!(out[0].dest, Some(Dest::Server));
}

#[test]
fn concurrent_writes_lower_identity_fails() {
    // this node (10) and peer 20 both propose an update; 20 wins
    let mut n = joined_node(10);
    let plugin_meta = vec![i32_to_bytes(8)];
    n.handle_request_update_shared_memory_outcoming(update(5, b"mine", plugin_meta.clone()));
    let out = n.propose_next(50);
    assert_eq!(kinds(&out), vec![BROADCAST_EVENT]);
    let out = n.handle_request_transaction_incoming(request(3, 20, vec![], vec![i32_to_bytes(4)]));
    assert_eq!(kinds(&out), vec![TRANSACTION_FAILED, APPROVE_TRANSACTION]);
    assert_eq!(out[0].meta, plugin_meta);
}

#[test]
fn concurrent_writes_higher_identity_keeps() {
    let mut n = joined_node(30);
    n.handle_request_update_shared_memory_outcoming(update(5, b"mine", vec![]));
    n.propose_next(50);
    let out = n.handle_request_transaction_incoming(request(3, 20, vec![], vec![]));
    assert!(out.is_empty());
    // the peer's approval then commits the local write
    let approve = ev(Some(Dir::Incoming), None, APPROVE_TRANSACTION, vec![u128_to_bytes(20)], vec![]);
    let out = n.handle_approve_transaction_incoming(approve, 60);
    assert_eq!(kinds(&out), vec![BROADCAST_EVENT, TRANSACTION_SUCCEEDED]);
}

#[test]
fn lower_kind_wins_over_an_update() {
    let mut n = joined_node(30);
    n.handle_request_update_shared_memory_outcoming(update(5, b"mine", vec![]));
    n.propose_next(50);
    let out = n.handle_request_transaction_incoming(request(TX_NODE_CONNECTED, 20, vec![], vec![]));
    assert_eq!(kinds(&out), vec![TRANSACTION_FAILED, APPROVE_TRANSACTION]);
}

#[test]
fn peer_disconnect_completes_the_commit() {
    // master with peers 20 and 40, approved by 20; 40 disconnects
    let mut n = node_with_peers(10, &[20, 40]);
    n.propose_next(1); // connect 20: commits at once
    let approve20 = ev(Some(Dir::Incoming), None, APPROVE_TRANSACTION, vec![u128_to_bytes(20)], vec![]);
    n.propose_next(2); // connect 40: needs 20's approval
    n.handle_approve_transaction_incoming(approve20.duplicate(), 3);
    // drain the two syncs
    for t in 4..8u128 {
        let out = n.propose_next(t);
        if !out.is_empty() {
            let a40 = ev(Some(Dir::Incoming), None, APPROVE_TRANSACTION, vec![u128_to_bytes(40)], vec![]);
            n.handle_approve_transaction_incoming(approve20.duplicate(), t);
            n.handle_approve_transaction_incoming(a40, t);
        }
    }
    n.handle_request_update_shared_memory_outcoming(update(1, b"x", vec![i32_to_bytes(3)]));
    let out = n.propose_next(100);
    assert_eq!(out[0].data[1], i32_to_bytes(2));
    let out = n.handle_approve_transaction_incoming(approve20, 101);
    assert!(out.is_empty());
    let gone = ev(Some(Dir::Incoming), Some(Dest::Node), NODE_DISCONNECTED, vec![u128_to_bytes(40)], vec![]);
    let out = n.handle_request_old_connection_outcoming(gone, 102);
    assert_eq!(kinds(&out), vec![BROADCAST_EVENT, TRANSACTION_SUCCEEDED]);
    // the commit went to the one remaining peer
    assert_eq!(out[0].data[1], i32_to_bytes(1));
    assert_eq!(out[0].data[2], u128_to_bytes(20));
}

#[test]
fn approvals_from_non_peers_do_not_count() {
    let mut n = joined_node(10);
    n.handle_request_update_shared_memory_outcoming(update(1, b"x", vec![]));
    n.propose_next(100);
    let stranger = ev(Some(Dir::Incoming), None, APPROVE_TRANSACTION, vec![u128_to_bytes(77)], vec![]);
    assert!(n.handle_approve_transaction_incoming(stranger, 101).is_empty());
}

#[test]
fn version_never_decreases_over_steps() {
    let mut n = Node::new(1);
    n.step(None, 1).unwrap();
    n.step(Some(update(1, b"a", vec![])), 500).unwrap();
    n.step(None, 500).unwrap();
    let out = n.step(None, 500).unwrap();
    assert_eq!(out.len(), 3);
    // a second write at an earlier clock still gets a newer version
    n.step(Some(update(1, b"b", vec![])), 10).unwrap();
    n.step(None, 10).unwrap();
    let out = n.step(None, 10).unwrap();
    let (inner, _) = deserialize(&out[1].data[0]);
    assert_eq!(u128_from_ne_bytes(&inner[0].data[2]), Ok(501));
}

#[test]
fn event_without_direction_is_dropped() {
    let mut n = Node::new(1);
    n.step(None, 1).unwrap();
    let out = n.step(Some(ev(None, None, UPDATE_SHARED_MEMORY, vec![], vec![])), 1).unwrap();
    assert!(out.is_empty());
    assert!(n.step(None, 1).unwrap().is_empty());
    assert_eq!(n.get_node_id(), 1);
}
