use spacy::bytes::{i32_to_bytes, u128_to_bytes};
use spacy::codec::{deserialize, serialize};
use spacy::event::{MARK_ME_CLIENT, MARK_ME_NODE, NEW_PLUGIN, RESPOND_CLIENT, REQUEST_TRANSACTION, APPROVE_TRANSACTION, NODE_CONNECTED, NODE_DISCONNECTED, BROADCAST_EVENT, NEW_FD, OLD_FD, Dest, Dir, Event};
use spacy::server::{node_hello, peer_identity, route, FdRole, Handshake, Server};

fn ev(dir: Option<Dir>, dest: Option<Dest>, kind: i32, data: Vec<Vec<u8>>, meta: Vec<Vec<u8>>) -> Event {
    Event::new(dir, dest, kind, data, meta)
}

#[test]
fn handshakes_classify_connections() {
    let mut s = Server::new(77);
    s.add_listener(3);
    assert_eq!(s.role_of(3), FdRole::Listener);
    let c = s.accept_handshake(4, 0x0a000002, Some(ev(None, None, MARK_ME_CLIENT, vec![], vec![])));
    assert!(matches!(c, Handshake::Client));
    assert_eq!(s.role_of(4), FdRole::Client);
    let n = s.accept_handshake(5, 0x0a000003, Some(ev(None, None, MARK_ME_NODE, vec![u128_to_bytes(88)], vec![])));
    match n {
        Handshake::Node { reply, notify } => {
            let (events, _) = deserialize(&reply);
            assert_eq!(events[0].kind, MARK_ME_NODE);
            assert_eq!(events[0].data, vec![u128_to_bytes(77)]);
            assert_eq!(notify.kind, NODE_CONNECTED);
            assert_eq!(notify.dest, Some(Dest::Node));
            assert_eq!(notify.data, vec![u128_to_bytes(88)]);
        }
        _ => panic!("expected a peer"),
    }
    assert_eq!(s.role_of(5), FdRole::Peer);
    assert_eq!(s.peer_fd_by_id(88), Some(5));
    let d = s.accept_handshake(6, 0x0a000003, Some(ev(None, None, MARK_ME_NODE, vec![u128_to_bytes(89)], vec![])));
    assert!(matches!(d, Handshake::Duplicate));
    let r = s.accept_handshake(7, 0x0a000004, Some(ev(None, None, NEW_PLUGIN, vec![], vec![])));
    assert!(matches!(r, Handshake::Reject));
    assert_eq!(s.role_of(7), FdRole::Unknown);
}

#[test]
fn ingress_tags_the_origin() {
    let e = ev(Some(Dir::Incoming), None, NEW_PLUGIN, vec![b"s".to_vec()], vec![]);
    let out = Server::client_events(4, vec![e]);
    assert_eq!(out[0].dest, Some(Dest::PluginMan));
    assert_eq!(out[0].meta, vec![i32_to_bytes(4)]);
    let p = ev(None, None, REQUEST_TRANSACTION, vec![], vec![vec![1]]);
    let out = Server::peer_events(5, vec![p]);
    assert_eq!(out[0].dest, Some(Dest::Node));
    assert_eq!(out[0].dir, Some(Dir::Incoming));
    assert_eq!(out[0].meta, vec![i32_to_bytes(5), vec![1]]);
}

fn server_with_peers() -> Server {
    let mut s = Server::new(1);
    assert!(s.scanned_peer(10, 1, 100).is_some());
    assert!(s.scanned_peer(11, 2, 200).is_some());
    assert!(s.scanned_peer(12, 2, 300).is_none());
    let c = s.accept_handshake(20, 9, Some(ev(None, None, MARK_ME_CLIENT, vec![], vec![])));
    assert!(matches!(c, Handshake::Client));
    s
}

#[test]
fn broadcast_goes_to_listed_connected_peers() {
    let s = server_with_peers();
    let b = ev(Some(Dir::Outcoming), Some(Dest::Server), BROADCAST_EVENT,
        vec![b"payload".to_vec(), i32_to_bytes(3), u128_to_bytes(200), u128_to_bytes(999), u128_to_bytes(100)],
        vec![]);
    let out = s.handle_outcoming_event(&b);
    assert_eq!(out.len(), 2);
    assert_eq!(out[0].fd, 11);
    assert_eq!(out[1].fd, 10);
    assert_eq!(out[0].bytes, b"payload".to_vec());
}

#[test]
fn approval_pops_the_peer_descriptor() {
    let s = server_with_peers();
    let a = ev(Some(Dir::Outcoming), Some(Dest::Server), APPROVE_TRANSACTION, vec![u128_to_bytes(1)],
        vec![i32_to_bytes(10), vec![42]]);
    let out = s.handle_outcoming_event(&a);
    assert_eq!(out.len(), 1);
    assert_eq!(out[0].fd, 10);
    let expected = serialize(ev(Some(Dir::Outcoming), Some(Dest::Server), APPROVE_TRANSACTION, vec![u128_to_bytes(1)], vec![vec![42]]));
    assert_eq!(out[0].bytes, expected);
}

#[test]
fn response_reaches_client_with_empty_meta() {
    let mut s = server_with_peers();
    let r = ev(Some(Dir::Outcoming), Some(Dest::Server), RESPOND_CLIENT, vec![i32_to_bytes(0)], vec![i32_to_bytes(20)]);
    let out = s.handle_outcoming_event(&r);
    assert_eq!(out.len(), 1);
    assert_eq!(out[0].fd, 20);
    let (events, _) = deserialize(&out[0].bytes);
    assert!(events[0].meta.is_empty());
    assert_eq!(events[0].data, vec![i32_to_bytes(0)]);
    // after the client left, the response is dropped
    s.client_closed(20);
    assert!(s.handle_outcoming_event(&r).is_empty());
}

#[test]
fn closed_peer_is_reported() {
    let mut s = server_with_peers();
    let e = s.peer_closed(11).unwrap();
    assert_eq!(e.kind, NODE_DISCONNECTED);
    assert_eq!(e.data, vec![u128_to_bytes(200)]);
    assert!(s.peer_closed(11).is_none());
    assert_eq!(s.peer_fd_by_id(200), None);
    assert!(!s.has_peer_ip(2));
}

#[test]
fn control_events_change_the_watch_list() {
    let mut s = Server::new(1);
    assert!(s.handle_control_event(&ev(Some(Dir::Incoming), None, NEW_FD, vec![i32_to_bytes(9)], vec![])));
    assert!(s.handle_control_event(&ev(Some(Dir::Incoming), None, OLD_FD, vec![i32_to_bytes(9)], vec![])));
    assert!(!s.handle_control_event(&ev(Some(Dir::Incoming), None, NEW_PLUGIN, vec![], vec![])));
}

#[test]
fn router_follows_the_destination() {
    assert_eq!(route(&ev(None, Some(Dest::Node), 1, vec![], vec![])), Some(Dest::Node));
    assert_eq!(route(&ev(None, None, 1, vec![], vec![])), None);
}

#[test]
fn hello_and_identity() {
    let bytes = node_hello(123);
    let (events, rest) = deserialize(&bytes);
    assert!(rest.is_empty());
    assert_eq!(peer_identity(&events[0]), Some(123));
    let other = ev(None, None, MARK_ME_CLIENT, vec![u128_to_bytes(5)], vec![]);
    assert_eq!(peer_identity(&other), None);
}

#[test]
fn rejected_handshake_leaves_no_trace() {
    let mut s = server_with_peers();
    let r = s.accept_handshake(30, 0x0a000009, Some(ev(None, None, MARK_ME_NODE, vec![vec![1, 2]], vec![])));
    assert!(matches!(r, Handshake::Reject));
    assert_eq!(s.role_of(30), FdRole::Unknown);
    assert!(!s.watched_fds().contains(&30));
}
