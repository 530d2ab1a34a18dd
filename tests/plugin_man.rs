use spacy::bytes::i32_to_bytes;
use spacy::codec::{deserialize, serialize};
use spacy::event::{NEW_PLUGIN, REMOVE_PLUGIN, GET_PLUGIN_LIST, NEW_PLUGIN_EVENT, RESPOND_CLIENT, UPDATE_SHARED_MEMORY, GET_FROM_SHARED_MEMORY, TRANSACTION_SUCCEEDED, Dest, Dir, Event};
use spacy::plugin_man::{tag_plugin_event, PluginAction, PluginMan};

fn ev(dir: Option<Dir>, dest: Option<Dest>, kind: i32, data: Vec<Vec<u8>>, meta: Vec<Vec<u8>>) -> Event {
    Event::new(dir, dest, kind, data, meta)
}

fn client(kind: i32, data: Vec<Vec<u8>>) -> Event {
    ev(Some(Dir::Incoming), Some(Dest::PluginMan), kind, data, vec![i32_to_bytes(5)])
}

fn emitted(a: PluginAction) -> Event {
    match a {
        PluginAction::Emit(e) => e,
        _ => panic!("expected an event for the router"),
    }
}

fn written(a: PluginAction) -> (i32, Vec<u8>) {
    match a {
        PluginAction::Write { fd, bytes } => (fd, bytes),
        _ => panic!("expected a write"),
    }
}

fn with_p1() -> PluginMan {
    let mut pm = PluginMan::new();
    let a = pm.handle_event(client(NEW_PLUGIN, vec![b"#src=print('hi')".to_vec(), b"p1".to_vec()]));
    match a {
        PluginAction::Spawn { source, name, meta } => {
            assert_eq!(source, b"#src=print('hi')".to_vec());
            assert_eq!(name, b"p1".to_vec());
            let (ok, resp) = pm.plugin_started(name, 1234, 11, meta);
            assert!(ok);
            assert_eq!(resp.kind, RESPOND_CLIENT);
            assert_eq!(resp.data, vec![i32_to_bytes(0)]);
            assert_eq!(resp.meta, vec![i32_to_bytes(5)]);
            assert_eq!(resp.dest, Some(Dest::Server));
        }
        _ => panic!("expected a spawn"),
    }
    pm
}

#[test]
fn single_node_plugin_upload() {
    let pm = with_p1();
    assert!(pm.is_running(&b"p1".to_vec()));
    assert_eq!(pm.plugin_fds(), vec![11]);
}

#[test]
fn name_collision() {
    let mut pm = with_p1();
    let e = emitted(pm.handle_event(client(NEW_PLUGIN, vec![b"#other".to_vec(), b"p1".to_vec()])));
    assert_eq!(e.kind, RESPOND_CLIENT);
    assert_eq!(e.data, vec![i32_to_bytes(-3)]);
    assert_eq!(pm.plugin_fds(), vec![11]);
}

#[test]
fn failed_start_reports_status() {
    let e = PluginMan::plugin_failed(-2, vec![i32_to_bytes(5)]);
    assert_eq!(e.data, vec![i32_to_bytes(-2)]);
    assert_eq!(e.meta, vec![i32_to_bytes(5)]);
}

#[test]
fn clashing_registration_is_refused() {
    let mut pm = with_p1();
    let (ok, resp) = pm.plugin_started(b"p2".to_vec(), 99, 11, vec![]);
    assert!(!ok);
    assert_eq!(resp.data, vec![i32_to_bytes(-1)]);
}

#[test]
fn list_and_remove() {
    let mut pm = with_p1();
    let e = emitted(pm.handle_event(client(GET_PLUGIN_LIST, vec![])));
    assert_eq!(e.data, vec![b"p1".to_vec()]);
    match pm.handle_event(client(REMOVE_PLUGIN, vec![b"p1".to_vec()])) {
        PluginAction::Stop { pid, fd, response } => {
            assert_eq!(pid, 1234);
            assert_eq!(fd, 11);
            assert_eq!(response.data, vec![i32_to_bytes(0)]);
        }
        _ => panic!("expected a stop"),
    }
    let e = emitted(pm.handle_event(client(REMOVE_PLUGIN, vec![b"p1".to_vec()])));
    assert_eq!(e.data, vec![i32_to_bytes(-1)]);
    let e = emitted(pm.handle_event(client(GET_PLUGIN_LIST, vec![])));
    assert!(e.data.is_empty());
}

#[test]
fn event_for_unknown_plugin() {
    let mut pm = with_p1();
    let e = emitted(pm.handle_event(client(NEW_PLUGIN_EVENT, vec![b"nope".to_vec(), vec![]])));
    assert_eq!(e.data, vec![i32_to_bytes(-1)]);
}

#[test]
fn event_for_plugin_is_rewrapped_with_client_meta() {
    let mut pm = with_p1();
    let inner = serialize(ev(Some(Dir::Incoming), None, UPDATE_SHARED_MEMORY, vec![i32_to_bytes(7), b"v".to_vec()], vec![]));
    let (fd, bytes) = written(pm.handle_event(client(NEW_PLUGIN_EVENT, vec![b"p1".to_vec(), inner])));
    assert_eq!(fd, 11);
    let (events, rest) = deserialize(&bytes);
    assert!(rest.is_empty());
    assert_eq!(events.len(), 1);
    assert_eq!(events[0].kind, UPDATE_SHARED_MEMORY);
    assert_eq!(events[0].dir, Some(Dir::Incoming));
    assert_eq!(events[0].meta, vec![i32_to_bytes(5)]);
}

#[test]
fn node_answer_reaches_plugin_without_meta() {
    let mut pm = with_p1();
    let answer = ev(Some(Dir::Incoming), Some(Dest::PluginMan), GET_FROM_SHARED_MEMORY, vec![b"v".to_vec()], vec![i32_to_bytes(11)]);
    let (fd, bytes) = written(pm.handle_event(answer));
    assert_eq!(fd, 11);
    let (events, _) = deserialize(&bytes);
    assert_eq!(events[0].data, vec![b"v".to_vec()]);
    assert!(events[0].meta.is_empty());
}

#[test]
fn answer_for_closed_plugin_is_dropped() {
    let mut pm = with_p1();
    assert_eq!(pm.forget_fd(11), Some(1234));
    let done = ev(Some(Dir::Incoming), Some(Dest::PluginMan), TRANSACTION_SUCCEEDED, vec![], vec![i32_to_bytes(11)]);
    assert!(matches!(pm.handle_event(done), PluginAction::Nothing));
    assert_eq!(pm.forget_fd(11), None);
}

#[test]
fn plugin_events_are_routed() {
    let pm = with_p1();
    let w = tag_plugin_event(11, ev(Some(Dir::Outcoming), None, UPDATE_SHARED_MEMORY, vec![i32_to_bytes(1), b"x".to_vec()], vec![]));
    assert_eq!(w.meta, vec![i32_to_bytes(11)]);
    let e = emitted(pm.handle_outcoming_event(w));
    assert_eq!(e.dest, Some(Dest::Node));
    assert_eq!(e.meta, vec![i32_to_bytes(11)]);
    let r = tag_plugin_event(11, ev(Some(Dir::Outcoming), None, RESPOND_CLIENT, vec![b"ok".to_vec()], vec![i32_to_bytes(5)]));
    let e = emitted(pm.handle_outcoming_event(r));
    assert_eq!(e.dest, Some(Dest::Server));
    assert_eq!(e.meta, vec![i32_to_bytes(5)]);
    let unknown = ev(Some(Dir::Outcoming), None, 999, vec![], vec![]);
    assert!(matches!(pm.handle_outcoming_event(unknown), PluginAction::Nothing));
}

#[test]
fn commit_notice_reaches_plugin_without_meta() {
    let mut pm = with_p1();
    let done = ev(Some(Dir::Incoming), Some(Dest::PluginMan), TRANSACTION_SUCCEEDED, vec![], vec![i32_to_bytes(11), vec![3]]);
    let (fd, bytes) = written(pm.handle_event(done));
    assert_eq!(fd, 11);
    let (events, _) = deserialize(&bytes);
    assert_eq!(events[0].kind, TRANSACTION_SUCCEEDED);
    assert!(events[0].meta.is_empty());
}

#[test]
fn registration_under_a_taken_name_answers_name_taken() {
    let mut pm = with_p1();
    let (ok, resp) = pm.plugin_started(b"p1".to_vec(), 5, 12, vec![]);
    assert!(!ok);
    assert_eq!(resp.data, vec![i32_to_bytes(-3)]);
}
