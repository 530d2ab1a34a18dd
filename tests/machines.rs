use std::collections::HashMap;
use spacy::command::EventChannel;
use spacy::message::{deserialize_message, serialize_message, MessageError, WireMessage};
use spacy::server::scan_candidates;
use spacy::command::{event_kind_from_string, gen_transitions, ClientHandlerState, EventKind, EventSender, MCEvents, MPEvents, Message};
use spacy::command::Event as Command;
use spacy::event::{Event, NEW_PLUGIN};
use spacy::fsm::{FSMError, StateMachine, StateMachineError, FSM};

#[test]
fn fsm_moves_by_its_table() {
    let mut t = HashMap::new();
    t.insert(0u8, vec![1u8, 4]);
    t.insert(1u8, vec![2u8]);
    let mut m = FSM::new(0, t);
    assert!(m.transition(1).is_ok());
    assert_eq!(m.state, 1);
    assert_eq!(m.transition(4), Err(FSMError::TransitionError));
    assert_eq!(m.state, 1);
    assert!(m.transition(2).is_ok());
    assert_eq!(m.transition(0), Err(FSMError::TransitionError));
}

#[test]
fn fsm_queue_is_first_in_first_out() {
    let mut m = FSM::new(0, HashMap::new());
    assert!(m.is_queue_empty());
    m.push_event(Event::new(None, None, 1, vec![], vec![]));
    m.push_event(Event::new(None, None, 2, vec![], vec![]));
    assert_eq!(m.pop_event().unwrap().kind, 1);
    assert_eq!(m.pop_event().unwrap().kind, 2);
    assert!(m.pop_event().is_none());
}

#[test]
fn state_machine_tells_unknown_states() {
    let mut m = StateMachine::new(ClientHandlerState::Init.code(), gen_transitions());
    assert!(m.transition(2).is_ok());
    assert_eq!(m.state, 2);
    assert_eq!(m.transition(1), Err(StateMachineError::UnknownState));
    let mut t = HashMap::new();
    t.insert(0u8, vec![1u8]);
    let mut m = StateMachine::new(0, t);
    assert_eq!(m.transition(5), Err(StateMachineError::TrainsitionError));
}

#[test]
fn client_handler_states_and_codes() {
    assert_eq!(ClientHandlerState::from_code(2), Some(ClientHandlerState::WaitEvent));
    assert_eq!(ClientHandlerState::from_code(3), None);
    assert_eq!(MCEvents::AddPlugin.code(), 16);
    assert_eq!(MPEvents::from_code(65), Some(MPEvents::NewMainCommand));
    let t = gen_transitions();
    assert_eq!(t.get(&1), Some(&vec![2u8]));
    assert_eq!(t.len(), 1);
}

#[test]
fn words_name_kinds() {
    assert_eq!(EventKind::GetNodes.to_string(), "get_nodes");
    assert_eq!(event_kind_from_string("broadcast"), Ok(EventKind::Broadcast));
    assert_eq!(event_kind_from_string("new_plugin"), Ok(EventKind::NewPlugin));
    assert_eq!(event_kind_from_string("other"), Err("Match not found".to_string()));
}

#[test]
fn messages_split_and_join() {
    let m = Message::from_text("new_plugin;a;;b");
    assert_eq!(m.to_vec(), vec!["new_plugin", "a", "", "b"]);
    assert_eq!(Message::from_text("x;y").to_string(), "x;y");
    assert_eq!(Message::from_text("cmd;p;q").skip_first(), "p;q");
    assert_eq!(Message::from_text("").to_vec(), vec![""]);
    assert_eq!(Message::from_parts(vec![]).skip_first(), "");
    let c = Command::new(EventSender::Node, EventKind::Other, vec!["1".to_string(), "2".to_string()]);
    assert_eq!(Message::from_event(c).to_string(), "other;1;2");
    let _ = NEW_PLUGIN;
}

#[test]
fn command_messages_round_trip() {
    let m = WireMessage { cmd: Some(16), data: vec!["plugin.py".to_string(), "é".to_string()] };
    let bytes = serialize_message(m);
    let mut expected = vec![0x08, 16, 0x12, 9];
    expected.extend(b"plugin.py");
    expected.extend(vec![0x12, 2, 0xc3, 0xa9]);
    assert_eq!(bytes, expected);
    let back = deserialize_message(&bytes).unwrap();
    assert_eq!(back.cmd, Some(16));
    assert_eq!(back.data, vec!["plugin.py".to_string(), "é".to_string()]);
    let empty = serialize_message(WireMessage { cmd: None, data: vec![] });
    assert!(empty.is_empty());
    assert_eq!(deserialize_message(&[]).unwrap().cmd, None);
    assert_eq!(deserialize_message(&[0x12, 1, 0xff]).err(), Some(MessageError::NotText));
    assert_eq!(deserialize_message(&[0x12, 5, 1]).err(), Some(MessageError::Malformed));
}

#[test]
fn scanner_skips_own_and_known_addresses() {
    let local = 0x0a00_0007u32;
    let known = vec![0x0a00_0009u32];
    let r = scan_candidates(local, &vec![local], &known);
    assert_eq!(r.len(), 253);
    assert_eq!(r[0], 0x0a00_0000u32);
    assert_eq!(*r.last().unwrap(), 0x0a00_00feu32);
    assert!(!r.contains(&local));
    assert!(!r.contains(&known[0]));
}

#[test]
fn channels_are_kept() {
    let (tx, rx) = std::sync::mpsc::channel();
    let lb = tx.clone();
    let ch = EventChannel::new(tx, rx, lb);
    ch.tx.send(Command::new(EventSender::Main, EventKind::GetNodes, vec![])).unwrap();
    let got = ch.rx.recv().unwrap();
    assert_eq!(got.kind, EventKind::GetNodes);
    assert_eq!(got.sender, EventSender::Main);
}

#[test]
fn every_kind_word_is_read_back() {
    for k in [EventKind::NewPlugin, EventKind::NewMessage, EventKind::GetNodes, EventKind::Broadcast, EventKind::Other] {
        assert_eq!(EventKind::from_word(&k.to_string()), Some(k));
    }
    assert_eq!(EventKind::from_word("nothing"), None);
}
