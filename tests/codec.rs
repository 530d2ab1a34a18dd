use spacy::bytes::{i32_from_ne_bytes, i32_to_bytes, u128_from_ne_bytes, u128_to_bytes, u8_from_ne_bytes};
use spacy::codec::{deserialize, serialize, serialize_all};
use spacy::event::{Dest, Dir, Event, NEW_PLUGIN, RESPOND_CLIENT};

fn ev(dir: Option<Dir>, dest: Option<Dest>, kind: i32, data: Vec<Vec<u8>>, meta: Vec<Vec<u8>>) -> Event {
    Event::new(dir, dest, kind, data, meta)
}

fn same(a: &Event, b: &Event) -> bool {
    a.dir == b.dir && a.dest == b.dest && a.kind == b.kind && a.data == b.data && a.meta == b.meta
}

#[test]
fn serialize_exact_bytes() {
    let e = ev(Some(Dir::Incoming), None, NEW_PLUGIN, vec![b"ab".to_vec()], vec![]);
    assert_eq!(serialize(e), vec![8, 0x08, 1, 0x18, 2, 0x22, 2, b'a', b'b']);
}

#[test]
fn serialize_all_fields() {
    let e = ev(Some(Dir::Outcoming), Some(Dest::Server), RESPOND_CLIENT, vec![vec![]], vec![vec![7]]);
    assert_eq!(serialize(e), vec![11, 0x08, 2, 0x10, 3, 0x18, 6, 0x22, 0, 0x2a, 1, 7]);
}

#[test]
fn serialize_zero_kind_is_omitted() {
    let e = ev(None, None, 0, vec![], vec![]);
    assert_eq!(serialize(e), vec![0]);
}

#[test]
fn serialize_negative_kind_takes_ten_bytes() {
    let e = ev(None, None, -1, vec![], vec![]);
    let mut expected = vec![11, 0x18];
    expected.extend(vec![0xff; 9]);
    expected.push(0x01);
    assert_eq!(serialize(e), expected);
}

#[test]
fn serialize_long_field_uses_multibyte_length() {
    let e = ev(None, None, 0, vec![vec![1u8; 300]], vec![]);
    let bytes = serialize(e);
    // body: tag, two length bytes, 300 bytes = 303 = 0xaf 0x02
    assert_eq!(&bytes[0..5], &[0xaf, 0x02, 0x22, 0xac, 0x02]);
    assert_eq!(bytes.len(), 2 + 303);
}

#[test]
fn deserialize_round_trip_two_events() {
    let a = ev(Some(Dir::Incoming), Some(Dest::Node), 11, vec![vec![1, 2, 3], vec![]], vec![]);
    let b = ev(Some(Dir::Outcoming), None, -5, vec![vec![9; 200]], vec![vec![4, 0, 0, 0]]);
    let mut buf = serialize(a.duplicate());
    buf.extend(serialize(b.duplicate()));
    let (events, rest) = deserialize(&buf);
    assert_eq!(events.len(), 2);
    assert!(same(&events[0], &a));
    assert!(same(&events[1], &b));
    assert!(rest.is_empty());
    assert_eq!(serialize_all(&events), buf);
}

#[test]
fn deserialize_keeps_partial_tail() {
    let a = ev(Some(Dir::Incoming), None, 3, vec![b"x".to_vec()], vec![]);
    let mut buf = serialize(a.duplicate());
    let whole = buf.len();
    let b = serialize(ev(None, None, 4, vec![b"yz".to_vec()], vec![]));
    buf.extend(&b[0..3]);
    let (events, rest) = deserialize(&buf);
    assert_eq!(events.len(), 1);
    assert!(same(&events[0], &a));
    assert_eq!(rest, &buf[whole..]);
}

#[test]
fn deserialize_empty_buffer() {
    let (events, rest) = deserialize(&[]);
    assert!(events.is_empty());
    assert!(rest.is_empty());
}

#[test]
fn deserialize_stops_at_non_canonical_frame() {
    // a varint padded with a zero continuation byte is not what serialize writes
    let buf = vec![3, 0x18, 0x82, 0x00];
    let (events, rest) = deserialize(&buf);
    assert!(events.is_empty());
    assert_eq!(rest, &buf[..]);
}

#[test]
fn integers_round_trip_through_bytes() {
    let x: u128 = 0x0102_0304_0506_0708_090a_0b0c_0d0e_0f10;
    let b = u128_to_bytes(x);
    assert_eq!(b[0], 0x10);
    assert_eq!(b[15], 0x01);
    assert_eq!(u128_from_ne_bytes(&b), Ok(x));
    let y: i32 = -2;
    let c = i32_to_bytes(y);
    assert_eq!(c, vec![0xfe, 0xff, 0xff, 0xff]);
    assert_eq!(i32_from_ne_bytes(&c), Ok(-2));
    assert_eq!(i32_from_ne_bytes(&[7, 0, 0, 0]), Ok(7));
    assert_eq!(u8_from_ne_bytes(&[9]), Ok(9));
}

#[test]
fn integers_of_wrong_length_are_refused() {
    assert!(u8_from_ne_bytes(&[1, 2]).is_err());
    assert!(u128_from_ne_bytes(&[1, 2, 3]).is_err());
    let e = i32_from_ne_bytes(&[1, 2, 3]).unwrap_err();
    assert_eq!(e.expected, 4);
    assert_eq!(e.found, 3);
}
