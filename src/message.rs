//! The command message of the text protocol on the wire: an optional
//! command code (field 1, `int32`) and repeated text arguments (field 2),
//! as one protobuf message without a length prefix.
use vstd::prelude::*;
use vstd::string::{StringExecFns, StringSliceAdditionalSpecFns};
use crate::codec::lemma_fields_start;
use crate::codec::{
    bytes_fields, kind_from_wire, kind_to_wire, kind_wire, lemma_starts_with_concat, put_fields,
    put_varint, read_fields, read_varint_at, varint,
};

verus! {

/// Tag of field 1 (`cmd`, varint).
pub const TAG_CMD: u8 = 0x08;
/// Tag of field 2 (`data`, length-delimited).
pub const TAG_TEXT: u8 = 0x12;

/// A command message: a code and text arguments.
pub struct WireMessage {
    pub cmd: Option<i32>,
    pub data: Vec<String>,
}

/// The UTF-8 bytes of each text.
pub open spec fn utf8_of(v: Seq<String>) -> Seq<Seq<u8>> {
    v.map_values(|s: String| vstd::utf8::encode_utf8(s@))
}

/// The encoded `cmd` field; absent when there is no code.
pub open spec fn cmd_part(c: Option<i32>) -> Seq<u8> {
    match c {
        Some(k) => seq![TAG_CMD] + varint(kind_wire(k)),
        None => Seq::empty(),
    }
}

/// A command message on the wire.
pub open spec fn message_bytes(cmd: Option<i32>, data: Seq<Seq<u8>>) -> Seq<u8> {
    cmd_part(cmd) + bytes_fields(TAG_TEXT, data)
}

/// A failure to decode a command message.
#[derive(Clone, Copy, Debug, PartialEq, Eq, Structural)]
pub enum MessageError {
    /// The bytes are not a command message in the form that
    /// `serialize_message` writes.
    Malformed,
    /// An argument is not UTF-8 text.
    NotText,
}

/// Relies on `std::str::from_utf8`: the text whose UTF-8 encoding the bytes
/// are, if they are UTF-8.
#[verifier::external_body]
fn utf8_text(b: &[u8]) -> (r: Option<&str>)
    ensures
        r is Some <==> vstd::utf8::valid_utf8(b@),
        r matches Some(s) ==> s.spec_bytes() == b@,
{
    std::str::from_utf8(b).ok()
}

/// Encodes a command message.
pub fn serialize_message(message: WireMessage) -> (r: Vec<u8>)
    ensures
        r@ == message_bytes(message.cmd, utf8_of(message.data@)),
{
    let mut out: Vec<u8> = Vec::new();
    match message.cmd {
        Some(k) => {
            out.push(TAG_CMD);
            put_varint(&mut out, kind_to_wire(k));
        },
        None => {},
    }
    let mut texts: Vec<Vec<u8>> = Vec::new();
    let mut i: usize = 0;
    while i < message.data.len()
        invariant
            i <= message.data@.len(),
            texts.deep_view() == utf8_of(message.data@).take(i as int),
        decreases message.data.len() - i,
    {
        let b = vstd::slice::slice_to_vec(message.data[i].as_str().as_bytes());
        proof {
            crate::shared::lemma_bytes_deep_view(b);
        }
        let ghost prev = texts.deep_view();
        texts.push(b);
        assert(texts.deep_view() =~= prev.push(b@));
        assert(utf8_of(message.data@).take(i + 1) =~= utf8_of(message.data@).take(i as int).push(
            b@,
        ));
        i += 1;
    }
    assert(utf8_of(message.data@).take(i as int) =~= utf8_of(message.data@));
    let ghost head = out@;
    assert(head =~= cmd_part(message.cmd));
    put_fields(&mut out, TAG_TEXT, &texts);
    out
}

/// Reads the optional `cmd` field at offset 0.
fn read_cmd(buf: &[u8], Ghost(c): Ghost<Option<i32>>, Ghost(tail): Ghost<Seq<u8>>) -> (r: Option<
    (Option<i32>, usize),
>)
    ensures
        r matches Some((x, p)) ==> p <= buf@.len(),
        buf@ == cmd_part(c) + tail && (tail.len() > 0 ==> tail[0] != TAG_CMD) ==> (r matches Some(
            (x, p),
        ) && x == c && buf@.skip(p as int) == tail),
{
    let ghost m = buf@ == cmd_part(c) + tail && (tail.len() > 0 ==> tail[0] != TAG_CMD);
    if buf.len() > 0 && buf[0] == TAG_CMD {
        let ghost w = match c {
            Some(k) => kind_wire(k),
            None => 0,
        };
        proof {
            if m {
                if c is None {
                    assert(buf@ =~= tail);
                }
                assert(buf@.skip(1) =~= varint(w) + tail);
                lemma_starts_with_concat(varint(w), tail);
            }
        }
        match read_varint_at(buf, 1, Ghost(w)) {
            Some((v, next)) => {
                proof {
                    if m {
                        assert(buf@.skip(next as int) =~= tail);
                    }
                }
                match kind_from_wire(v) {
                    Some(k) => Some((Some(k), next)),
                    None => None,
                }
            },
            None => None,
        }
    } else {
        proof {
            if m {
                if c is Some {
                    assert(buf@[0] == TAG_CMD);
                }
                assert(buf@ =~= tail);
                assert(buf@.skip(0) =~= buf@);
            }
        }
        Some((None, 0))
    }
}

/// Whether `b` is the encoding of some command message.
pub open spec fn message_form(b: Seq<u8>) -> bool {
    exists|c: Option<i32>, texts: Seq<String>| b == message_bytes(c, utf8_of(texts))
}

/// Decodes a command message. What it gives encodes back to `buf`, and the
/// encoding of any message is decoded.
pub fn deserialize_message(buf: &[u8]) -> (r: Result<WireMessage, MessageError>)
    ensures
        r matches Ok(m) ==> buf@ == message_bytes(m.cmd, utf8_of(m.data@)),
        message_form(buf@) ==> r is Ok,
{
    broadcast use vstd::utf8::encode_utf8_valid_utf8;

    let ghost wf = message_form(buf@);
    let ghost (c, texts) = if wf {
        choose|c: Option<i32>, texts: Seq<String>| buf@ == message_bytes(c, utf8_of(texts))
    } else {
        (None, Seq::<String>::empty())
    };
    let ghost expect = utf8_of(texts);
    let ghost tail = bytes_fields(TAG_TEXT, expect);
    proof {
        lemma_fields_start(TAG_TEXT, expect);
    }
    let (cmd, p) = match read_cmd(buf, Ghost(c), Ghost(tail)) {
        Some(x) => x,
        None => {
            return Err(MessageError::Malformed);
        },
    };
    proof {
        if wf {
            assert(tail =~= bytes_fields(TAG_TEXT, expect) + Seq::<u8>::empty());
        }
    }
    let (fields, end) = match read_fields(buf, p, TAG_TEXT, Ghost(expect), Ghost(Seq::<u8>::empty())) {
        Some(x) => x,
        None => {
            return Err(MessageError::Malformed);
        },
    };
    if end != buf.len() {
        return Err(MessageError::Malformed);
    }
    let mut data: Vec<String> = Vec::new();
    let mut i: usize = 0;
    assert(utf8_of(data@) =~= fields.deep_view().take(0));
    while i < fields.len()
        invariant
            i <= fields@.len(),
            utf8_of(data@) == fields.deep_view().take(i as int),
            wf ==> fields.deep_view() == expect,
            wf ==> cmd == c,
            wf ==> buf@ == message_bytes(c, expect),
            wf == message_form(buf@),
            expect == utf8_of(texts),
        decreases fields.len() - i,
    {
        proof {
            crate::shared::lemma_bytes_deep_view(fields@[i as int]);
            if wf {
                assert(fields.deep_view()[i as int] == vstd::utf8::encode_utf8(texts[i as int]@));
                vstd::utf8::encode_utf8_valid_utf8(texts[i as int]@);
            }
        }
        let text = match utf8_text(fields[i].as_slice()) {
            Some(t) => t,
            None => {
                return Err(MessageError::NotText);
            },
        };
        let s = String::from_str(text);
        proof {
            vstd::utf8::encode_utf8_decode_utf8(text@);
            vstd::utf8::decode_utf8_encode_utf8(fields@[i as int]@);
            assert(vstd::utf8::encode_utf8(s@) == fields.deep_view()[i as int]);
        }
        let ghost prev = data@;
        data.push(s);
        assert(utf8_of(data@) =~= utf8_of(prev).push(fields.deep_view()[i as int]));
        assert(fields.deep_view().take(i + 1) =~= fields.deep_view().take(i as int).push(
            fields.deep_view()[i as int],
        ));
        i += 1;
    }
    assert(fields.deep_view().take(i as int) =~= fields.deep_view());
    let mut copy: Vec<String> = Vec::new();
    let mut j: usize = 0;
    while j < data.len()
        invariant
            j <= data@.len(),
            copy@.len() == j,
            forall|k: int| 0 <= k < j ==> (#[trigger] copy@[k])@ == data@[k]@,
            wf ==> cmd == c,
            wf ==> buf@ == message_bytes(c, expect),
            wf ==> utf8_of(data@) == expect,
            wf == message_form(buf@),
        decreases data.len() - j,
    {
        copy.push(data[j].clone());
        j += 1;
    }
    assert(utf8_of(copy@) =~= utf8_of(data@));
    let encoded = serialize_message(WireMessage { cmd, data: copy });
    if !same_as(&encoded, buf) {
        return Err(MessageError::Malformed);
    }
    Ok(WireMessage { cmd, data })
}

/// Whether a vector holds exactly the bytes of a slice.
fn same_as(a: &Vec<u8>, b: &[u8]) -> (r: bool)
    ensures
        r == (a@ == b@),
{
    if a.len() != b.len() {
        return false;
    }
    let mut i: usize = 0;
    while i < a.len()
        invariant
            a@.len() == b@.len(),
            i <= a@.len(),
            forall|k: int| 0 <= k < i ==> a@[k] == b@[k],
        decreases a.len() - i,
    {
        if a[i] != b[i] {
            return false;
        }
        i += 1;
    }
    assert(a@ =~= b@);
    true
}

} // verus!
