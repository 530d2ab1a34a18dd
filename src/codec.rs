//! The wire form of events: each event is a length-delimited protobuf
//! message with fields `dir` (1), `dest` (2), `kind` (3), `data` (4) and
//! `meta` (5). `meta` is written as the event holds it: the components
//! pop their own return addresses before an event leaves the node, so a
//! response reaches a client with an empty chain and an approval reaches
//! its peer with what remains of the request's chain.
use vstd::prelude::*;
use crate::event::{Dest, Dir, Event, EventView, event_of};
use crate::fsm::views;

verus! {

/// The LEB128 encoding of a number: seven bits per byte, least significant
/// group first, the high bit set on every byte but the last.
pub open spec fn varint(v: nat) -> Seq<u8>
    decreases v,
{
    if v < 128 {
        seq![v as u8]
    } else {
        seq![(v % 128 + 128) as u8] + varint(v / 128)
    }
}

/// Tag of field 1 (`dir`, varint).
pub const TAG_DIR: u8 = 0x08;
/// Tag of field 2 (`dest`, varint).
pub const TAG_DEST: u8 = 0x10;
/// Tag of field 3 (`kind`, varint).
pub const TAG_KIND: u8 = 0x18;
/// Tag of field 4 (`data`, length-delimited).
pub const TAG_DATA: u8 = 0x22;
/// Tag of field 5 (`meta`, length-delimited).
pub const TAG_META: u8 = 0x2a;

/// The wire value of a direction.
pub open spec fn dir_code(d: Dir) -> nat {
    match d {
        Dir::Incoming => 1,
        Dir::Outcoming => 2,
    }
}

/// The wire value of a destination.
pub open spec fn dest_code(d: Dest) -> nat {
    match d {
        Dest::Node => 1,
        Dest::PluginMan => 2,
        Dest::Server => 3,
    }
}

/// The varint value of an `int32` field: negative values are sign-extended
/// to 64 bits.
pub open spec fn kind_wire(k: i32) -> nat {
    if k >= 0 {
        k as nat
    } else {
        (k + 0x1_0000_0000_0000_0000) as nat
    }
}

/// One length-delimited field.
pub open spec fn bytes_field(tag: u8, b: Seq<u8>) -> Seq<u8> {
    seq![tag] + varint(b.len()) + b
}

/// A repeated length-delimited field, in order.
pub open spec fn bytes_fields(tag: u8, l: Seq<Seq<u8>>) -> Seq<u8>
    decreases l.len(),
{
    if l.len() == 0 {
        Seq::empty()
    } else {
        bytes_field(tag, l[0]) + bytes_fields(tag, l.skip(1))
    }
}

/// The encoded `dir` field; absent when the event has no direction.
pub open spec fn dir_part(d: Option<Dir>) -> Seq<u8> {
    match d {
        Some(d) => seq![TAG_DIR] + varint(dir_code(d)),
        None => Seq::empty(),
    }
}

/// The encoded `dest` field; absent when the event has no destination.
pub open spec fn dest_part(d: Option<Dest>) -> Seq<u8> {
    match d {
        Some(d) => seq![TAG_DEST] + varint(dest_code(d)),
        None => Seq::empty(),
    }
}

/// The encoded `kind` field; absent when it is zero, the default.
pub open spec fn kind_part(k: i32) -> Seq<u8> {
    if k != 0 {
        seq![TAG_KIND] + varint(kind_wire(k))
    } else {
        Seq::empty()
    }
}

/// The message body of an event.
pub open spec fn event_body(e: EventView) -> Seq<u8> {
    dir_part(e.dir) + dest_part(e.dest) + kind_part(e.kind) + bytes_fields(TAG_DATA, e.data)
        + bytes_fields(TAG_META, e.meta)
}

/// An event on the wire: the body's length, then the body.
pub open spec fn frame(e: EventView) -> Seq<u8> {
    varint(event_body(e).len()) + event_body(e)
}

/// A stream of events on the wire, back to back.
pub open spec fn frames(es: Seq<EventView>) -> Seq<u8>
    decreases es.len(),
{
    if es.len() == 0 {
        Seq::empty()
    } else {
        frame(es[0]) + frames(es.skip(1))
    }
}

/// Relies on `prost::encoding::encode_varint`: appends the LEB128 encoding
/// of the value.
#[verifier::external_body]
pub(crate) fn put_varint(buf: &mut Vec<u8>, v: u64)
    ensures
        final(buf)@ == old(buf)@ + varint(v as nat),
{
    prost::encoding::encode_varint(v, buf)
}

/// Whether `b` starts with `prefix`.
pub open spec fn starts_with(b: Seq<u8>, prefix: Seq<u8>) -> bool {
    prefix.len() <= b.len() && b.subrange(0, prefix.len() as int) == prefix
}

/// `r` is the number whose encoding starts `bytes`, with the count of the
/// bytes after it, whenever `bytes` starts with such an encoding.
pub open spec fn reads_encoded_number(bytes: Seq<u8>, r: Option<(u64, usize)>) -> bool {
    forall|v: u64| #[trigger] starts_with(bytes, varint(v as nat)) ==> (r matches Some((w, left))
        && w == v && left + varint(v as nat).len() == bytes.len())
}

/// Relies on `prost::encoding::decode_varint`: reads a LEB128 number at the
/// front of the bytes and tells how many bytes follow it. On the encoding of
/// a number it reads that number and exactly its bytes.
#[verifier::external_body]
fn take_varint(bytes: &[u8]) -> (r: Option<(u64, usize)>)
    ensures
        r matches Some((v, left)) ==> left < bytes@.len(),
        reads_encoded_number(bytes@, r),
{
    let mut rest = bytes;
    match prost::encoding::decode_varint(&mut rest) {
        Ok(v) => Some((v, rest.len())),
        Err(_) => None,
    }
}

/// A number read from the front of `bytes` at offset `at`: the number and
/// the offset after it.
pub(crate) fn read_varint_at(bytes: &[u8], at: usize, Ghost(expect): Ghost<nat>) -> (r: Option<(u64, usize)>)
    requires
        at <= bytes@.len(),
    ensures
        r matches Some((v, next)) ==> at < next <= bytes@.len(),
        expect < 0x1_0000_0000_0000_0000 && starts_with(bytes@.skip(at as int), varint(expect))
            ==> (r matches Some((v, next)) && v as nat == expect && next == at + varint(
            expect,
        ).len()),
{
    let tail = vstd::slice::slice_subrange(bytes, at, bytes.len());
    let res = take_varint(tail);
    proof {
        if expect < 0x1_0000_0000_0000_0000 && starts_with(bytes@.skip(at as int), varint(expect)) {
            let v = expect as u64;
            assert(tail@ =~= bytes@.skip(at as int));
            assert(v as nat == expect);
            assert(starts_with(tail@, varint(v as nat)));
        }
    }
    match res {
        Some((v, left)) => Some((v, bytes.len() - left)),
        None => None,
    }
}

/// A concatenation starts with its first part.
pub proof fn lemma_starts_with_concat(a: Seq<u8>, b: Seq<u8>)
    ensures
        starts_with(a + b, a),
{
    assert((a + b).subrange(0, a.len() as int) =~= a);
}

/// The body of an event after its `dir` field.
pub open spec fn after_dir(e: EventView) -> Seq<u8> {
    dest_part(e.dest) + after_dest(e)
}

/// The body of an event after its `kind` field.
pub open spec fn after_kind(e: EventView) -> Seq<u8> {
    bytes_fields(TAG_DATA, e.data) + bytes_fields(TAG_META, e.meta)
}

/// The body of an event after its `dest` field.
pub open spec fn after_dest(e: EventView) -> Seq<u8> {
    kind_part(e.kind) + after_kind(e)
}

/// An encoding is never empty.
pub proof fn lemma_varint_nonempty(v: nat)
    ensures
        varint(v).len() >= 1,
    decreases v,
{
    if v >= 128 {
        lemma_varint_nonempty(v / 128);
    }
}

/// A repeated field starts with its tag, and is empty only when the list is.
pub proof fn lemma_fields_start(tag: u8, l: Seq<Seq<u8>>)
    ensures
        l.len() == 0 <==> bytes_fields(tag, l).len() == 0,
        l.len() > 0 ==> bytes_fields(tag, l)[0] == tag,
{
    if l.len() > 0 {
        assert(bytes_fields(tag, l)[0] == tag);
    }
}

/// How the parts of a body begin.
proof fn lemma_body_parts(e: EventView)
    ensures
        event_body(e) == dir_part(e.dir) + after_dir(e),
        after_dir(e).len() > 0 ==> after_dir(e)[0] != TAG_DIR,
        after_dest(e).len() > 0 ==> after_dest(e)[0] != TAG_DEST,
        after_kind(e).len() > 0 ==> after_kind(e)[0] != TAG_KIND,
        bytes_fields(TAG_META, e.meta).len() > 0 ==> bytes_fields(TAG_META, e.meta)[0]
            != TAG_DATA,
{
    assert(event_body(e) =~= dir_part(e.dir) + after_dir(e));
    lemma_fields_start(TAG_DATA, e.data);
    lemma_fields_start(TAG_META, e.meta);
    let df = bytes_fields(TAG_DATA, e.data);
    let mf = bytes_fields(TAG_META, e.meta);
    if e.data.len() == 0 {
        assert(after_kind(e) =~= mf);
    } else {
        assert(after_kind(e)[0] == df[0]);
    }
    if e.kind != 0 {
        assert(after_dest(e)[0] == TAG_KIND);
    } else {
        assert(after_dest(e) =~= after_kind(e));
    }
    if e.dest is Some {
        assert(after_dir(e)[0] == TAG_DEST);
    } else {
        assert(after_dir(e) =~= after_dest(e));
    }
}

/// The `i32` whose `int32` varint value is `v`, if there is one.
pub(crate) fn kind_from_wire(v: u64) -> (r: Option<i32>)
    ensures
        r matches Some(k) ==> kind_wire(k) == v as nat,
        forall|k: i32| #[trigger] kind_wire(k) == v as nat ==> r == Some(k),
{
    if v < 0x8000_0000 {
        Some(v as i32)
    } else if v >= 0xFFFF_FFFF_8000_0000 {
        let low: i64 = (v - 0xFFFF_FFFF_8000_0000) as i64;
        Some((low - 0x8000_0000) as i32)
    } else {
        None
    }
}

/// Reads the optional `dir` field at offset 0: the direction and the offset
/// after it.
fn read_dir(body: &[u8], Ghost(d): Ghost<Option<Dir>>, Ghost(tail): Ghost<Seq<u8>>) -> (r: Option<
    (Option<Dir>, usize),
>)
    ensures
        r matches Some((x, p)) ==> p <= body@.len(),
        body@ == dir_part(d) + tail && (tail.len() > 0 ==> tail[0] != TAG_DIR) ==> (r matches Some(
            (x, p),
        ) && x == d && body@.skip(p as int) == tail),
{
    let ghost m = body@ == dir_part(d) + tail && (tail.len() > 0 ==> tail[0] != TAG_DIR);
    if body.len() > 0 && body[0] == TAG_DIR {
        let ghost code = match d {
            Some(d) => dir_code(d),
            None => 0,
        };
        proof {
            if m {
                if d is None {
                    assert(body@ =~= tail);
                }
                assert(body@.skip(1) =~= varint(code) + tail);
                lemma_starts_with_concat(varint(code), tail);
            }
        }
        match read_varint_at(body, 1, Ghost(code)) {
            Some((v, next)) => {
                proof {
                    if m {
                        assert(body@.skip(next as int) =~= tail);
                    }
                }
                if v == 1 {
                    Some((Some(Dir::Incoming), next))
                } else if v == 2 {
                    Some((Some(Dir::Outcoming), next))
                } else {
                    None
                }
            },
            None => None,
        }
    } else {
        proof {
            if m {
                if d is Some {
                    assert(body@[0] == TAG_DIR);
                }
                assert(body@ =~= tail);
                assert(body@.skip(0) =~= body@);
            }
        }
        Some((None, 0))
    }
}

/// Reads the optional `dest` field at offset `at`.
fn read_dest(body: &[u8], at: usize, Ghost(d): Ghost<Option<Dest>>, Ghost(tail): Ghost<Seq<u8>>) -> (r:
    Option<(Option<Dest>, usize)>)
    requires
        at <= body@.len(),
    ensures
        r matches Some((x, p)) ==> at <= p <= body@.len(),
        body@.skip(at as int) == dest_part(d) + tail && (tail.len() > 0 ==> tail[0] != TAG_DEST) ==> (
        r matches Some((x, p)) && x == d && body@.skip(p as int) == tail),
{
    let ghost rest = body@.skip(at as int);
    let ghost m = rest == dest_part(d) + tail && (tail.len() > 0 ==> tail[0] != TAG_DEST);
    if at < body.len() && body[at] == TAG_DEST {
        let ghost code = match d {
            Some(d) => dest_code(d),
            None => 0,
        };
        proof {
            if m {
                if d is None {
                    assert(rest =~= tail);
                    assert(rest[0] == body@[at as int]);
                }
                assert(rest.skip(1) =~= varint(code) + tail);
                assert(body@.skip(at + 1) =~= rest.skip(1));
                lemma_starts_with_concat(varint(code), tail);
            }
        }
        match read_varint_at(body, at + 1, Ghost(code)) {
            Some((v, next)) => {
                proof {
                    if m {
                        assert(body@.skip(next as int) =~= rest.skip(1).skip(varint(code).len() as int));
                        assert(rest.skip(1).skip(varint(code).len() as int) =~= tail);
                    }
                }
                if v == 1 {
                    Some((Some(Dest::Node), next))
                } else if v == 2 {
                    Some((Some(Dest::PluginMan), next))
                } else if v == 3 {
                    Some((Some(Dest::Server), next))
                } else {
                    None
                }
            },
            None => None,
        }
    } else {
        proof {
            if m {
                if d is Some {
                    assert(rest[0] == TAG_DEST);
                    assert(rest[0] == body@[at as int]);
                }
                assert(rest =~= tail);
            }
        }
        Some((None, at))
    }
}

/// Reads the optional `kind` field at offset `at`; absent means zero.
fn read_kind(body: &[u8], at: usize, Ghost(k): Ghost<i32>, Ghost(tail): Ghost<Seq<u8>>) -> (r: Option<
    (i32, usize),
>)
    requires
        at <= body@.len(),
    ensures
        r matches Some((x, p)) ==> at <= p <= body@.len(),
        body@.skip(at as int) == kind_part(k) + tail && (tail.len() > 0 ==> tail[0] != TAG_KIND) ==> (
        r matches Some((x, p)) && x == k && body@.skip(p as int) == tail),
{
    let ghost rest = body@.skip(at as int);
    let ghost m = rest == kind_part(k) + tail && (tail.len() > 0 ==> tail[0] != TAG_KIND);
    if at < body.len() && body[at] == TAG_KIND {
        let ghost w = if k != 0 {
            kind_wire(k)
        } else {
            0
        };
        proof {
            if m {
                if k == 0 {
                    assert(rest =~= tail);
                    assert(rest[0] == body@[at as int]);
                }
                assert(rest.skip(1) =~= varint(w) + tail);
                assert(body@.skip(at + 1) =~= rest.skip(1));
                lemma_starts_with_concat(varint(w), tail);
            }
        }
        match read_varint_at(body, at + 1, Ghost(w)) {
            Some((v, next)) => {
                proof {
                    if m {
                        assert(body@.skip(next as int) =~= rest.skip(1).skip(varint(w).len() as int));
                        assert(rest.skip(1).skip(varint(w).len() as int) =~= tail);
                    }
                }
                match kind_from_wire(v) {
                    Some(x) => Some((x, next)),
                    None => None,
                }
            },
            None => None,
        }
    } else {
        proof {
            if m {
                if k != 0 {
                    assert(kind_part(k).len() >= 1);
                    assert(rest.len() == body@.len() - at);
                    assert(rest[0] == TAG_KIND);
                    assert(at < body@.len());
                    assert(rest[0] == body@[at as int]);
                }
                assert(rest =~= tail);
            }
        }
        Some((0, at))
    }
}

/// Reads the elements of a repeated field with tag `tag` from offset `at`,
/// for as long as that tag comes: the elements and the offset after them.
pub(crate) fn read_fields(
    body: &[u8],
    at: usize,
    tag: u8,
    Ghost(expect): Ghost<Seq<Seq<u8>>>,
    Ghost(tail): Ghost<Seq<u8>>,
) -> (r: Option<(Vec<Vec<u8>>, usize)>)
    requires
        at <= body@.len(),
    ensures
        r matches Some((x, p)) ==> at <= p <= body@.len(),
        body@.skip(at as int) == bytes_fields(tag, expect) + tail && (tail.len() > 0 ==> tail[0]
            != tag) ==> (r matches Some((x, p)) && x.deep_view() == expect && body@.skip(p as int)
            == tail),
{
    let ghost m = body@.skip(at as int) == bytes_fields(tag, expect) + tail && (tail.len() > 0
        ==> tail[0] != tag);
    let mut p: usize = at;
    let mut items: Vec<Vec<u8>> = Vec::new();
    assert(expect.skip(0) =~= expect);
    assert(items.deep_view() =~= expect.take(0));
    while p < body.len() && body[p] == tag
        invariant
            at <= p <= body@.len(),
            m == (body@.skip(at as int) == bytes_fields(tag, expect) + tail && (tail.len() > 0
                ==> tail[0] != tag)),
            m ==> items@.len() <= expect.len(),
            m ==> body@.skip(p as int) == bytes_fields(tag, expect.skip(items@.len() as int)) + tail,
            m ==> items.deep_view() == expect.take(items@.len() as int),
        decreases body@.len() - p,
    {
        let ghost k = items@.len() as int;
        let ghost rest_l = expect.skip(k);
        let ghost expect_len: nat = if m && k < expect.len() {
            expect[k].len()
        } else {
            0
        };
        proof {
            if m {
                assert(rest_l.len() > 0) by {
                    if rest_l.len() == 0 {
                        assert(bytes_fields(tag, rest_l).len() == 0);
                        assert(body@.skip(p as int) =~= tail);
                        assert(body@.skip(p as int)[0] == body@[p as int]);
                    }
                }
                assert(rest_l[0] == expect[k]);
                let after = expect[k] + (bytes_fields(tag, rest_l.skip(1)) + tail);
                let here = body@.skip(p as int);
                assert(here =~= seq![tag] + (varint(expect_len) + after));
                assert(here.skip(1) =~= varint(expect_len) + after);
                assert(body@.skip(p + 1) =~= here.skip(1));
                lemma_starts_with_concat(varint(expect_len), after);
                assert(expect_len <= here.len());
                assert(here.len() <= body@.len());
                assert(expect_len < 0x1_0000_0000_0000_0000);
            }
        }
        let (len, next) = match read_varint_at(body, p + 1, Ghost(expect_len)) {
            Some(x) => x,
            None => {
                return None;
            },
        };
        proof {
            if m {
                let after = expect[k] + (bytes_fields(tag, rest_l.skip(1)) + tail);
                assert(body@.skip(next as int) =~= body@.skip(p + 1).skip(varint(expect_len).len() as int));
                assert(body@.skip(next as int) =~= after);
            }
        }
        if len > (body.len() - next) as u64 {
            return None;
        }
        let end: usize = next + len as usize;
        let item = vstd::slice::slice_to_vec(vstd::slice::slice_subrange(body, next, end));
        proof {
            crate::shared::lemma_bytes_deep_view(item);
            if m {
                assert(item@ =~= expect[k]);
                assert(rest_l.skip(1) =~= expect.skip(k + 1));
                let after = expect[k] + (bytes_fields(tag, rest_l.skip(1)) + tail);
                assert(body@.skip(next as int) == after);
                assert(len as nat == expect[k].len());
                assert(body@.skip(end as int) =~= after.skip(len as int));
                assert(after.skip(len as int) =~= bytes_fields(tag, rest_l.skip(1)) + tail);
                assert(body@.skip(end as int) =~= bytes_fields(tag, expect.skip(k + 1)) + tail);
            }
        }
        let ghost prev = items.deep_view();
        items.push(item);
        proof {
            assert(items.deep_view() =~= prev.push(item@));
            if m {
                assert(expect.take(k + 1) =~= expect.take(k).push(expect[k]));
            }
        }
        p = end;
    }
    proof {
        if m {
            let rest_l = expect.skip(items@.len() as int);
            if rest_l.len() > 0 {
                assert(bytes_fields(tag, rest_l)[0] == tag);
                assert(body@.skip(p as int)[0] == tag);
                assert(body@.skip(p as int)[0] == body@[p as int]);
            }
            assert(rest_l.len() == 0);
            assert(bytes_fields(tag, rest_l) + tail =~= tail);
            assert(expect.take(items@.len() as int) =~= expect);
        }
    }
    Some((items, p))
}

/// Reads an event body; for the body of an event it gives that event.
fn read_body(body: &[u8], Ghost(expect): Ghost<EventView>) -> (r: Option<Event>)
    ensures
        body@ == event_body(expect) ==> (r matches Some(e) && e@ == expect),
{
    let ghost m = body@ == event_body(expect);
    let ghost mf = bytes_fields(TAG_META, expect.meta);
    proof {
        lemma_body_parts(expect);
        assert(after_dest(expect) =~= kind_part(expect.kind) + after_kind(expect));
    }
    let (dir, at_dest) = match read_dir(body, Ghost(expect.dir), Ghost(after_dir(expect))) {
        Some(x) => x,
        None => {
            return None;
        },
    };
    let (dest, at_kind) = match read_dest(body, at_dest, Ghost(expect.dest), Ghost(after_dest(expect))) {
        Some(x) => x,
        None => {
            return None;
        },
    };
    let (kind, at_data) = match read_kind(body, at_kind, Ghost(expect.kind), Ghost(after_kind(expect))) {
        Some(x) => x,
        None => {
            return None;
        },
    };
    let (data, at_meta) = match read_fields(body, at_data, TAG_DATA, Ghost(expect.data), Ghost(mf)) {
        Some(x) => x,
        None => {
            return None;
        },
    };
    proof {
        assert(mf =~= bytes_fields(TAG_META, expect.meta) + Seq::<u8>::empty());
    }
    let (meta, end) = match read_fields(
        body,
        at_meta,
        TAG_META,
        Ghost(expect.meta),
        Ghost(Seq::<u8>::empty()),
    ) {
        Some(x) => x,
        None => {
            return None;
        },
    };
    if end != body.len() {
        return None;
    }
    Some(Event::new(dir, dest, kind, data, meta))
}

/// Whether `b` is a whole stream of events.
pub open spec fn well_formed(b: Seq<u8>) -> bool {
    exists|es: Seq<EventView>| frames(es) == b
}

/// Appending one more event to a stream appends its frame.
pub proof fn lemma_frames_push(es: Seq<EventView>, e: EventView)
    ensures
        frames(es.push(e)) == frames(es) + frame(e),
    decreases es.len(),
{
    if es.len() == 0 {
        assert(es.push(e).skip(1) =~= Seq::<EventView>::empty());
        assert(es.push(e)[0] == e);
        assert(frames(es.push(e).skip(1)) == Seq::<u8>::empty());
        assert(frames(es) == Seq::<u8>::empty());
        assert(frames(es.push(e)) =~= frame(e));
    } else {
        lemma_frames_push(es.skip(1), e);
        assert(es.push(e).skip(1) =~= es.skip(1).push(e));
        assert(es.push(e)[0] == es[0]);
        assert(frames(es.push(e)) =~= frames(es) + frame(e));
    }
}

/// Whether `b` holds `a` from offset `at` to offset `end`.
fn same_bytes(a: &Vec<u8>, b: &[u8], at: usize, end: usize) -> (r: bool)
    requires
        at <= end <= b@.len(),
    ensures
        r == (a@ == b@.subrange(at as int, end as int)),
{
    if a.len() != end - at {
        return false;
    }
    let mut i: usize = 0;
    while i < a.len()
        invariant
            a@.len() == end - at,
            at <= end <= b@.len(),
            i <= a@.len(),
            forall|j: int| 0 <= j < i ==> a@[j] == b@[at + j],
        decreases a.len() - i,
    {
        if a[i] != b[at + i] {
            return false;
        }
        i += 1;
    }
    assert(a@ =~= b@.subrange(at as int, end as int));
    true
}

/// Reads the event framed at offset `at`: the event and the offset after
/// its frame. Only a frame in the form that `serialize` writes is taken.
fn read_frame(buf: &[u8], at: usize, Ghost(expect): Ghost<EventView>) -> (r: Option<(Event, usize)>)
    requires
        at <= buf@.len(),
    ensures
        r matches Some((e, next)) ==> at < next <= buf@.len() && buf@.subrange(at as int, next as int)
            == frame(e@),
        starts_with(buf@.skip(at as int), frame(expect)) ==> (r matches Some(
            (e, next),
        ) && e@ == expect && next == at + frame(expect).len()),
{
    let ghost m = starts_with(buf@.skip(at as int), frame(expect));
    let ghost b = event_body(expect);
    let total = buf.len();
    proof {
        if m {
            lemma_starts_with_concat(varint(b.len()), b);
            assert(buf@.skip(at as int).subrange(0, frame(expect).len() as int) == frame(expect));
            assert(starts_with(buf@.skip(at as int), varint(b.len()))) by {
                assert(frame(expect).subrange(0, varint(b.len()).len() as int) =~= varint(b.len()));
                assert(buf@.skip(at as int).subrange(0, varint(b.len()).len() as int) =~= frame(
                    expect,
                ).subrange(0, varint(b.len()).len() as int));
            }
            assert(b.len() <= buf@.len());
            assert(b.len() <= total);
        }
    }
    let (len, start) = match read_varint_at(buf, at, Ghost(b.len())) {
        Some(x) => x,
        None => {
            return None;
        },
    };
    proof {
        if m {
            let vl = varint(b.len()).len();
            assert(start == at + vl);
            assert(frame(expect).len() == vl + b.len());
            assert(len as nat == b.len());
        }
    }
    if len > (buf.len() - start) as u64 {
        return None;
    }
    let end: usize = start + len as usize;
    let body = vstd::slice::slice_subrange(buf, start, end);
    proof {
        if m {
            let vl = varint(b.len()).len();
            assert(start == at + vl);
            assert(body@ =~= frame(expect).subrange(vl as int, frame(expect).len() as int));
            assert(body@ =~= b);
        }
    }
    let e = match read_body(body, Ghost(expect)) {
        Some(e) => e,
        None => {
            return None;
        },
    };
    let bytes = serialize(e.duplicate());
    proof {
        if m {
            assert(end == at + frame(expect).len());
            assert(bytes@ == frame(expect));
            assert(buf@.subrange(at as int, end as int) =~= buf@.skip(at as int).subrange(
                0,
                frame(expect).len() as int,
            ));
        }
    }
    if same_bytes(&bytes, buf, at, end) {
        proof {
            lemma_varint_nonempty(b.len());
            if m {
                assert(buf@.subrange(at as int, end as int) =~= buf@.skip(at as int).subrange(
                    0,
                    frame(expect).len() as int,
                ));
            }
        }
        Some((e, end))
    } else {
        proof {
            if m {
                assert(buf@.subrange(at as int, end as int) =~= buf@.skip(at as int).subrange(
                    0,
                    frame(expect).len() as int,
                ));
            }
        }
        None
    }
}

/// Two encodings that start the same bytes are the encoding of one number,
/// followed by the same bytes.
pub proof fn lemma_varint_unique(a: nat, b: nat, x: Seq<u8>, y: Seq<u8>)
    requires
        varint(a) + x == varint(b) + y,
    ensures
        a == b,
        x == y,
    decreases a,
{
    let sa = varint(a) + x;
    let sb = varint(b) + y;
    if a < 128 {
        assert(sa[0] == a as u8);
        if b >= 128 {
            assert(sb[0] == (b % 128 + 128) as u8);
        }
        assert(sb[0] == b as u8);
        assert(x =~= sa.skip(1));
        assert(y =~= sb.skip(1));
    } else {
        assert(sa[0] == (a % 128 + 128) as u8);
        if b < 128 {
            assert(sb[0] == b as u8);
        }
        assert(sb[0] == (b % 128 + 128) as u8);
        assert(sa.skip(1) =~= varint(a / 128) + x);
        assert(sb.skip(1) =~= varint(b / 128) + y);
        lemma_varint_unique(a / 128, b / 128, x, y);
        assert(a == a % 128 + 128 * (a / 128)) by (nonlinear_arith);
        assert(b == b % 128 + 128 * (b / 128)) by (nonlinear_arith);
    }
}

/// An optional varint field with tag `tag`.
pub open spec fn tagged(tag: u8, v: Option<nat>) -> Seq<u8> {
    match v {
        Some(v) => seq![tag] + varint(v),
        None => Seq::empty(),
    }
}

/// An optional varint field is read back uniquely when what follows does
/// not start with its tag.
proof fn lemma_tagged_unique(tag: u8, x: Option<nat>, y: Option<nat>, ta: Seq<u8>, tb: Seq<u8>)
    requires
        tagged(tag, x) + ta == tagged(tag, y) + tb,
        ta.len() > 0 ==> ta[0] != tag,
        tb.len() > 0 ==> tb[0] != tag,
    ensures
        x == y,
        ta == tb,
{
    let s = tagged(tag, x) + ta;
    match (x, y) {
        (Some(a), Some(b)) => {
            assert(s.skip(1) =~= varint(a) + ta);
            assert((tagged(tag, y) + tb).skip(1) =~= varint(b) + tb);
            lemma_varint_unique(a, b, ta, tb);
        },
        (Some(a), None) => {
            assert(s[0] == tag);
            assert(tagged(tag, y) + tb =~= tb);
        },
        (None, Some(b)) => {
            assert((tagged(tag, y) + tb)[0] == tag);
            assert(s =~= ta);
        },
        (None, None) => {
            assert(s =~= ta);
            assert(tagged(tag, y) + tb =~= tb);
        },
    }
}

/// A non-empty repeated field followed by `t`: its tag, its first element's
/// length and element, then the rest.
proof fn lemma_fields_head(tag: u8, l: Seq<Seq<u8>>, t: Seq<u8>)
    requires
        l.len() > 0,
    ensures
        (bytes_fields(tag, l) + t)[0] == tag,
        (bytes_fields(tag, l) + t).skip(1) == varint(l[0].len()) + (l[0] + (bytes_fields(
            tag,
            l.skip(1),
        ) + t)),
{
    let r = bytes_fields(tag, l.skip(1));
    assert(bytes_fields(tag, l) == bytes_field(tag, l[0]) + r);
    assert(bytes_fields(tag, l) + t =~= seq![tag] + (varint(l[0].len()) + (l[0] + (r + t))));
    assert((bytes_fields(tag, l) + t).skip(1) =~= varint(l[0].len()) + (l[0] + (r + t)));
}

/// A repeated field is read back uniquely when what follows does not start
/// with its tag.
#[verifier::rlimit(50)]
proof fn lemma_fields_unique(tag: u8, l1: Seq<Seq<u8>>, l2: Seq<Seq<u8>>, t1: Seq<u8>, t2: Seq<u8>)
    requires
        bytes_fields(tag, l1) + t1 == bytes_fields(tag, l2) + t2,
        t1.len() > 0 ==> t1[0] != tag,
        t2.len() > 0 ==> t2[0] != tag,
    ensures
        l1 == l2,
        t1 == t2,
    decreases l1.len(),
{
    if l1.len() == 0 {
        assert(bytes_fields(tag, l1) + t1 =~= t1);
        if l2.len() > 0 {
            lemma_fields_head(tag, l2, t2);
        } else {
            assert(bytes_fields(tag, l2) + t2 =~= t2);
            assert(l1 =~= l2);
        }
    } else if l2.len() == 0 {
        assert(bytes_fields(tag, l2) + t2 =~= t2);
        lemma_fields_head(tag, l1, t1);
    } else {
        let a = l1[0];
        let b = l2[0];
        let r1 = bytes_fields(tag, l1.skip(1)) + t1;
        let r2 = bytes_fields(tag, l2.skip(1)) + t2;
        lemma_fields_head(tag, l1, t1);
        lemma_fields_head(tag, l2, t2);
        lemma_varint_unique(a.len(), b.len(), a + r1, b + r2);
        assert(a =~= (a + r1).subrange(0, a.len() as int));
        assert(b =~= (b + r2).subrange(0, b.len() as int));
        assert(r1 =~= (a + r1).skip(a.len() as int));
        assert(r2 =~= (b + r2).skip(b.len() as int));
        lemma_fields_unique(tag, l1.skip(1), l2.skip(1), t1, t2);
        assert(l1 =~= seq![a] + l1.skip(1));
        assert(l2 =~= seq![b] + l2.skip(1));
    }
}

/// Two events with the same body are the same event.
pub proof fn lemma_body_unique(e1: EventView, e2: EventView)
    requires
        event_body(e1) == event_body(e2),
    ensures
        e1 == e2,
{
    lemma_body_parts(e1);
    lemma_body_parts(e2);
    let c1 = match e1.dir {
        Some(d) => Some(dir_code(d)),
        None => None::<nat>,
    };
    let c2 = match e2.dir {
        Some(d) => Some(dir_code(d)),
        None => None::<nat>,
    };
    assert(dir_part(e1.dir) == tagged(TAG_DIR, c1));
    assert(dir_part(e2.dir) == tagged(TAG_DIR, c2));
    lemma_tagged_unique(TAG_DIR, c1, c2, after_dir(e1), after_dir(e2));
    assert(e1.dir == e2.dir);
    let g1 = match e1.dest {
        Some(d) => Some(dest_code(d)),
        None => None::<nat>,
    };
    let g2 = match e2.dest {
        Some(d) => Some(dest_code(d)),
        None => None::<nat>,
    };
    assert(dest_part(e1.dest) == tagged(TAG_DEST, g1));
    assert(dest_part(e2.dest) == tagged(TAG_DEST, g2));
    lemma_tagged_unique(TAG_DEST, g1, g2, after_dest(e1), after_dest(e2));
    assert(e1.dest == e2.dest);
    let k1 = if e1.kind != 0 {
        Some(kind_wire(e1.kind))
    } else {
        None::<nat>
    };
    let k2 = if e2.kind != 0 {
        Some(kind_wire(e2.kind))
    } else {
        None::<nat>
    };
    assert(kind_part(e1.kind) == tagged(TAG_KIND, k1));
    assert(kind_part(e2.kind) == tagged(TAG_KIND, k2));
    lemma_tagged_unique(TAG_KIND, k1, k2, after_kind(e1), after_kind(e2));
    assert(e1.kind == e2.kind);
    let m1 = bytes_fields(TAG_META, e1.meta);
    let m2 = bytes_fields(TAG_META, e2.meta);
    lemma_fields_start(TAG_META, e1.meta);
    lemma_fields_start(TAG_META, e2.meta);
    lemma_fields_unique(TAG_DATA, e1.data, e2.data, m1, m2);
    assert(m1 + Seq::<u8>::empty() =~= m2 + Seq::<u8>::empty());
    lemma_fields_unique(TAG_META, e1.meta, e2.meta, Seq::empty(), Seq::empty());
}

/// A frame at the front of some bytes determines its event and what
/// follows it.
pub proof fn lemma_frame_unique(e1: EventView, e2: EventView, t1: Seq<u8>, t2: Seq<u8>)
    requires
        frame(e1) + t1 == frame(e2) + t2,
    ensures
        e1 == e2,
        t1 == t2,
{
    let b1 = event_body(e1);
    let b2 = event_body(e2);
    assert(frame(e1) + t1 =~= varint(b1.len()) + (b1 + t1));
    assert(frame(e2) + t2 =~= varint(b2.len()) + (b2 + t2));
    lemma_varint_unique(b1.len(), b2.len(), b1 + t1, b2 + t2);
    assert(b1 =~= (b1 + t1).subrange(0, b1.len() as int));
    assert(b2 =~= (b2 + t2).subrange(0, b2.len() as int));
    assert(t1 =~= (b1 + t1).skip(b1.len() as int));
    assert(t2 =~= (b2 + t2).skip(b2.len() as int));
    lemma_body_unique(e1, e2);
}

/// A stream is the encoding of exactly one list of events.
pub proof fn lemma_frames_unique(es1: Seq<EventView>, es2: Seq<EventView>)
    requires
        frames(es1) == frames(es2),
    ensures
        es1 == es2,
    decreases es1.len(),
{
    if es1.len() == 0 && es2.len() == 0 {
        assert(es1 =~= es2);
    } else if es1.len() == 0 {
        lemma_varint_nonempty(event_body(es2[0]).len());
        assert(frames(es2).len() > 0);
    } else if es2.len() == 0 {
        lemma_varint_nonempty(event_body(es1[0]).len());
        assert(frames(es1).len() > 0);
    } else {
        lemma_frame_unique(es1[0], es2[0], frames(es1.skip(1)), frames(es2.skip(1)));
        lemma_frames_unique(es1.skip(1), es2.skip(1));
        assert(es1 =~= seq![es1[0]] + es1.skip(1));
        assert(es2 =~= seq![es2[0]] + es2.skip(1));
    }
}

/// Whether no event's frame is a prefix of `b`.
pub open spec fn no_whole_frame(b: Seq<u8>) -> bool {
    forall|e: EventView| !#[trigger] starts_with(b, frame(e))
}

/// Decodes as many whole events as `buf` holds from its start; returns
/// them with the bytes that follow them, which start with no whole frame (a
/// partial frame, kept for the next read). A whole stream is decoded to its
/// end, into the one list of events that it encodes. Frames are taken in
/// the form that `serialize` writes, which every endpoint of the cluster
/// uses; a frame written in another field order or with a default value
/// spelt out stays in the rest with what follows it.
#[verifier::rlimit(60)]
pub fn deserialize(buf: &[u8]) -> (r: (Vec<Event>, &[u8]))
    ensures
        buf@ == frames(views(r.0@)) + r.1@,
        no_whole_frame(r.1@),
        well_formed(buf@) ==> r.1@.len() == 0,
        forall|es: Seq<EventView>| #[trigger] frames(es) == buf@ ==> views(r.0@) == es,
{
    let ghost wf = well_formed(buf@);
    let ghost es: Seq<EventView> = if wf {
        choose|es: Seq<EventView>| frames(es) == buf@
    } else {
        Seq::empty()
    };
    let mut events: Vec<Event> = Vec::new();
    let mut p: usize = 0;
    let mut stuck = false;
    assert(buf@.subrange(0, 0) =~= frames(views(events@)));
    assert(es.skip(0) =~= es);
    assert(buf@.skip(0) =~= buf@);
    while p < buf.len() && !stuck
        invariant
            p <= buf@.len(),
            wf == well_formed(buf@),
            stuck ==> !wf,
            stuck ==> no_whole_frame(buf@.skip(p as int)),
            wf ==> frames(es) == buf@,
            buf@.subrange(0, p as int) == frames(views(events@)),
            wf ==> events@.len() <= es.len(),
            wf ==> views(events@) == es.take(events@.len() as int),
            wf ==> buf@.skip(p as int) == frames(es.skip(events@.len() as int)),
        decreases buf@.len() - p + if stuck {
            0int
        } else {
            1int
        },
    {
        let ghost i = events@.len() as int;
        let ghost expect = if wf && i < es.len() {
            es[i]
        } else if !no_whole_frame(buf@.skip(p as int)) {
            choose|e: EventView| starts_with(buf@.skip(p as int), frame(e))
        } else {
            event_of(None, None, 0, Seq::empty(), Seq::empty())
        };
        proof {
            if wf {
                let tail = es.skip(i);
                assert(tail.len() > 0) by {
                    if tail.len() == 0 {
                        assert(frames(tail).len() == 0);
                    }
                }
                assert(tail[0] == es[i]);
                assert(frames(tail) == frame(es[i]) + frames(tail.skip(1)));
                lemma_starts_with_concat(frame(es[i]), frames(tail.skip(1)));
            }
        }
        match read_frame(buf, p, Ghost(expect)) {
            Some((e, next)) => {
                let ghost prev = events@;
                proof {
                    lemma_frames_push(views(prev), e@);
                    assert(views(prev.push(e)) =~= views(prev).push(e@));
                    assert(buf@.subrange(0, next as int) =~= buf@.subrange(0, p as int)
                        + buf@.subrange(p as int, next as int));
                    if wf {
                        let tail = es.skip(i);
                        assert(es.take(i + 1) =~= es.take(i).push(es[i]));
                        assert(tail.skip(1) =~= es.skip(i + 1));
                        assert(buf@.skip(next as int) =~= frames(tail).skip(frame(es[i]).len() as int));
                        assert(frames(tail).skip(frame(es[i]).len() as int) =~= frames(tail.skip(1)));
                    }
                }
                events.push(e);
                p = next;
            },
            None => {
                stuck = true;
            },
        }
    }
    proof {
        if wf {
            assert(buf@.skip(p as int).len() == 0);
            let i = events@.len() as int;
            if i < es.len() {
                lemma_varint_nonempty(event_body(es[i]).len());
                assert(frames(es.skip(i)) == frame(es.skip(i)[0]) + frames(es.skip(i).skip(1)));
            }
            assert(es.take(i) =~= es);
            assert forall|es2: Seq<EventView>| #[trigger] frames(es2) == buf@ implies views(events@)
                == es2 by {
                lemma_frames_unique(es, es2);
            }
        }
        if !stuck {
            assert(buf@.skip(p as int).len() == 0);
            assert forall|e: EventView| !#[trigger] starts_with(buf@.skip(p as int), frame(e)) by {
                lemma_varint_nonempty(event_body(e).len());
            }
        }
        assert(buf@ =~= buf@.subrange(0, p as int) + buf@.subrange(p as int, buf@.len() as int));
        assert(buf@.subrange(p as int, buf@.len() as int) =~= buf@.skip(p as int));
    }
    let rest = vstd::slice::slice_subrange(buf, p, buf.len());
    (events, rest)
}

/// Appending one more element to a repeated field appends its encoding.
pub proof fn lemma_bytes_fields_push(tag: u8, l: Seq<Seq<u8>>, x: Seq<u8>)
    ensures
        bytes_fields(tag, l.push(x)) == bytes_fields(tag, l) + bytes_field(tag, x),
    decreases l.len(),
{
    if l.len() == 0 {
        assert(l.push(x).skip(1) =~= Seq::<Seq<u8>>::empty());
        assert(l.push(x)[0] == x);
        assert(bytes_fields(tag, l.push(x).skip(1)) == Seq::<u8>::empty());
        assert(bytes_fields(tag, l) == Seq::<u8>::empty());
        assert(bytes_fields(tag, l.push(x)) =~= bytes_field(tag, x));
    } else {
        lemma_bytes_fields_push(tag, l.skip(1), x);
        assert(l.push(x).skip(1) =~= l.skip(1).push(x));
        assert(l.push(x)[0] == l[0]);
        assert(bytes_fields(tag, l.push(x)) =~= bytes_fields(tag, l) + bytes_field(tag, x));
    }
}

pub(crate) fn kind_to_wire(k: i32) -> (r: u64)
    ensures
        r as nat == kind_wire(k),
{
    if k >= 0 {
        k as u64
    } else {
        let shifted: i64 = (k as i64) + 0x7fff_ffff_ffff_ffff + 1;
        shifted as u64 + 0x8000_0000_0000_0000
    }
}

fn dir_to_wire(d: Dir) -> (r: u64)
    ensures
        r as nat == dir_code(d),
{
    match d {
        Dir::Incoming => 1,
        Dir::Outcoming => 2,
    }
}

fn dest_to_wire(d: Dest) -> (r: u64)
    ensures
        r as nat == dest_code(d),
{
    match d {
        Dest::Node => 1,
        Dest::PluginMan => 2,
        Dest::Server => 3,
    }
}

/// Appends a repeated field.
pub(crate) fn put_fields(body: &mut Vec<u8>, tag: u8, list: &Vec<Vec<u8>>)
    ensures
        final(body)@ == old(body)@ + bytes_fields(tag, list.deep_view()),
{
    let ghost head = body@;
    let ghost l = list.deep_view();
    assert(l.take(0) =~= Seq::<Seq<u8>>::empty());
    assert(head =~= head + bytes_fields(tag, l.take(0)));
    let mut i: usize = 0;
    while i < list.len()
        invariant
            i <= list@.len(),
            l == list.deep_view(),
            body@ == head + bytes_fields(tag, l.take(i as int)),
        decreases list.len() - i,
    {
        let mut item = list[i].clone();
        assert(item@ =~= l[i as int]);
        body.push(tag);
        put_varint(body, item.len() as u64);
        body.append(&mut item);
        proof {
            lemma_bytes_fields_push(tag, l.take(i as int), l[i as int]);
            assert(l.take(i + 1) =~= l.take(i as int).push(l[i as int]));
        }
        i += 1;
    }
    assert(l.take(i as int) =~= l);
}

/// Encodes one event, length-delimited.
pub fn serialize(event: Event) -> (r: Vec<u8>)
    ensures
        r@ == frame(event@),
{
    let mut body: Vec<u8> = Vec::new();
    match event.dir {
        Some(d) => {
            body.push(TAG_DIR);
            put_varint(&mut body, dir_to_wire(d));
        },
        None => {},
    }
    match event.dest {
        Some(d) => {
            body.push(TAG_DEST);
            put_varint(&mut body, dest_to_wire(d));
        },
        None => {},
    }
    if event.kind != 0 {
        body.push(TAG_KIND);
        put_varint(&mut body, kind_to_wire(event.kind));
    }
    assert(body@ =~= dir_part(event.dir) + dest_part(event.dest) + kind_part(event.kind));
    put_fields(&mut body, TAG_DATA, &event.data);
    put_fields(&mut body, TAG_META, &event.meta);
    assert(body@ =~= event_body(event@));
    let mut out: Vec<u8> = Vec::new();
    put_varint(&mut out, body.len() as u64);
    out.append(&mut body);
    out
}

/// Encodes a list of events back to back.
pub fn serialize_all(events: &Vec<Event>) -> (r: Vec<u8>)
    ensures
        r@ == frames(views(events@)),
{
    let mut out: Vec<u8> = Vec::new();
    let mut i: usize = events.len();
    let ghost es = views(events@);
    assert(es.skip(i as int) =~= Seq::<EventView>::empty());
    while i > 0
        invariant
            i <= events@.len(),
            es == views(events@),
            out@ == frames(es.skip(i as int)),
        decreases i,
    {
        i -= 1;
        let mut one = serialize(events[i].duplicate());
        proof {
            assert(es.skip(i as int).skip(1) =~= es.skip(i + 1));
            assert(es.skip(i as int)[0] == es[i as int]);
        }
        one.append(&mut out);
        out = one;
    }
    assert(es.skip(0) =~= es);
    out
}

/// Encoding what `deserialize` read from a whole stream gives the stream
/// back.
pub proof fn lemma_stream_round_trip(buf: Seq<u8>, events: Seq<EventView>, rest: Seq<u8>)
    requires
        buf == frames(events) + rest,
        well_formed(buf) ==> rest.len() == 0,
        well_formed(buf),
    ensures
        frames(events) == buf,
{
    assert(frames(events) + rest =~= frames(events));
}

} // verus!
