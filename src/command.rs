//! The text command protocol between a client handler, the main loop, the
//! node and plugins: commands named by words, arguments separated by `;`,
//! and the numbered event codes of the handler state machines.
use vstd::prelude::*;
use vstd::string::{StrSliceExecFns, StringExecFns};
use std::collections::HashMap;

verus! {

/// Who sent a command event.
#[derive(Clone, Copy, Debug, PartialEq, Eq, Structural)]
pub enum EventSender {
    Lb,
    Main,
    Node,
    Plugin,
}

/// What a command event asks for.
#[derive(Clone, Copy, Debug, PartialEq, Eq, Structural)]
pub enum EventKind {
    NewPlugin,
    NewMessage,
    GetNodes,
    Broadcast,
    Other,
}

/// A command event: its sender, its kind and its text arguments.
pub struct Event {
    pub sender: EventSender,
    pub kind: EventKind,
    pub data: Vec<String>,
}

/// The text of a list of strings.
pub open spec fn texts(v: Seq<String>) -> Seq<Seq<char>> {
    v.map_values(|s: String| s@)
}

impl Event {
    /// A command event with the given fields.
    pub fn new(sender: EventSender, kind: EventKind, data: Vec<String>) -> (r: Event)
        ensures
            r.sender == sender,
            r.kind == kind,
            r.data@ == data@,
    {
        Event { sender, kind, data }
    }
}

/// The sending end of a channel of command events.
#[verifier::external_type_specification]
#[verifier::external_body]
#[verifier::reject_recursive_types(T)]
pub struct ExSender<T>(std::sync::mpsc::Sender<T>);

/// The receiving end of a channel of command events.
#[verifier::external_type_specification]
#[verifier::external_body]
#[verifier::reject_recursive_types(T)]
pub struct ExReceiver<T>(std::sync::mpsc::Receiver<T>);

/// A component's channels: where it sends, where it receives, and where
/// its own helpers send to it.
pub struct EventChannel {
    pub tx: std::sync::mpsc::Sender<Event>,
    pub rx: std::sync::mpsc::Receiver<Event>,
    pub lbtx: std::sync::mpsc::Sender<Event>,
}

impl EventChannel {
    /// Channels from their ends.
    pub fn new(
        tx: std::sync::mpsc::Sender<Event>,
        rx: std::sync::mpsc::Receiver<Event>,
        lbtx: std::sync::mpsc::Sender<Event>,
    ) -> (r: EventChannel)
        ensures
            r.tx == tx,
            r.rx == rx,
            r.lbtx == lbtx,
    {
        EventChannel { tx, rx, lbtx }
    }
}

/// The word that names a kind.
pub open spec fn kind_word(k: EventKind) -> Seq<char> {
    match k {
        EventKind::NewPlugin => "new_plugin"@,
        EventKind::NewMessage => "new_message"@,
        EventKind::GetNodes => "get_nodes"@,
        EventKind::Broadcast => "broadcast"@,
        EventKind::Other => "other"@,
    }
}

impl EventKind {
    /// The word that names this kind.
    pub fn to_string(&self) -> (r: String)
        ensures
            r@ == kind_word(*self),
    {
        match self {
            EventKind::NewPlugin => String::from_str("new_plugin"),
            EventKind::NewMessage => String::from_str("new_message"),
            EventKind::GetNodes => String::from_str("get_nodes"),
            EventKind::Broadcast => String::from_str("broadcast"),
            EventKind::Other => String::from_str("other"),
        }
    }
}

impl EventKind {
    /// The kind named by a word, any of the five.
    pub fn from_word(x: &str) -> (r: Option<EventKind>)
        ensures
            r matches Some(k) ==> kind_word(k) == x@,
            (x@ == "new_plugin"@ || x@ == "new_message"@ || x@ == "get_nodes"@ || x@
                == "broadcast"@ || x@ == "other"@) ==> r is Some,
    {
        if same_text(x, "new_plugin") {
            Some(EventKind::NewPlugin)
        } else if same_text(x, "new_message") {
            Some(EventKind::NewMessage)
        } else if same_text(x, "get_nodes") {
            Some(EventKind::GetNodes)
        } else if same_text(x, "broadcast") {
            Some(EventKind::Broadcast)
        } else if same_text(x, "other") {
            Some(EventKind::Other)
        } else {
            None
        }
    }
}

/// Whether two texts are equal.
fn same_text(a: &str, b: &str) -> (r: bool)
    ensures
        r == (a@ == b@),
{
    let n = a.unicode_len();
    if n != b.unicode_len() {
        return false;
    }
    let mut i: usize = 0;
    while i < n
        invariant
            n == a@.len(),
            n == b@.len(),
            i <= n,
            forall|j: int| 0 <= j < i ==> a@[j] == b@[j],
        decreases n - i,
    {
        if a.get_char(i) != b.get_char(i) {
            return false;
        }
        i += 1;
    }
    assert(a@ =~= b@);
    true
}

/// The kind named by a word: one of `new_plugin`, `new_message` and
/// `broadcast`; any other word is refused.
pub fn event_kind_from_string(x: &str) -> (r: Result<EventKind, String>)
    ensures
        x@ == "new_plugin"@ ==> r == Ok::<EventKind, String>(EventKind::NewPlugin),
        x@ == "new_message"@ ==> r == Ok::<EventKind, String>(EventKind::NewMessage),
        x@ == "broadcast"@ ==> r == Ok::<EventKind, String>(EventKind::Broadcast),
        x@ != "new_plugin"@ && x@ != "new_message"@ && x@ != "broadcast"@ ==> (r matches Err(t)
            && t@ == "Match not found"@),
{
    proof {
        reveal_strlit("new_plugin");
        reveal_strlit("new_message");
        reveal_strlit("broadcast");
        assert("new_plugin"@.len() == 10);
        assert("new_message"@.len() == 11);
        assert("broadcast"@.len() == 9);
    }
    if same_text(x, "new_plugin") {
        Ok(EventKind::NewPlugin)
    } else if same_text(x, "new_message") {
        Ok(EventKind::NewMessage)
    } else if same_text(x, "broadcast") {
        Ok(EventKind::Broadcast)
    } else {
        Err(String::from_str("Match not found"))
    }
}

/// Events between the main loop and a client handler.
#[derive(Clone, Copy, Debug, PartialEq, Eq, Structural)]
pub enum MCEvents {
    AddPlugin,
    NewPluginCommand,
}

/// Events between the main loop and the node.
#[derive(Clone, Copy, Debug, PartialEq, Eq, Structural)]
pub enum MNEvents {
    NewMessage,
}

/// Events between the main loop and a plugin.
#[derive(Clone, Copy, Debug, PartialEq, Eq, Structural)]
pub enum MPEvents {
    GetNodes,
    NewMainCommand,
    NewPluginCommand,
}

impl MCEvents {
    /// The event's code.
    pub fn code(&self) -> (r: u8)
        ensures
            *self == MCEvents::AddPlugin ==> r == 16,
            *self == MCEvents::NewPluginCommand ==> r == 17,
    {
        match self {
            MCEvents::AddPlugin => 16,
            MCEvents::NewPluginCommand => 17,
        }
    }

    /// The event with the given code.
    pub fn from_code(c: u8) -> (r: Option<MCEvents>)
        ensures
            r matches Some(e) ==> e.code_spec() == c,
            (c == 16 || c == 17) <==> r is Some,
    {
        if c == 16 {
            Some(MCEvents::AddPlugin)
        } else if c == 17 {
            Some(MCEvents::NewPluginCommand)
        } else {
            None
        }
    }

    /// The event's code.
    pub open spec fn code_spec(&self) -> u8 {
        match self {
            MCEvents::AddPlugin => 16,
            MCEvents::NewPluginCommand => 17,
        }
    }
}

impl MNEvents {
    /// The event's code.
    pub fn code(&self) -> (r: u8)
        ensures
            r == 32,
    {
        32
    }

    /// The event with the given code.
    pub fn from_code(c: u8) -> (r: Option<MNEvents>)
        ensures
            c == 32 <==> r is Some,
    {
        if c == 32 {
            Some(MNEvents::NewMessage)
        } else {
            None
        }
    }
}

impl MPEvents {
    /// The event's code.
    pub fn code(&self) -> (r: u8)
        ensures
            r == self.code_spec(),
    {
        match self {
            MPEvents::GetNodes => 64,
            MPEvents::NewMainCommand => 65,
            MPEvents::NewPluginCommand => 66,
        }
    }

    /// The event's code.
    pub open spec fn code_spec(&self) -> u8 {
        match self {
            MPEvents::GetNodes => 64,
            MPEvents::NewMainCommand => 65,
            MPEvents::NewPluginCommand => 66,
        }
    }

    /// The event with the given code.
    pub fn from_code(c: u8) -> (r: Option<MPEvents>)
        ensures
            r matches Some(e) ==> e.code_spec() == c,
            (64 <= c <= 66) <==> r is Some,
    {
        if c == 64 {
            Some(MPEvents::GetNodes)
        } else if c == 65 {
            Some(MPEvents::NewMainCommand)
        } else if c == 66 {
            Some(MPEvents::NewPluginCommand)
        } else {
            None
        }
    }
}

/// The states of a client handler.
#[derive(Clone, Copy, Debug, PartialEq, Eq, Structural)]
pub enum ClientHandlerState {
    Failed,
    Init,
    WaitEvent,
}

impl ClientHandlerState {
    /// The state's number.
    pub open spec fn code_spec(&self) -> u8 {
        match self {
            ClientHandlerState::Failed => 0,
            ClientHandlerState::Init => 1,
            ClientHandlerState::WaitEvent => 2,
        }
    }

    /// The state's number.
    pub fn code(&self) -> (r: u8)
        ensures
            r == self.code_spec(),
    {
        match self {
            ClientHandlerState::Failed => 0,
            ClientHandlerState::Init => 1,
            ClientHandlerState::WaitEvent => 2,
        }
    }

    /// The state with the given number.
    pub fn from_code(c: u8) -> (r: Option<ClientHandlerState>)
        ensures
            r matches Some(s) ==> s.code_spec() == c,
            c <= 2 <==> r is Some,
    {
        if c == 0 {
            Some(ClientHandlerState::Failed)
        } else if c == 1 {
            Some(ClientHandlerState::Init)
        } else if c == 2 {
            Some(ClientHandlerState::WaitEvent)
        } else {
            None
        }
    }
}

/// The moves of a client handler: from init to waiting for events.
pub fn gen_transitions() -> (r: HashMap<u8, Vec<u8>>)
    ensures
        r@.dom() == set![1u8],
        r@[1u8]@ == seq![2u8],
{
    broadcast use vstd::std_specs::hash::group_hash_axioms;

    let mut t: HashMap<u8, Vec<u8>> = HashMap::new();
    t.insert(1, vec![2]);
    assert(t@.dom() =~= set![1u8]);
    t
}

/// `parts` joined with `;` between neighbours.
pub open spec fn joined(parts: Seq<Seq<char>>) -> Seq<char>
    decreases parts.len(),
{
    if parts.len() == 0 {
        Seq::empty()
    } else if parts.len() == 1 {
        parts[0]
    } else {
        joined(parts.drop_last()) + seq![';'] + parts.last()
    }
}

/// `s` cut at every `;`: one more piece than it has separators.
pub open spec fn pieces(s: Seq<char>) -> Seq<Seq<char>>
    decreases s.len(),
{
    if s.len() == 0 {
        seq![Seq::empty()]
    } else {
        let p = pieces(s.drop_last());
        if s.last() == ';' {
            p.push(Seq::empty())
        } else {
            p.update(p.len() - 1, p.last().push(s.last()))
        }
    }
}

/// A command: a list of words.
pub struct Message {
    message: Vec<String>,
}

impl View for Message {
    type V = Seq<Seq<char>>;

    closed spec fn view(&self) -> Seq<Seq<char>> {
        texts(self.message@)
    }
}

/// `pieces` never gives an empty list.
proof fn lemma_pieces_nonempty(s: Seq<char>)
    ensures
        pieces(s).len() >= 1,
    decreases s.len(),
{
    if s.len() > 0 {
        lemma_pieces_nonempty(s.drop_last());
    }
}

/// Joins a list of texts with `;`.
fn join(parts: &Vec<String>, from: usize) -> (r: String)
    requires
        from <= parts@.len(),
    ensures
        r@ == joined(texts(parts@).skip(from as int)),
{
    let ghost t = texts(parts@).skip(from as int);
    let mut out = String::new();
    let mut i: usize = from;
    proof {
        reveal_strlit(";");
        assert(t.take(0) =~= Seq::<Seq<char>>::empty());
    }
    while i < parts.len()
        invariant
            from <= i <= parts@.len(),
            t == texts(parts@).skip(from as int),
            out@ == joined(t.take(i - from)),
        decreases parts.len() - i,
    {
        let ghost k = i - from;
        proof {
            reveal_strlit(";");
            assert(t.take(k + 1).drop_last() =~= t.take(k as int));
            assert(t.take(k + 1).last() == parts@[i as int]@);
        }
        if i > from {
            out.append(";");
        }
        out.append(parts[i].as_str());
        assert(out@ =~= joined(t.take(k + 1)));
        i += 1;
    }
    assert(t.take(i - from) =~= t);
    out
}

impl Message {
    /// A command from its words.
    pub fn from_parts(parts: Vec<String>) -> (r: Message)
        ensures
            r@ == texts(parts@),
    {
        Message { message: parts }
    }

    /// The command written in `text`, cut at every `;`.
    pub fn from_text(text: &str) -> (r: Message)
        ensures
            r@ == pieces(text@),
    {
        let n = text.unicode_len();
        let mut parts: Vec<String> = Vec::new();
        let mut start: usize = 0;
        let mut i: usize = 0;
        proof {
            reveal_with_fuel(pieces, 1);
            assert(text@.take(0) =~= Seq::<char>::empty());
            assert(text@.subrange(0, 0) =~= Seq::<char>::empty());
            assert(pieces(text@.take(0)) =~= texts(parts@).push(text@.subrange(0, 0)));
        }
        while i < n
            invariant
                n == text@.len(),
                start <= i <= n,
                pieces(text@.take(i as int)) == texts(parts@).push(
                    text@.subrange(start as int, i as int),
                ),
            decreases n - i,
        {
            let c = text.get_char(i);
            let ghost prev = texts(parts@);
            proof {
                assert(text@.take(i + 1).drop_last() =~= text@.take(i as int));
                assert(text@.take(i + 1).last() == c);
                lemma_pieces_nonempty(text@.take(i as int));
            }
            if c == ';' {
                let ghost s0 = start;
                let piece = String::from_str(text.substring_char(start, i));
                parts.push(piece);
                start = i + 1;
                proof {
                    assert(texts(parts@) =~= prev.push(text@.subrange(s0 as int, i as int)));
                    assert(text@.subrange(start as int, i + 1) =~= Seq::<char>::empty());
                    assert(pieces(text@.take(i + 1)) =~= texts(parts@).push(
                        text@.subrange(start as int, i + 1),
                    ));
                }
            } else {
                proof {
                    assert(text@.subrange(start as int, i + 1) =~= text@.subrange(
                        start as int,
                        i as int,
                    ).push(c));
                    assert(pieces(text@.take(i + 1)) =~= texts(parts@).push(
                        text@.subrange(start as int, i + 1),
                    ));
                }
            }
            i += 1;
        }
        let last = String::from_str(text.substring_char(start, n));
        let ghost prev = texts(parts@);
        parts.push(last);
        assert(texts(parts@) =~= prev.push(last@));
        assert(text@.take(n as int) =~= text@);
        Message { message: parts }
    }

    /// The words.
    pub fn to_vec(self) -> (r: Vec<String>)
        ensures
            texts(r@) == self@,
    {
        self.message
    }

    /// The words joined with `;`.
    pub fn to_string(self) -> (r: String)
        ensures
            r@ == joined(self@),
    {
        let r = join(&self.message, 0);
        assert(texts(self.message@).skip(0) =~= texts(self.message@));
        r
    }

    /// The words after the first, joined with `;`.
    pub fn skip_first(self) -> (r: String)
        ensures
            self@.len() > 0 ==> r@ == joined(self@.skip(1)),
            self@.len() == 0 ==> r@ == Seq::<char>::empty(),
    {
        if self.message.len() == 0 {
            let r = String::new();
            r
        } else {
            join(&self.message, 1)
        }
    }

    /// The command that carries a command event: its kind's word, then its
    /// arguments.
    pub fn from_event(event: Event) -> (r: Message)
        ensures
            r@ == seq![kind_word(event.kind)] + texts(event.data@),
    {
        let mut message: Vec<String> = Vec::new();
        message.push(event.kind.to_string());
        let mut data = event.data;
        let ghost d = data@;
        message.append(&mut data);
        assert(texts(message@) =~= seq![kind_word(event.kind)] + texts(d));
        Message { message }
    }
}

} // verus!
