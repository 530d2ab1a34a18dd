//! The plugin supervisor's decisions: the table of running plugins and the
//! routing of events between plugins, clients and the node. Starting and
//! stopping processes and writing to streams are actions that the caller
//! carries out.
use vstd::prelude::*;
use crate::bytes::{i32_bytes, i32_of, i32_to_bytes, i32_from_ne_bytes};
use crate::codec::{deserialize, frames, serialize_all, well_formed};
use crate::event::{
    clone_list, event_of, Dest, Dir, Event, EventView, GET_FROM_SHARED_MEMORY, GET_PLUGIN_LIST,
    NEW_PLUGIN, NEW_PLUGIN_EVENT, REMOVE_PLUGIN, RESPOND_CLIENT, TRANSACTION_FAILED,
    TRANSACTION_SUCCEEDED, UPDATE_SHARED_MEMORY,
};
use crate::fsm::views;

verus! {

/// The request succeeded.
pub const STATUS_OK: i32 = 0;
/// No such plugin, or a malformed request.
pub const STATUS_NOT_FOUND: i32 = -1;
/// The plugin was started but never connected back.
pub const STATUS_ACCEPT_FAILED: i32 = -2;
/// A plugin of that name is already running.
pub const STATUS_NAME_TAKEN: i32 = -3;

/// A running plugin: its name, its process and its stream's descriptor.
pub struct PluginEntry {
    pub name: Vec<u8>,
    pub pid: u32,
    pub fd: i32,
}

/// The value of a table entry.
pub struct PluginEntryView {
    pub name: Seq<u8>,
    pub pid: u32,
    pub fd: i32,
}

/// The value of a table entry.
pub open spec fn entry_view(e: PluginEntry) -> PluginEntryView {
    PluginEntryView { name: e.name@, pid: e.pid, fd: e.fd }
}

/// Whether no two entries share a name, a process or a descriptor.
pub open spec fn table_ok(t: Seq<PluginEntryView>) -> bool {
    forall|i: int, j: int|
        0 <= i < t.len() && 0 <= j < t.len() && i != j ==> (#[trigger] t[i]).name != (#[trigger] t[j]).name
            && t[i].pid != t[j].pid && t[i].fd != t[j].fd
}

/// The index of the entry named `name`, if any.
pub open spec fn has_name(t: Seq<PluginEntryView>, name: Seq<u8>) -> bool {
    exists|i: int| 0 <= i < t.len() && (#[trigger] t[i]).name == name
}

/// Whether an entry has the descriptor `fd`.
pub open spec fn has_fd(t: Seq<PluginEntryView>, fd: i32) -> bool {
    exists|i: int| 0 <= i < t.len() && (#[trigger] t[i]).fd == fd
}

/// The names of the running plugins, in table order.
pub open spec fn names_of(t: Seq<PluginEntryView>) -> Seq<Seq<u8>> {
    t.map_values(|e: PluginEntryView| e.name)
}

/// A response for a client along `meta`.
pub open spec fn respond_ev(data: Seq<Seq<u8>>, meta: Seq<Seq<u8>>) -> EventView {
    event_of(Some(Dir::Outcoming), Some(Dest::Server), RESPOND_CLIENT, data, meta)
}

/// A status response for a client along `meta`.
pub open spec fn status_ev(status: i32, meta: Seq<Seq<u8>>) -> EventView {
    respond_ev(seq![i32_bytes(status)], meta)
}

/// An event for a plugin: to be handled, addressed by no component.
pub open spec fn to_plugin_ev(kind: i32, data: Seq<Seq<u8>>, meta: Seq<Seq<u8>>) -> EventView {
    event_of(Some(Dir::Incoming), None, kind, data, meta)
}

/// Client events re-addressed to a plugin, with the client's meta chain.
pub open spec fn rewrapped(es: Seq<EventView>, meta: Seq<Seq<u8>>) -> Seq<EventView> {
    es.map_values(|e: EventView| to_plugin_ev(e.kind, e.data, meta))
}

/// The plugin descriptor at the head of a meta chain.
pub open spec fn head_fd(meta: Seq<Seq<u8>>) -> Option<i32> {
    if meta.len() > 0 {
        i32_of(meta[0])
    } else {
        None
    }
}

/// What the supervisor asks its caller to do.
pub enum PluginAction {
    /// Nothing.
    Nothing,
    /// Send the event to the router.
    Emit(Event),
    /// Start a plugin from `source` under `name`, then report with
    /// `plugin_started` or `plugin_failed`, handing back `meta`.
    Spawn { source: Vec<u8>, name: Vec<u8>, meta: Vec<Vec<u8>> },
    /// Close `fd`, stop process `pid`, and send `response` to the router.
    Stop { pid: u32, fd: i32, response: Event },
    /// Write `bytes` to the plugin stream `fd`.
    Write { fd: i32, bytes: Vec<u8> },
}

/// `a` is the emission of `e`.
pub open spec fn emits(a: PluginAction, e: EventView) -> bool {
    a matches PluginAction::Emit(x) && x@ == e
}

/// `a` is the write of `bytes` to `fd`.
pub open spec fn writes(a: PluginAction, fd: i32, bytes: Seq<u8>) -> bool {
    a matches PluginAction::Write { fd: f, bytes: b } && f == fd && b@ == bytes
}

/// What the supervisor does with an event that it is to handle (from a
/// client, or an answer from the node): the action `a` and the table `t2`
/// after it.
pub open spec fn incoming_action(
    t: Seq<PluginEntryView>,
    e: EventView,
    a: PluginAction,
    t2: Seq<PluginEntryView>,
) -> bool {
    if e.kind == NEW_PLUGIN {
        &&& t2 == t
        &&& if e.data.len() >= 2 {
            if has_name(t, e.data[1]) {
                emits(a, status_ev(STATUS_NAME_TAKEN, e.meta))
            } else {
                a matches PluginAction::Spawn { source, name, meta } && source@ == e.data[0]
                    && name@ == e.data[1] && meta.deep_view() == e.meta
            }
        } else {
            emits(a, status_ev(STATUS_NOT_FOUND, e.meta))
        }
    } else if e.kind == REMOVE_PLUGIN {
        if e.data.len() >= 1 && has_name(t, e.data[0]) {
            exists|i: int|
                0 <= i < t.len() && (#[trigger] t[i]).name == e.data[0] && t2 == t.remove(i) && (
                a matches PluginAction::Stop { pid, fd, response } && pid == t[i].pid && fd
                    == t[i].fd && response@ == status_ev(STATUS_OK, e.meta))
        } else {
            t2 == t && emits(a, status_ev(STATUS_NOT_FOUND, e.meta))
        }
    } else if e.kind == GET_PLUGIN_LIST {
        t2 == t && emits(a, respond_ev(names_of(t), e.meta))
    } else if e.kind == NEW_PLUGIN_EVENT {
        &&& t2 == t
        &&& if e.data.len() >= 2 && has_name(t, e.data[0]) {
            exists|i: int, evs: Seq<EventView>, rest: Seq<u8>|
                #![trigger t[i], frames(evs), rest.len()]
                0 <= i < t.len() && t[i].name == e.data[0] && e.data[1] == frames(evs)
                    + rest && (well_formed(e.data[1]) ==> rest.len() == 0) && writes(
                    a,
                    t[i].fd,
                    frames(rewrapped(evs, e.meta)),
                )
        } else {
            emits(a, status_ev(STATUS_NOT_FOUND, e.meta))
        }
    } else if e.kind == GET_FROM_SHARED_MEMORY {
        &&& t2 == t
        &&& match head_fd(e.meta) {
            Some(fd) => if has_fd(t, fd) {
                writes(a, fd, frames(seq![to_plugin_ev(GET_FROM_SHARED_MEMORY, e.data, Seq::empty())]))
            } else {
                a is Nothing
            },
            None => a is Nothing,
        }
    } else if e.kind == TRANSACTION_SUCCEEDED || e.kind == TRANSACTION_FAILED {
        &&& t2 == t
        &&& match head_fd(e.meta) {
            Some(fd) => if has_fd(t, fd) {
                writes(a, fd, frames(seq![to_plugin_ev(e.kind, e.data, Seq::empty())]))
            } else {
                a is Nothing
            },
            None => a is Nothing,
        }
    } else {
        t2 == t && a is Nothing
    }
}

/// What the supervisor does with an event that a plugin wrote (tagged with
/// the plugin's descriptor at the head of its meta chain).
pub open spec fn outcoming_action(e: EventView, a: PluginAction) -> bool {
    if e.kind == UPDATE_SHARED_MEMORY || e.kind == GET_FROM_SHARED_MEMORY {
        emits(a, event_of(Some(Dir::Outcoming), Some(Dest::Node), e.kind, e.data, e.meta))
    } else if e.kind == RESPOND_CLIENT {
        if e.meta.len() > 0 {
            emits(a, respond_ev(e.data, e.meta.skip(1)))
        } else {
            a is Nothing
        }
    } else {
        a is Nothing
    }
}

/// The plugin supervisor's table.
pub struct PluginMan {
    plugins: Vec<PluginEntry>,
}

/// Whether two byte strings are equal.
fn same(a: &Vec<u8>, b: &Vec<u8>) -> (r: bool)
    ensures
        r == (a@ == b@),
{
    if a.len() != b.len() {
        return false;
    }
    let mut i: usize = 0;
    while i < a.len()
        invariant
            a@.len() == b@.len(),
            i <= a@.len(),
            forall|j: int| 0 <= j < i ==> a@[j] == b@[j],
        decreases a.len() - i,
    {
        if a[i] != b[i] {
            return false;
        }
        i += 1;
    }
    assert(a@ =~= b@);
    true
}

/// A status response along `meta`.
fn status_event(status: i32, meta: Vec<Vec<u8>>) -> (r: Event)
    ensures
        r@ == status_ev(status, meta.deep_view()),
{
    let b = i32_to_bytes(status);
    proof {
        crate::shared::lemma_bytes_deep_view(b);
    }
    let mut data: Vec<Vec<u8>> = Vec::new();
    data.push(b);
    assert(data.deep_view() =~= seq![i32_bytes(status)]);
    Event::new(Some(Dir::Outcoming), Some(Dest::Server), RESPOND_CLIENT, data, meta)
}

/// Reads the plugin descriptor at the head of a meta chain.
fn meta_head_fd(meta: &Vec<Vec<u8>>) -> (r: Option<i32>)
    ensures
        r == head_fd(meta.deep_view()),
{
    if meta.len() > 0 {
        proof {
            crate::shared::lemma_bytes_deep_view(meta@[0]);
        }
        match i32_from_ne_bytes(meta[0].as_slice()) {
            Ok(fd) => Some(fd),
            Err(_) => None,
        }
    } else {
        None
    }
}

/// The meta chain without its head.
fn pop_meta(meta: &Vec<Vec<u8>>) -> (r: Vec<Vec<u8>>)
    requires
        meta@.len() > 0,
    ensures
        r.deep_view() == meta.deep_view().skip(1),
{
    let mut r: Vec<Vec<u8>> = Vec::new();
    let mut i: usize = 1;
    while i < meta.len()
        invariant
            1 <= i <= meta@.len(),
            r.deep_view() == meta.deep_view().subrange(1, i as int),
        decreases meta.len() - i,
    {
        let b = meta[i].clone();
        proof {
            crate::shared::lemma_bytes_deep_view(b);
            crate::shared::lemma_bytes_deep_view(meta@[i as int]);
        }
        assert(b@ =~= meta@[i as int]@);
        let ghost prev = r.deep_view();
        r.push(b);
        assert(r.deep_view() =~= prev.push(b@));
        assert(meta.deep_view().subrange(1, i + 1) =~= meta.deep_view().subrange(1, i as int).push(
            meta.deep_view()[i as int],
        ));
        i += 1;
    }
    assert(meta.deep_view().subrange(1, i as int) =~= meta.deep_view().skip(1));
    r
}

/// Puts the descriptor `fd` at the head of `event`'s meta chain: the tag
/// that lets a response find the plugin that asked.
pub fn tag_plugin_event(fd: i32, event: Event) -> (r: Event)
    ensures
        r@ == event_of(
            event@.dir,
            event@.dest,
            event@.kind,
            event@.data,
            seq![i32_bytes(fd)] + event@.meta,
        ),
{
    let Event { dir, dest, kind, data, meta } = event;
    let ghost old_meta = meta.deep_view();
    let b = i32_to_bytes(fd);
    proof {
        crate::shared::lemma_bytes_deep_view(b);
    }
    let mut m: Vec<Vec<u8>> = Vec::new();
    m.push(b);
    let mut rest = meta;
    m.append(&mut rest);
    assert(m.deep_view() =~= seq![i32_bytes(fd)] + old_meta);
    Event::new(dir, dest, kind, data, m)
}

/// Re-addresses client events to a plugin, with the client's meta chain.
fn rewrap(events: Vec<Event>, meta: &Vec<Vec<u8>>) -> (r: Vec<Event>)
    ensures
        views(r@) == rewrapped(views(events@), meta.deep_view()),
{
    let mut out: Vec<Event> = Vec::new();
    let mut i: usize = 0;
    while i < events.len()
        invariant
            i <= events@.len(),
            views(out@) == rewrapped(views(events@), meta.deep_view()).take(i as int),
        decreases events.len() - i,
    {
        let e = Event::new(
            Some(Dir::Incoming),
            None,
            events[i].kind,
            clone_list(&events[i].data),
            clone_list(meta),
        );
        let ghost prev = out@;
        out.push(e);
        assert(views(out@) =~= views(prev).push(e@));
        assert(rewrapped(views(events@), meta.deep_view()).take(i + 1) =~= rewrapped(
            views(events@),
            meta.deep_view(),
        ).take(i as int).push(e@));
        i += 1;
    }
    assert(rewrapped(views(events@), meta.deep_view()).take(i as int) =~= rewrapped(
        views(events@),
        meta.deep_view(),
    ));
    out
}

impl PluginMan {
    /// The running plugins.
    pub closed spec fn table(&self) -> Seq<PluginEntryView> {
        self.plugins@.map_values(|e: PluginEntry| entry_view(e))
    }

    /// No two plugins share a name, a process or a descriptor.
    pub closed spec fn wf(&self) -> bool {
        table_ok(self.table())
    }

    /// A supervisor with no plugins.
    pub fn new() -> (r: PluginMan)
        ensures
            r.wf(),
            r.table() == Seq::<PluginEntryView>::empty(),
    {
        let r = PluginMan { plugins: Vec::new() };
        assert(r.table() =~= Seq::<PluginEntryView>::empty());
        r
    }

    /// The index of the plugin named `name`.
    fn find_name(&self, name: &Vec<u8>) -> (r: Option<usize>)
        ensures
            r matches Some(i) ==> i < self.table().len() && self.table()[i as int].name == name@,
            r is None ==> !has_name(self.table(), name@),
    {
        let mut i: usize = 0;
        while i < self.plugins.len()
            invariant
                i <= self.plugins@.len(),
                forall|j: int| 0 <= j < i ==> self.table()[j].name != name@,
            decreases self.plugins.len() - i,
        {
            if same(&self.plugins[i].name, name) {
                return Some(i);
            }
            i += 1;
        }
        None
    }

    /// The index of the plugin whose stream is `fd`.
    fn find_fd(&self, fd: i32) -> (r: Option<usize>)
        ensures
            r matches Some(i) ==> i < self.table().len() && self.table()[i as int].fd == fd,
            r is None ==> !has_fd(self.table(), fd),
    {
        let mut i: usize = 0;
        while i < self.plugins.len()
            invariant
                i <= self.plugins@.len(),
                forall|j: int| 0 <= j < i ==> self.table()[j].fd != fd,
            decreases self.plugins.len() - i,
        {
            if self.plugins[i].fd == fd {
                return Some(i);
            }
            i += 1;
        }
        None
    }

    /// Whether a plugin of that name runs.
    pub fn is_running(&self, name: &Vec<u8>) -> (r: bool)
        ensures
            r == has_name(self.table(), name@),
    {
        self.find_name(name).is_some()
    }

    /// The descriptors of the plugins' streams, in table order.
    pub fn plugin_fds(&self) -> (r: Vec<i32>)
        ensures
            r@ == self.table().map_values(|e: PluginEntryView| e.fd),
    {
        let mut r: Vec<i32> = Vec::new();
        let mut i: usize = 0;
        while i < self.plugins.len()
            invariant
                i <= self.plugins@.len(),
                r@ == self.table().map_values(|e: PluginEntryView| e.fd).take(i as int),
            decreases self.plugins.len() - i,
        {
            r.push(self.plugins[i].fd);
            assert(self.table().map_values(|e: PluginEntryView| e.fd).take(i + 1)
                =~= self.table().map_values(|e: PluginEntryView| e.fd).take(i as int).push(
                self.plugins@[i as int].fd,
            ));
            i += 1;
        }
        assert(self.table().map_values(|e: PluginEntryView| e.fd).take(i as int)
            =~= self.table().map_values(|e: PluginEntryView| e.fd));
        r
    }

    /// The names of the plugins, in table order.
    pub fn plugin_names(&self) -> (r: Vec<Vec<u8>>)
        ensures
            r.deep_view() == names_of(self.table()),
    {
        let mut r: Vec<Vec<u8>> = Vec::new();
        let mut i: usize = 0;
        while i < self.plugins.len()
            invariant
                i <= self.plugins@.len(),
                r.deep_view() == names_of(self.table()).take(i as int),
            decreases self.plugins.len() - i,
        {
            let n = self.plugins[i].name.clone();
            proof {
                crate::shared::lemma_bytes_deep_view(n);
            }
            assert(n@ =~= self.plugins@[i as int].name@);
            let ghost prev = r.deep_view();
            r.push(n);
            assert(r.deep_view() =~= prev.push(n@));
            assert(names_of(self.table()).take(i + 1) =~= names_of(self.table()).take(
                i as int,
            ).push(n@));
            i += 1;
        }
        assert(names_of(self.table()).take(i as int) =~= names_of(self.table()));
        r
    }

    /// Records a plugin that started and connected back, and answers the
    /// client. A name, process or descriptor already in the table is not
    /// recorded: the answer is then `false` with the name-taken status for a
    /// name, or the generic failure status, and the caller stops the
    /// process.
    pub fn plugin_started(&mut self, name: Vec<u8>, pid: u32, fd: i32, meta: Vec<Vec<u8>>) -> (r: (
        bool,
        Event,
    ))
        requires
            old(self).wf(),
        ensures
            final(self).wf(),
            r.0 == !(has_name(old(self).table(), name@) || exists|i: int|
                0 <= i < old(self).table().len() && ((#[trigger] old(self).table()[i]).pid == pid
                    || old(self).table()[i].fd == fd)),
            r.0 ==> final(self).table() == old(self).table().push(
                PluginEntryView { name: name@, pid, fd },
            ) && r.1@ == status_ev(STATUS_OK, meta.deep_view()),
            !r.0 ==> final(self).table() == old(self).table(),
            !r.0 && has_name(old(self).table(), name@) ==> r.1@ == status_ev(
                STATUS_NAME_TAKEN,
                meta.deep_view(),
            ),
            !r.0 && !has_name(old(self).table(), name@) ==> r.1@ == status_ev(
                STATUS_NOT_FOUND,
                meta.deep_view(),
            ),
    {
        let name_clash = self.find_name(&name).is_some();
        let mut id_clash = false;
        let mut i: usize = 0;
        while i < self.plugins.len()
            invariant
                i <= self.plugins@.len(),
                self.table() == old(self).table(),
                id_clash ==> exists|j: int|
                    0 <= j < self.table().len() && ((#[trigger] self.table()[j]).pid == pid
                        || self.table()[j].fd == fd),
                !id_clash ==> forall|j: int|
                    0 <= j < i ==> (#[trigger] self.table()[j]).pid != pid && self.table()[j].fd
                        != fd,
            decreases self.plugins.len() - i,
        {
            if self.plugins[i].pid == pid || self.plugins[i].fd == fd {
                assert(self.table()[i as int].pid == pid || self.table()[i as int].fd == fd);
                id_clash = true;
            }
            i += 1;
        }
        let clash = name_clash || id_clash;
        if name_clash {
            return (false, status_event(STATUS_NAME_TAKEN, meta));
        }
        if clash {
            return (false, status_event(STATUS_NOT_FOUND, meta));
        }
        let ghost t = self.table();
        self.plugins.push(PluginEntry { name, pid, fd });
        assert(self.table() =~= t.push(PluginEntryView { name: name@, pid, fd }));
        (true, status_event(STATUS_OK, meta))
    }

    /// The answer to a client when a plugin could not be started.
    pub fn plugin_failed(status: i32, meta: Vec<Vec<u8>>) -> (r: Event)
        ensures
            r@ == status_ev(status, meta.deep_view()),
    {
        status_event(status, meta)
    }

    /// Writes one event to the plugin stream `fd`.
    fn write_one(fd: i32, e: Event) -> (r: PluginAction)
        ensures
            writes(r, fd, frames(seq![e@])),
    {
        let mut v: Vec<Event> = Vec::new();
        let ghost ev = e@;
        v.push(e);
        assert(views(v@) =~= seq![ev]);
        PluginAction::Write { fd, bytes: serialize_all(&v) }
    }

    /// Handles an event addressed to the supervisor: a client's command, or
    /// the node's answer for a plugin.
    pub fn handle_incoming_event(&mut self, event: Event) -> (a: PluginAction)
        requires
            old(self).wf(),
        ensures
            final(self).wf(),
            incoming_action(old(self).table(), event@, a, final(self).table()),
    {
        let ghost t = self.table();
        let ghost e = event@;
        if event.kind == NEW_PLUGIN {
            if event.data.len() >= 2 {
                proof {
                    crate::shared::lemma_bytes_deep_view(event.data@[1]);
                }
                if self.find_name(&event.data[1]).is_some() {
                    PluginAction::Emit(status_event(STATUS_NAME_TAKEN, event.meta))
                } else {
                    let source = event.data[0].clone();
                    let name = event.data[1].clone();
                    proof {
                        crate::shared::lemma_bytes_deep_view(event.data@[0]);
                        crate::shared::lemma_bytes_deep_view(event.data@[1]);
                    }
                    assert(source@ =~= e.data[0]);
                    assert(name@ =~= e.data[1]);
                    PluginAction::Spawn { source, name, meta: event.meta }
                }
            } else {
                PluginAction::Emit(status_event(STATUS_NOT_FOUND, event.meta))
            }
        } else if event.kind == REMOVE_PLUGIN {
            if event.data.len() >= 1 {
                proof {
                    crate::shared::lemma_bytes_deep_view(event.data@[0]);
                }
                match self.find_name(&event.data[0]) {
                    Some(i) => {
                        let entry = self.plugins.remove(i);
                        assert(self.table() =~= t.remove(i as int));
                        assert(t[i as int].name == e.data[0]);
                        PluginAction::Stop {
                            pid: entry.pid,
                            fd: entry.fd,
                            response: status_event(STATUS_OK, event.meta),
                        }
                    },
                    None => PluginAction::Emit(status_event(STATUS_NOT_FOUND, event.meta)),
                }
            } else {
                PluginAction::Emit(status_event(STATUS_NOT_FOUND, event.meta))
            }
        } else if event.kind == GET_PLUGIN_LIST {
            let names = self.plugin_names();
            PluginAction::Emit(
                Event::new(Some(Dir::Outcoming), Some(Dest::Server), RESPOND_CLIENT, names, event.meta),
            )
        } else if event.kind == NEW_PLUGIN_EVENT {
            if event.data.len() >= 2 {
                proof {
                    crate::shared::lemma_bytes_deep_view(event.data@[0]);
                    crate::shared::lemma_bytes_deep_view(event.data@[1]);
                }
                match self.find_name(&event.data[0]) {
                    Some(i) => {
                        let fd = self.plugins[i].fd;
                        let (inner, rest) = deserialize(event.data[1].as_slice());
                        let ghost evs = views(inner@);
                        let ghost rest_v = rest@;
                        let wrapped = rewrap(inner, &event.meta);
                        let bytes = serialize_all(&wrapped);
                        assert(t[i as int].name == e.data[0]);
                        let a = PluginAction::Write { fd, bytes };
                        assert(writes(a, t[i as int].fd, frames(rewrapped(evs, e.meta))));
                        assert(e.data[1] == frames(evs) + rest_v);
                        a
                    },
                    None => PluginAction::Emit(status_event(STATUS_NOT_FOUND, event.meta)),
                }
            } else {
                PluginAction::Emit(status_event(STATUS_NOT_FOUND, event.meta))
            }
        } else if event.kind == GET_FROM_SHARED_MEMORY || event.kind == TRANSACTION_SUCCEEDED
            || event.kind == TRANSACTION_FAILED {
            match meta_head_fd(&event.meta) {
                Some(fd) => {
                    if self.find_fd(fd).is_some() {
                        let meta: Vec<Vec<u8>> = Vec::new();
                        assert(meta.deep_view() =~= Seq::<Seq<u8>>::empty());
                        let kind = event.kind;
                        Self::write_one(fd, Event::new(Some(Dir::Incoming), None, kind, event.data, meta))
                    } else {
                        PluginAction::Nothing
                    }
                },
                None => PluginAction::Nothing,
            }
        } else {
            PluginAction::Nothing
        }
    }

    /// Routes an event that a plugin wrote: shared-memory operations go to
    /// the node with the plugin's tag kept; a response goes to the server
    /// with the tag popped.
    pub fn handle_outcoming_event(&self, event: Event) -> (a: PluginAction)
        ensures
            outcoming_action(event@, a),
    {
        if event.kind == UPDATE_SHARED_MEMORY || event.kind == GET_FROM_SHARED_MEMORY {
            PluginAction::Emit(
                Event::new(Some(Dir::Outcoming), Some(Dest::Node), event.kind, event.data, event.meta),
            )
        } else if event.kind == RESPOND_CLIENT {
            if event.meta.len() > 0 {
                let meta = pop_meta(&event.meta);
                PluginAction::Emit(
                    Event::new(Some(Dir::Outcoming), Some(Dest::Server), RESPOND_CLIENT, event.data, meta),
                )
            } else {
                PluginAction::Nothing
            }
        } else {
            PluginAction::Nothing
        }
    }

    /// Handles an event by its direction; one without a direction is
    /// dropped.
    pub fn handle_event(&mut self, event: Event) -> (a: PluginAction)
        requires
            old(self).wf(),
        ensures
            final(self).wf(),
            event@.dir == Some(Dir::Incoming) ==> incoming_action(
                old(self).table(),
                event@,
                a,
                final(self).table(),
            ),
            event@.dir == Some(Dir::Outcoming) ==> outcoming_action(event@, a) && final(self).table()
                == old(self).table(),
            event@.dir is None ==> a is Nothing && final(self).table() == old(self).table(),
    {
        match event.dir {
            Some(Dir::Incoming) => self.handle_incoming_event(event),
            Some(Dir::Outcoming) => self.handle_outcoming_event(event),
            None => PluginAction::Nothing,
        }
    }

    /// Forgets the plugin whose stream `fd` closed; gives its process, to be
    /// stopped.
    pub fn forget_fd(&mut self, fd: i32) -> (r: Option<u32>)
        requires
            old(self).wf(),
        ensures
            final(self).wf(),
            !has_fd(old(self).table(), fd) ==> r is None && final(self).table() == old(self).table(),
            has_fd(old(self).table(), fd) ==> exists|i: int|
                0 <= i < old(self).table().len() && (#[trigger] old(self).table()[i]).fd == fd
                    && r == Some(old(self).table()[i].pid) && final(self).table() == old(
                    self,
                ).table().remove(i),
    {
        match self.find_fd(fd) {
            Some(i) => {
                let ghost t = self.table();
                let e = self.plugins.remove(i);
                assert(self.table() =~= t.remove(i as int));
                Some(e.pid)
            },
            None => None,
        }
    }
}

/// Every client command gets its answer along the client's meta chain: an
/// unknown or refused one at once, a removal with the stop, a listing at
/// once; a start hands the chain to the caller, who answers through
/// `plugin_started` or `plugin_failed`; an event for a running plugin goes
/// to that plugin with the chain, for the plugin to answer.
pub proof fn lemma_client_commands_answered(
    t: Seq<PluginEntryView>,
    e: EventView,
    a: PluginAction,
    t2: Seq<PluginEntryView>,
)
    requires
        e.kind == NEW_PLUGIN || e.kind == REMOVE_PLUGIN || e.kind == GET_PLUGIN_LIST || e.kind
            == NEW_PLUGIN_EVENT,
        incoming_action(t, e, a, t2),
    ensures
        a matches PluginAction::Emit(x) ==> x@.kind == RESPOND_CLIENT && x@.meta == e.meta,
        a matches PluginAction::Stop { pid, fd, response } ==> response@.kind == RESPOND_CLIENT
            && response@.meta == e.meta,
        a matches PluginAction::Spawn { source, name, meta } ==> meta.deep_view() == e.meta,
        !(a is Nothing),
{
}

/// A response for a plugin whose stream is gone is dropped without a
/// trace: no write, no change.
pub proof fn lemma_closed_plugin_dropped(
    t: Seq<PluginEntryView>,
    e: EventView,
    a: PluginAction,
    t2: Seq<PluginEntryView>,
    fd: i32,
)
    requires
        e.kind == GET_FROM_SHARED_MEMORY || e.kind == TRANSACTION_SUCCEEDED || e.kind
            == TRANSACTION_FAILED,
        head_fd(e.meta) == Some(fd),
        !has_fd(t, fd),
        incoming_action(t, e, a, t2),
    ensures
        a is Nothing,
        t2 == t,
{
}

/// A move that the component's state machine does not allow.
#[derive(Clone, Copy, Debug, PartialEq, Eq, Structural)]
pub enum PluginManError {
    InternalError,
}

impl From<crate::fsm::FSMError> for PluginManError {
    fn from(e: crate::fsm::FSMError) -> (r: PluginManError) {
        PluginManError::InternalError
    }
}

impl vstd::std_specs::convert::FromSpecImpl<crate::fsm::FSMError> for PluginManError {
    open spec fn obeys_from_spec() -> bool {
        true
    }

    open spec fn from_spec(v: crate::fsm::FSMError) -> PluginManError {
        PluginManError::InternalError
    }
}

} // verus!
