//! The queue manager's side of one conversation: what a test puts at the
//! far end, and what the playground drives.
//!
//! Not MQ. One queue manager holds named queues in memory, answers the
//! initial data with its own, checks its name on `MQCONN`, hands out
//! handles on `MQOPEN`, appends on `MQPUT` and takes from the front on
//! `MQGET`, each reply with MQ's completion and reason codes — `2058` for
//! the wrong queue manager, `2085` for a queue it does not have, `2033`
//! for an empty one. Persistence, channels, security exits and clustering
//! are a queue manager's.

use std::collections::{BTreeMap, VecDeque};

use vstd::prelude::*;
use vstd::slice::{slice_subrange, slice_to_vec};

use crate::arrived::{Arrived, ArrivedView};
use crate::client::{
    DEFAULT_MAX_MESSAGE, HANDLE_ERROR, NO_MESSAGE, QUEUE_MANAGER_NAME_ERROR, TOO_BIG,
    UNKNOWN_OBJECT,
};
use crate::descriptor::{
    decode_object, decode_options, encode_get_options, fixed, get_options_bytes, initial_decoded,
    md_decoded, object_decoded, options_decoded, text_of, InitialData, InitialDataView,
    MessageDescriptor, MessageDescriptorView, MQPMO_CATCHER, MQPMO_LENGTH,
};
use crate::error::{outcome, permanent, protocol_error, Fault, TransportError};
use crate::segment::{
    api_bytes, api_call, api_decoded, api_failed, be32_bytes, nuls, put32, put_bytes, put_nuls,
    ApiHeader, Segment, SegmentView, INITIAL_DATA, MQCLOSE, MQCONN, MQDISC, MQGET, MQOPEN, MQPUT,
};
use crate::text::{field_of, field_text, hex_byte, hex_byte_text, hex_of, joined};
pub use crate::text::hex;

verus! {

/// What the client did, as [`Session::next_event`] reports it.
#[derive(Clone, Debug, PartialEq, Eq)]
pub enum Event {
    /// The client connected as this queue manager.
    Connected,
    /// The client opened this queue.
    Opened(String),
    /// The client put one message; here is the Stream.
    Put(Arrived),
    /// The client got from this queue, or found it empty.
    Got(String),
    /// The client closed a handle.
    Closed,
    /// The client disconnected.
    Disconnected,
    /// The client was refused with this reason.
    Refused(u32),
}

/// What an [`Event`] holds.
pub enum EventView {
    Connected,
    Opened(Seq<char>),
    Put(ArrivedView),
    Got(Seq<char>),
    Closed,
    Disconnected,
    Refused(u32),
}

impl View for Event {
    type V = EventView;

    open spec fn view(&self) -> EventView {
        match self {
            Event::Connected => EventView::Connected,
            Event::Opened(queue) => EventView::Opened(queue@),
            Event::Put(arrived) => EventView::Put(arrived@),
            Event::Got(queue) => EventView::Got(queue@),
            Event::Closed => EventView::Closed,
            Event::Disconnected => EventView::Disconnected,
            Event::Refused(reason) => EventView::Refused(*reason),
        }
    }
}

/// One queue: its name, and what it holds, oldest first.
#[derive(Clone, Debug)]
struct Queue {
    name: String,
    held: VecDeque<Vec<u8>>,
}

/// A queue manager by name, holding its queues, ready to accept.
#[derive(Clone, Debug)]
pub struct QueueManager {
    name: String,
    queues: Vec<Queue>,
    max_message: u32,
}

/// What a [`QueueManager`] holds: each queue's messages, oldest first, by
/// its name.
#[verifier::ext_equal]
pub struct ManagerView {
    pub name: Seq<char>,
    pub queues: Map<Seq<char>, Seq<Seq<u8>>>,
    pub max_message: u32,
}

/// The bytes of each message held.
pub open spec fn contents(held: Seq<Vec<u8>>) -> Seq<Seq<u8>> {
    Seq::new(held.len(), |i: int| held[i]@)
}

/// The bytes of each message given.
pub open spec fn given(messages: Seq<&[u8]>) -> Seq<Seq<u8>> {
    Seq::new(messages.len(), |i: int| messages[i]@)
}

/// No two queues share a name.
spec fn distinct(queues: Seq<Queue>) -> bool {
    forall|i: int, j: int|
        0 <= i < queues.len() && 0 <= j < queues.len() && #[trigger] queues[i].name@
            == #[trigger] queues[j].name@ ==> i == j
}

spec fn is_at(queues: Seq<Queue>, name: Seq<char>, i: int) -> bool {
    0 <= i < queues.len() && queues[i].name@ == name
}

spec fn place(queues: Seq<Queue>, name: Seq<char>) -> int {
    choose|i: int| is_at(queues, name, i)
}

/// What the queues hold, by name.
spec fn by_name(queues: Seq<Queue>) -> Map<Seq<char>, Seq<Seq<u8>>> {
    Map::new(
        |name: Seq<char>| exists|i: int| is_at(queues, name, i),
        |name: Seq<char>| contents(queues[place(queues, name)].held@),
    )
}

proof fn lemma_at(queues: Seq<Queue>, i: int)
    requires
        distinct(queues),
        0 <= i < queues.len(),
    ensures
        by_name(queues).contains_key(queues[i].name@),
        by_name(queues)[queues[i].name@] == contents(queues[i].held@),
{
    assert(is_at(queues, queues[i].name@, i));
    let found = place(queues, queues[i].name@);
    assert(is_at(queues, queues[i].name@, found));
}

/// One more queue is one more entry.
proof fn lemma_one_more(queues: Seq<Queue>, queue: Queue)
    requires
        distinct(queues),
        !by_name(queues).contains_key(queue.name@),
    ensures
        distinct(queues.push(queue)),
        by_name(queues.push(queue)) == by_name(queues).insert(queue.name@, contents(queue.held@)),
{
    let more = queues.push(queue);
    assert forall|i: int| 0 <= i < queues.len() implies #[trigger] queues[i].name@
        != queue.name@ by {
        lemma_at(queues, i);
    }
    assert(distinct(more));
    let after = by_name(queues).insert(queue.name@, contents(queue.held@));
    assert forall|name: Seq<char>| by_name(more).contains_key(name) == after.contains_key(name) by {
        if by_name(more).contains_key(name) {
            let i = place(more, name);
            if i < queues.len() {
                assert(is_at(queues, name, i));
            }
        }
        if by_name(queues).contains_key(name) {
            let i = place(queues, name);
            assert(is_at(more, name, i));
        }
        assert(is_at(more, queue.name@, queues.len() as int));
    }
    assert forall|name: Seq<char>| by_name(more).contains_key(name) implies by_name(more)[name]
        == after[name] by {
        let i = place(more, name);
        lemma_at(more, i);
        if i < queues.len() {
            lemma_at(queues, i);
        }
    }
    assert(by_name(more) =~= after);
}

/// What one queue holds changes that entry and no other.
proof fn lemma_changed(queues: Seq<Queue>, changed: Seq<Queue>, k: int)
    requires
        distinct(queues),
        0 <= k < queues.len(),
        changed.len() == queues.len(),
        changed[k].name@ == queues[k].name@,
        forall|i: int| 0 <= i < queues.len() && i != k ==> #[trigger] changed[i] == queues[i],
    ensures
        distinct(changed),
        by_name(changed) == by_name(queues).insert(queues[k].name@, contents(changed[k].held@)),
{
    assert forall|i: int| 0 <= i < queues.len() implies #[trigger] changed[i].name@
        == queues[i].name@ by {
        if i != k {
            assert(changed[i] == queues[i]);
        }
    }
    assert(distinct(changed)) by {
        assert forall|i: int, j: int|
            0 <= i < changed.len() && 0 <= j < changed.len() && #[trigger] changed[i].name@
                == #[trigger] changed[j].name@ implies i == j by {
            assert(queues[i].name@ == queues[j].name@);
        }
    }
    let after = by_name(queues).insert(queues[k].name@, contents(changed[k].held@));
    assert forall|name: Seq<char>| by_name(changed).contains_key(name)
        == after.contains_key(name) by {
        if by_name(changed).contains_key(name) {
            let i = place(changed, name);
            assert(is_at(changed, name, i));
            assert(is_at(queues, name, i));
        }
        if by_name(queues).contains_key(name) {
            let i = place(queues, name);
            assert(is_at(queues, name, i));
            assert(is_at(changed, name, i));
        }
        assert(is_at(changed, queues[k].name@, k));
    }
    assert forall|name: Seq<char>| by_name(changed).contains_key(name) implies by_name(
        changed,
    )[name] == after[name] by {
        let i = place(changed, name);
        assert(is_at(changed, name, i));
        lemma_at(changed, i);
        lemma_at(queues, i);
        if i != k {
            assert(changed[i] == queues[i]);
        }
    }
    assert(by_name(changed) =~= after);
}

/// There are as many names as queues.
proof fn lemma_count(queues: Seq<Queue>)
    requires
        distinct(queues),
    ensures
        by_name(queues).dom().finite(),
        by_name(queues).dom().len() == queues.len(),
    decreases queues.len(),
{
    if queues.len() == 0 {
        assert(by_name(queues).dom() =~= Set::<Seq<char>>::empty());
    } else {
        let fewer = queues.drop_last();
        assert(distinct(fewer)) by {
            assert forall|i: int, j: int|
                0 <= i < fewer.len() && 0 <= j < fewer.len() && #[trigger] fewer[i].name@
                    == #[trigger] fewer[j].name@ implies i == j by {
                assert(queues[i].name@ == queues[j].name@);
            }
        }
        lemma_count(fewer);
        let last = queues.last();
        assert(!by_name(fewer).contains_key(last.name@)) by {
            if by_name(fewer).contains_key(last.name@) {
                let i = place(fewer, last.name@);
                assert(is_at(fewer, last.name@, i));
                assert(queues[i].name@ == queues[queues.len() - 1].name@);
            }
        }
        lemma_one_more(fewer, last);
        assert(fewer.push(last) =~= queues);
        assert(by_name(queues).dom() =~= by_name(fewer).dom().insert(last.name@));
    }
}

impl ManagerView {
    /// What `queue` holds: nothing where it is not defined.
    pub open spec fn held(self, queue: Seq<char>) -> Seq<Seq<u8>> {
        if self.queues.contains_key(queue) {
            self.queues[queue]
        } else {
            Seq::empty()
        }
    }
}

impl View for QueueManager {
    type V = ManagerView;

    closed spec fn view(&self) -> ManagerView {
        ManagerView {
            name: self.name@,
            queues: by_name(self.queues@),
            max_message: self.max_message,
        }
    }
}

impl QueueManager {
    /// No two queues share a name.
    pub closed spec fn wf(&self) -> bool {
        distinct(self.queues@)
    }

    /// A queue manager with no queue yet, that carries messages of the
    /// default size.
    pub fn new(name: &str) -> (manager: Self)
        ensures
            manager.wf(),
            manager@ == (ManagerView {
                name: name@,
                queues: Map::empty(),
                max_message: DEFAULT_MAX_MESSAGE,
            }),
    {
        let manager = QueueManager {
            name: name.to_string(),
            queues: Vec::new(),
            max_message: DEFAULT_MAX_MESSAGE,
        };
        assert(by_name(manager.queues@) =~= Map::empty());
        manager
    }

    /// Where `queue` stands, if it is defined.
    fn find(&self, queue: &str) -> (found: Option<usize>)
        requires
            self.wf(),
        ensures
            match found {
                Some(i) => i < self.queues@.len() && self.queues@[i as int].name@ == queue@
                    && self@.queues.contains_key(queue@) && self@.queues[queue@] == contents(
                    self.queues@[i as int].held@,
                ),
                None => !self@.queues.contains_key(queue@),
            },
    {
        let wanted: String = queue.to_string();
        let mut at: usize = 0;
        while at < self.queues.len()
            invariant
                at <= self.queues@.len(),
                wanted@ == queue@,
                self.wf(),
                forall|i: int| 0 <= i < at ==> #[trigger] self.queues@[i].name@ != queue@,
            decreases self.queues@.len() - at,
        {
            if self.queues[at].name == wanted {
                proof {
                    lemma_at(self.queues@, at as int);
                }
                return Some(at);
            }
            at = at + 1;
        }
        proof {
            if self@.queues.contains_key(queue@) {
                let i = place(self.queues@, queue@);
                assert(is_at(self.queues@, queue@, i));
            }
        }
        None
    }

    /// Define `queue`, empty, where it is not defined yet.
    pub fn with_queue(self, queue: &str) -> (manager: Self)
        requires
            self.wf(),
        ensures
            manager.wf(),
            manager@ == (ManagerView {
                queues: self@.queues.insert(queue@, self@.held(queue@)),
                ..self@
            }),
    {
        let mut manager = self;
        match manager.find(queue) {
            Some(_) => {
                assert(manager@.queues =~= self@.queues.insert(queue@, self@.held(queue@)));
            },
            None => {
                let new = Queue { name: queue.to_string(), held: VecDeque::new() };
                proof {
                    lemma_one_more(manager.queues@, new);
                    assert(contents(new.held@) =~= Seq::<Seq<u8>>::empty());
                }
                manager.queues.push(new);
            },
        }
        manager
    }

    /// Append `message` to the queue that stands at `at`.
    fn append(&mut self, at: usize, message: Vec<u8>)
        requires
            old(self).wf(),
            at < old(self).queues@.len(),
        ensures
            final(self).wf(),
            final(self).queues@.len() == old(self).queues@.len(),
            final(self).queues@[at as int].name@ == old(self).queues@[at as int].name@,
            final(self)@ == (ManagerView {
                queues: old(self)@.queues.insert(
                    old(self).queues@[at as int].name@,
                    contents(old(self).queues@[at as int].held@).push(message@),
                ),
                ..old(self)@
            }),
    {
        let ghost before = self.queues@;
        self.queues[at].held.push_back(message);
        proof {
            lemma_changed(before, self.queues@, at as int);
            assert(contents(self.queues@[at as int].held@) =~= contents(
                before[at as int].held@,
            ).push(message@));
        }
    }

    /// Take the oldest message of `queue`, if it holds one.
    fn take_first(&mut self, queue: &str) -> (message: Option<Vec<u8>>)
        requires
            old(self).wf(),
        ensures
            final(self).wf(),
            match message {
                Some(message) => old(self)@.held(queue@).len() > 0 && message@ == old(self)@.held(
                    queue@,
                )[0] && final(self)@ == (ManagerView {
                    queues: old(self)@.queues.insert(queue@, old(self)@.held(queue@).drop_first()),
                    ..old(self)@
                }),
                None => old(self)@.held(queue@).len() == 0 && final(self)@ == old(self)@,
            },
    {
        match self.find(queue) {
            None => None,
            Some(at) => {
                let ghost before = self.queues@;
                let message = self.queues[at].held.pop_front();
                proof {
                    lemma_changed(before, self.queues@, at as int);
                    if message is Some {
                        assert(contents(self.queues@[at as int].held@) =~= contents(
                            before[at as int].held@,
                        ).drop_first());
                    } else {
                        assert(self@.queues =~= old(self)@.queues);
                    }
                }
                message
            },
        }
    }

    /// Define `queue` holding `messages` after what it holds already, oldest
    /// first.
    pub fn holding(self, queue: &str, messages: &[&[u8]]) -> (manager: Self)
        requires
            self.wf(),
        ensures
            manager.wf(),
            manager@ == (ManagerView {
                queues: self@.queues.insert(queue@, self@.held(queue@) + given(messages@)),
                ..self@
            }),
    {
        let mut manager = self.with_queue(queue);
        let mut done: usize = 0;
        assert(manager@.queues =~= self@.queues.insert(
            queue@,
            self@.held(queue@) + given(messages@.take(0)),
        ));
        while done < messages.len()
            invariant
                done <= messages@.len(),
                manager.wf(),
                manager@.queues.contains_key(queue@),
                manager@ == (ManagerView {
                    queues: self@.queues.insert(
                        queue@,
                        self@.held(queue@) + given(messages@.take(done as int)),
                    ),
                    ..self@
                }),
            decreases messages@.len() - done,
        {
            let ghost before = manager@;
            if let Some(at) = manager.find(queue) {
                manager.append(at, slice_to_vec(messages[done]));
            }
            proof {
                let now = messages@.take(done as int);
                let next = messages@.take(done + 1);
                assert(given(next) =~= given(now).push(messages@[done as int]@));
                assert((self@.held(queue@) + given(now)).push(messages@[done as int]@)
                    =~= self@.held(queue@) + given(next));
                assert(manager@.queues =~= self@.queues.insert(
                    queue@,
                    self@.held(queue@) + given(next),
                ));
            }
            done = done + 1;
        }
        assert(messages@.take(done as int) =~= messages@);
        manager
    }

    /// The largest message this queue manager carries.
    pub fn carrying_at_most(self, max_message: u32) -> (manager: Self)
        requires
            self.wf(),
        ensures
            manager.wf(),
            manager@ == (ManagerView { max_message, ..self@ }),
    {
        let mut manager = self;
        manager.max_message = max_message;
        manager
    }

    /// How many queues are defined.
    pub fn queue_count(&self) -> (count: usize)
        requires
            self.wf(),
        ensures
            count == self@.queues.dom().len(),
    {
        proof {
            lemma_count(self.queues@);
        }
        self.queues.len()
    }

    /// The largest message this queue manager carries, as it was told.
    pub fn max_message(&self) -> (max_message: u32)
        ensures
            max_message == self@.max_message,
    {
        self.max_message
    }

    /// What `queue` holds, oldest first.
    pub fn queue(&self, queue: &str) -> (messages: Vec<Vec<u8>>)
        requires
            self.wf(),
        ensures
            contents(messages@) == self@.held(queue@),
    {
        let mut messages: Vec<Vec<u8>> = Vec::new();
        match self.find(queue) {
            None => {
                assert(contents(messages@) =~= Seq::<Seq<u8>>::empty());
            },
            Some(found) => {
                let held = &self.queues[found].held;
                let mut at: usize = 0;
                while at < held.len()
                    invariant
                        at <= held@.len(),
                        messages@.len() == at,
                        forall|i: int| 0 <= i < at ==> #[trigger] messages@[i]@ == held@[i]@,
                    decreases held@.len() - at,
                {
                    let copy = slice_to_vec(held[at].as_slice());
                    messages.push(copy);
                    at = at + 1;
                }
                assert(contents(messages@) =~= contents(held@));
            },
        }
        messages
    }
}

/// One client's conversation with a queue manager.
pub struct Session {
    manager: QueueManager,
    handles: BTreeMap<u32, String>,
    next_handle: u32,
    next_id: u32,
}

/// What a [`Session`] holds: the queue manager, the queue each handle is
/// open on, the next handle and the number of the next message id.
#[verifier::ext_equal]
pub struct SessionView {
    pub manager: ManagerView,
    pub handles: Map<u32, Seq<char>>,
    pub next_handle: u32,
    pub next_id: u32,
}

/// The message id of the queue manager `name` that is numbered `number`:
/// `AMQ `, the name, and the number.
pub open spec fn id_numbered(name: Seq<char>, number: u32) -> Seq<u8> {
    seq![0x41u8, 0x4d, 0x51, 0x20] + field_of(name, 8) + nuls(8) + be32_bytes(number)
}

/// The reply that refuses a call for `reason`.
pub open spec fn refusal(reason: u32, handle: u32) -> (Seq<u8>, EventView) {
    (api_bytes(api_failed(reason, handle)), EventView::Refused(reason))
}

impl SessionView {
    /// Every open handle is on a queue that is defined, and was handed out
    /// before the next one.
    pub open spec fn wf(self) -> bool {
        &&& 2 <= self.next_handle
        &&& forall|handle: u32| #[trigger]
            self.handles.contains_key(handle) ==> self.manager.queues.contains_key(
                self.handles[handle],
            ) && 2 <= handle < self.next_handle
    }

    /// A conversation that `manager` has just accepted.
    pub open spec fn fresh(manager: ManagerView) -> Self {
        SessionView { manager, handles: Map::empty(), next_handle: 2, next_id: 1 }
    }

    /// The next message id.
    pub open spec fn message_id(self) -> Seq<u8> {
        id_numbered(self.manager.name, self.next_id)
    }

    /// The queue manager that an `MQCONN` asks for; no name asks for any.
    pub open spec fn asked(body: Seq<u8>) -> Seq<char> {
        if body.len() < 48 {
            Seq::empty()
        } else {
            field_text(body.take(48))
        }
    }

    /// The reply to an `MQCONN`, and what it is an event of.
    pub open spec fn connect(self, body: Seq<u8>) -> (Seq<u8>, EventView) {
        let asked = Self::asked(body);
        if asked.len() > 0 && asked != self.manager.name {
            refusal(QUEUE_MANAGER_NAME_ERROR, 0)
        } else {
            (
                api_bytes(api_call(0)) + field_of(self.manager.name, 48) + (if body.len() < 48 {
                    Seq::empty()
                } else {
                    body.skip(48)
                }),
                EventView::Connected,
            )
        }
    }

    /// The queue that an `MQOPEN` opens, if it opens one.
    pub open spec fn opens(self, body: Seq<u8>) -> Option<Seq<char>> {
        match object_decoded(body) {
            Ok((queue, _)) => if self.manager.queues.contains_key(queue) {
                Some(queue)
            } else {
                None
            },
            Err(_) => None,
        }
    }

    /// What an `MQOPEN` leaves, its reply, and what it is an event of.
    pub open spec fn open(self, body: Seq<u8>) -> (Self, Seq<u8>, EventView) {
        match self.opens(body) {
            None => {
                let (reply, event) = refusal(UNKNOWN_OBJECT, 0);
                (self, reply, event)
            },
            Some(queue) => (
                SessionView {
                    handles: self.handles.insert(self.next_handle, queue),
                    next_handle: (self.next_handle + 1) as u32,
                    ..self
                },
                api_bytes(api_call(self.next_handle)) + body,
                EventView::Opened(queue),
            ),
        }
    }

    /// The queue, the descriptor and the bytes of the message that an
    /// `MQPUT` puts, or the reason it is refused for.
    pub open spec fn puts(self, handle: u32, body: Seq<u8>) -> Result<
        (Seq<char>, MessageDescriptorView, Seq<u8>),
        u32,
    > {
        if !self.handles.contains_key(handle) {
            Err(HANDLE_ERROR)
        } else {
            match md_decoded(body) {
                Err(_) => Err(HANDLE_ERROR),
                Ok((descriptor, rest)) => match options_decoded(
                    rest,
                    MQPMO_CATCHER@,
                    MQPMO_LENGTH as nat,
                ) {
                    Err(_) => Err(HANDLE_ERROR),
                    Ok((length, data)) => if length > self.manager.max_message || data.len()
                        < length {
                        Err(TOO_BIG)
                    } else {
                        Ok((self.handles[handle], descriptor, data.take(length as int)))
                    },
                },
            }
        }
    }

    /// Where the next message put on `queue` comes from.
    pub open spec fn origin(self, queue: Seq<char>) -> Seq<char> {
        "ibm-mq://"@ + self.manager.name + "/"@ + queue + "?msgid="@ + hex_of(self.message_id())
    }

    /// What an `MQPUT` leaves, its reply, and what it is an event of.
    pub open spec fn put(self, handle: u32, body: Seq<u8>) -> (Self, Seq<u8>, EventView) {
        match self.puts(handle, body) {
            Err(reason) => {
                let (reply, event) = refusal(reason, handle);
                (self, reply, event)
            },
            Ok((queue, descriptor, bytes)) => (
                SessionView {
                    manager: ManagerView {
                        queues: self.manager.queues.insert(
                            queue,
                            self.manager.held(queue).push(bytes),
                        ),
                        ..self.manager
                    },
                    next_id: (self.next_id + 1) as u32,
                    ..self
                },
                api_bytes(api_call(handle)) + (MessageDescriptorView {
                    message_id: self.message_id(),
                    ..descriptor
                }).bytes(),
                EventView::Put(ArrivedView { origin_uri: self.origin(queue), bytes }),
            ),
        }
    }

    /// Whether an `MQGET` on `handle` takes a message.
    pub open spec fn gets(self, handle: u32) -> bool {
        self.handles.contains_key(handle) && self.manager.held(self.handles[handle]).len() > 0
    }

    /// What an `MQGET` leaves, its reply, and what it is an event of.
    pub open spec fn get(self, handle: u32) -> (Self, Seq<u8>, EventView) {
        if !self.handles.contains_key(handle) {
            let (reply, event) = refusal(HANDLE_ERROR, handle);
            (self, reply, event)
        } else {
            let queue = self.handles[handle];
            let held = self.manager.held(queue);
            if held.len() == 0 {
                (self, api_bytes(api_failed(NO_MESSAGE, handle)), EventView::Got(queue))
            } else {
                (
                    SessionView {
                        manager: ManagerView {
                            queues: self.manager.queues.insert(queue, held.drop_first()),
                            ..self.manager
                        },
                        next_id: (self.next_id + 1) as u32,
                        ..self
                    },
                    api_bytes(api_call(handle)) + (MessageDescriptorView {
                        message_id: self.message_id(),
                        ..MessageDescriptorView::datagram("xmip"@)
                    }).bytes() + get_options_bytes(queue, held[0].len()) + held[0],
                    EventView::Got(queue),
                )
            }
        }
    }

    /// What the call `segment` leaves, its reply, and what it is an event
    /// of; or the refusal of what a queue manager does not take.
    pub open spec fn answer(self, segment: SegmentView) -> Result<
        (Self, SegmentView, EventView),
        Fault,
    > {
        match api_decoded(segment.body) {
            Err(fault) => Err(fault),
            Ok((header, rest)) => {
                let handle = header.handle;
                if segment.kind == MQCONN {
                    let (reply, event) = self.connect(rest);
                    Ok((self, segment.reply(reply), event))
                } else if segment.kind == MQOPEN {
                    let (next, reply, event) = self.open(rest);
                    Ok((next, segment.reply(reply), event))
                } else if segment.kind == MQPUT {
                    let (next, reply, event) = self.put(handle, rest);
                    Ok((next, segment.reply(reply), event))
                } else if segment.kind == MQGET {
                    let (next, reply, event) = self.get(handle);
                    Ok((next, segment.reply(reply), event))
                } else if segment.kind == MQCLOSE {
                    Ok(
                        (
                            SessionView { handles: self.handles.remove(handle), ..self },
                            segment.reply(api_bytes(api_call(handle))),
                            EventView::Closed,
                        ),
                    )
                } else if segment.kind == MQDISC {
                    Ok(
                        (
                            self,
                            segment.reply(api_bytes(api_call(0))),
                            EventView::Disconnected,
                        ),
                    )
                } else {
                    Err(permanent("a 0x"@ + hex_byte(segment.kind) + " segment"@))
                }
            },
        }
    }

    /// Whether the counters reach past the call `segment`: a handle is left
    /// for it to open, and a number for its message id.
    pub open spec fn reaches(self, segment: SegmentView) -> bool {
        match api_decoded(segment.body) {
            Err(_) => true,
            Ok((header, rest)) => {
                &&& (segment.kind == MQOPEN && self.opens(rest) is Some) ==> self.next_handle
                    < u32::MAX
                &&& (segment.kind == MQPUT && self.puts(header.handle, rest) is Ok) ==> self.next_id
                    < u32::MAX
                &&& (segment.kind == MQGET && self.gets(header.handle)) ==> self.next_id < u32::MAX
            },
        }
    }
}

impl View for Session {
    type V = SessionView;

    closed spec fn view(&self) -> SessionView {
        SessionView {
            manager: self.manager@,
            handles: self.handles@.map_values(|queue: String| queue@),
            next_handle: self.next_handle,
            next_id: self.next_id,
        }
    }
}

fn refused(reason: u32, handle: u32) -> (answer: (Vec<u8>, Event))
    ensures
        (answer.0@, answer.1@) == refusal(reason, handle),
{
    (slice_to_vec(&ApiHeader::failed(reason, handle).encode()), Event::Refused(reason))
}

impl Session {
    /// The queue manager is as it should be.
    pub closed spec fn sound(&self) -> bool {
        self.manager.wf()
    }

    /// The queue manager and the handles are as they should be.
    pub open spec fn wf(&self) -> bool {
        self.sound() && self@.wf()
    }

    /// What `queue` holds now, oldest first.
    pub fn queue(&self, queue: &str) -> (messages: Vec<Vec<u8>>)
        requires
            self.wf(),
        ensures
            contents(messages@) == self@.manager.held(queue@),
    {
        self.manager.queue(queue)
    }

    /// `AMQ `, the queue manager's name, and a number no message here
    /// shares.
    fn message_id(&mut self) -> (id: [u8; 24])
        requires
            old(self).wf(),
            old(self).next_id < u32::MAX,
        ensures
            final(self).wf(),
            final(self)@ == (SessionView { next_id: (old(self).next_id + 1) as u32, ..old(self)@ }),
            id@ == old(self)@.message_id(),
    {
        let mut bytes: Vec<u8> = Vec::new();
        put_bytes(&mut bytes, &[0x41, 0x4d, 0x51, 0x20]);
        put_bytes(&mut bytes, fixed(self.manager.name.as_str(), 8).as_slice());
        put_nuls(&mut bytes, 8);
        put32(&mut bytes, self.next_id);
        assert(bytes@ =~= self@.message_id());
        self.next_id = self.next_id + 1;
        crate::descriptor::id_of(bytes.as_slice())
    }

    fn connect(&self, body: &[u8]) -> (answer: (Vec<u8>, Event))
        ensures
            (answer.0@, answer.1@) == self@.connect(body@),
    {
        let asked: String = if body.len() < 48 {
            String::new()
        } else {
            text_of(slice_subrange(body, 0, 48))
        };
        assert(asked@ == SessionView::asked(body@));
        if !asked.as_str().is_empty() && !(asked == self.manager.name) {
            return refused(QUEUE_MANAGER_NAME_ERROR, 0);
        }
        let mut reply = slice_to_vec(&ApiHeader::call(0).encode());
        put_bytes(&mut reply, fixed(self.manager.name.as_str(), 48).as_slice());
        if body.len() >= 48 {
            put_bytes(&mut reply, slice_subrange(body, 48, body.len()));
        }
        assert(reply@ =~= self@.connect(body@).0);
        (reply, Event::Connected)
    }

    /// The queue that `handle` is open on, if it is open.
    fn opened(&self, handle: u32) -> (queue: Option<String>)
        ensures
            match queue {
                Some(queue) => self@.handles.contains_key(handle) && self@.handles[handle]
                    == queue@,
                None => !self@.handles.contains_key(handle),
            },
    {
        match self.handles.get(&handle) {
            Some(queue) => Some(queue.clone()),
            None => None,
        }
    }

    /// The queue that an `MQOPEN` opens, if it opens one.
    fn opens(&self, body: &[u8]) -> (queue: Option<String>)
        requires
            self.wf(),
        ensures
            match queue {
                Some(queue) => self@.opens(body@) == Some(queue@),
                None => self@.opens(body@) is None,
            },
    {
        match decode_object(body) {
            Ok((queue, _)) => match self.manager.find(queue.as_str()) {
                Some(_) => Some(queue),
                None => None,
            },
            Err(_) => None,
        }
    }

    fn open(&mut self, body: &[u8]) -> (answer: (Vec<u8>, Event))
        requires
            old(self).wf(),
            old(self)@.opens(body@) is Some ==> old(self)@.next_handle < u32::MAX,
        ensures
            final(self).wf(),
            (final(self)@, answer.0@, answer.1@) == old(self)@.open(body@),
    {
        match self.opens(body) {
            None => refused(UNKNOWN_OBJECT, 0),
            Some(queue) => {
                let handle: u32 = self.next_handle;
                self.next_handle = self.next_handle + 1;
                self.handles.insert(handle, queue.clone());
                assert(self@.handles =~= old(self)@.handles.insert(handle, queue@));
                let mut reply = slice_to_vec(&ApiHeader::call(handle).encode());
                put_bytes(&mut reply, body);
                (reply, Event::Opened(queue))
            },
        }
    }

    /// The message that an `MQPUT` puts, or the reason it is refused for.
    fn puts(&self, handle: u32, body: &[u8]) -> (result: Result<
        (String, MessageDescriptor, Vec<u8>),
        u32,
    >)
        ensures
            match result {
                Ok((queue, descriptor, bytes)) => self@.puts(handle, body@) == Ok::<
                    (Seq<char>, MessageDescriptorView, Seq<u8>),
                    u32,
                >((queue@, descriptor@, bytes@)),
                Err(reason) => self@.puts(handle, body@) == Err::<
                    (Seq<char>, MessageDescriptorView, Seq<u8>),
                    u32,
                >(reason),
            },
    {
        let queue: String = match self.opened(handle) {
            Some(queue) => queue,
            None => {
                return Err(HANDLE_ERROR);
            },
        };
        match MessageDescriptor::decode(body) {
            Err(_) => Err(HANDLE_ERROR),
            Ok((descriptor, rest)) => match decode_options(rest, &MQPMO_CATCHER, MQPMO_LENGTH) {
                Err(_) => Err(HANDLE_ERROR),
                Ok((length, data)) => if length > self.manager.max_message as usize || data.len()
                    < length {
                    Err(TOO_BIG)
                } else {
                    let bytes = slice_to_vec(slice_subrange(data, 0, length));
                    assert(bytes@ =~= data@.take(length as int));
                    Ok((queue, descriptor, bytes))
                },
            },
        }
    }

    fn put(&mut self, handle: u32, body: &[u8]) -> (answer: (Vec<u8>, Event))
        requires
            old(self).wf(),
            old(self)@.puts(handle, body@) is Ok ==> old(self)@.next_id < u32::MAX,
        ensures
            final(self).wf(),
            (final(self)@, answer.0@, answer.1@) == old(self)@.put(handle, body@),
    {
        match self.puts(handle, body) {
            Err(reason) => refused(reason, handle),
            Ok((queue, descriptor, bytes)) => {
                let ghost before = self@;
                let id: [u8; 24] = self.message_id();
                let mut descriptor = descriptor;
                let ghost sent = descriptor@;
                descriptor.message_id = id;
                assert(descriptor@ =~= (MessageDescriptorView {
                    message_id: before.message_id(),
                    ..sent
                }));
                if let Some(at) = self.manager.find(queue.as_str()) {
                    self.manager.append(at, slice_to_vec(bytes.as_slice()));
                }
                let mut origin = "ibm-mq://".to_string();
                origin.append(self.manager.name.as_str());
                origin.append("/");
                origin.append(queue.as_str());
                origin.append("?msgid=");
                origin.append(hex(&id).as_str());
                let mut reply = slice_to_vec(&ApiHeader::call(handle).encode());
                put_bytes(&mut reply, descriptor.encode().as_slice());
                assert(self@ =~= before.put(handle, body@).0);
                (reply, Event::Put(Arrived::new(origin, bytes)))
            },
        }
    }

    /// Whether an `MQGET` on `handle` takes a message.
    fn gets(&self, handle: u32) -> (takes: bool)
        requires
            self.wf(),
        ensures
            takes == self@.gets(handle),
    {
        match self.opened(handle) {
            None => false,
            Some(queue) => match self.manager.find(queue.as_str()) {
                None => false,
                Some(at) => self.manager.queues[at].held.len() > 0,
            },
        }
    }

    fn get(&mut self, handle: u32) -> (answer: (Vec<u8>, Event))
        requires
            old(self).wf(),
            old(self)@.gets(handle) ==> old(self)@.next_id < u32::MAX,
        ensures
            final(self).wf(),
            (final(self)@, answer.0@, answer.1@) == old(self)@.get(handle),
    {
        let queue: String = match self.opened(handle) {
            Some(queue) => queue,
            None => {
                return refused(HANDLE_ERROR, handle);
            },
        };
        match self.manager.take_first(queue.as_str()) {
            None => (
                slice_to_vec(&ApiHeader::failed(NO_MESSAGE, handle).encode()),
                Event::Got(queue),
            ),
            Some(bytes) => {
                let mut descriptor = MessageDescriptor::datagram("xmip");
                let ghost before = old(self)@;
                descriptor.message_id = self.message_id();
                assert(descriptor@ =~= (MessageDescriptorView {
                    message_id: before.message_id(),
                    ..MessageDescriptorView::datagram("xmip"@)
                }));
                let mut reply = slice_to_vec(&ApiHeader::call(handle).encode());
                put_bytes(&mut reply, descriptor.encode().as_slice());
                put_bytes(
                    &mut reply,
                    encode_get_options(queue.as_str(), bytes.len()).as_slice(),
                );
                put_bytes(&mut reply, bytes.as_slice());
                assert(self@ =~= before.get(handle).0);
                (reply, Event::Got(queue))
            },
        }
    }

    /// Whether the counters reach past the call `segment`: a handle is left
    /// for it to open, and a number for its message id.
    pub fn reaches(&self, segment: &Segment) -> (enough: bool)
        requires
            self.wf(),
        ensures
            enough == self@.reaches(segment@),
    {
        match ApiHeader::decode(segment.body.as_slice()) {
            Err(_) => true,
            Ok((header, rest)) => if segment.kind == MQOPEN {
                self.next_handle < u32::MAX || self.opens(rest).is_none()
            } else if segment.kind == MQPUT {
                self.next_id < u32::MAX || self.puts(header.handle, rest).is_err()
            } else if segment.kind == MQGET {
                self.next_id < u32::MAX || !self.gets(header.handle)
            } else {
                true
            },
        }
    }

    /// The next call the client made, answered: the reply to send it, and
    /// what it did; or `None` when it closed.
    pub fn next_event(&mut self, incoming: Option<&Segment>) -> (result: Result<
        Option<(Segment, Event)>,
        TransportError,
    >)
        requires
            old(self).wf(),
            incoming matches Some(segment) ==> old(self)@.reaches(segment@),
        ensures
            final(self).wf(),
            match incoming {
                None => result matches Ok(None) && final(self)@ == old(self)@,
                Some(segment) => match old(self)@.answer(segment@) {
                    Ok((next, reply, event)) => {
                        &&& final(self)@ == next
                        &&& result matches Ok(Some(answer))
                        &&& answer.0@ == reply
                        &&& answer.1@ == event
                    },
                    Err(fault) => {
                        &&& final(self)@ == old(self)@
                        &&& result matches Err(error)
                        &&& error@ == fault
                    },
                },
            },
    {
        let segment: &Segment = match incoming {
            Some(segment) => segment,
            None => {
                return Ok(None);
            },
        };
        let (header, rest) = match ApiHeader::decode(segment.body.as_slice()) {
            Ok(decoded) => decoded,
            Err(error) => {
                return Err(error);
            },
        };
        let kind: u8 = segment.kind;
        let (reply, event) = if kind == MQCONN {
            self.connect(rest)
        } else if kind == MQOPEN {
            self.open(rest)
        } else if kind == MQPUT {
            self.put(header.handle, rest)
        } else if kind == MQGET {
            self.get(header.handle)
        } else if kind == MQCLOSE {
            self.handles.remove(&header.handle);
            assert(self@.handles =~= old(self)@.handles.remove(header.handle));
            (slice_to_vec(&ApiHeader::call(header.handle).encode()), Event::Closed)
        } else if kind == MQDISC {
            (slice_to_vec(&ApiHeader::call(0).encode()), Event::Disconnected)
        } else {
            return Err(
                TransportError::permanent(
                    joined("a 0x", hex_byte_text(kind).as_str(), " segment"),
                ),
            );
        };
        Ok(Some((segment.reply(reply), event)))
    }

    /// The next call the client made, answered, while waiting for a message:
    /// the reply to send it, and how far the wait has come.
    pub fn next_put(&mut self, incoming: Option<&Segment>) -> (result: Result<
        (Option<Segment>, PutWait),
        TransportError,
    >)
        requires
            old(self).wf(),
            incoming matches Some(segment) ==> old(self)@.reaches(segment@),
        ensures
            final(self).wf(),
            match incoming {
                None => result matches Ok((None, wait)) && wait@ == put_wait(None)
                    && final(self)@ == old(self)@,
                Some(segment) => match old(self)@.answer(segment@) {
                    Ok((next, reply, event)) => {
                        &&& final(self)@ == next
                        &&& result matches Ok((Some(answer), wait))
                        &&& answer@ == reply
                        &&& wait@ == put_wait(Some(event))
                    },
                    Err(fault) => {
                        &&& final(self)@ == old(self)@
                        &&& result matches Err(error)
                        &&& error@ == fault
                    },
                },
            },
    {
        match self.next_event(incoming) {
            Err(error) => Err(error),
            Ok(None) => Ok((None, PutWait::Over)),
            Ok(Some((reply, event))) => {
                let wait = match event {
                    Event::Put(arrived) => PutWait::Arrived(arrived),
                    Event::Disconnected => PutWait::Over,
                    _ => PutWait::Waiting,
                };
                Ok((Some(reply), wait))
            },
        }
    }
}

/// How far a wait for the client's next message has come.
#[derive(Clone, Debug, PartialEq, Eq)]
pub enum PutWait {
    /// The client put this message.
    Arrived(Arrived),
    /// The client disconnected or closed.
    Over,
    /// The client did something else.
    Waiting,
}

/// What a [`PutWait`] holds.
pub enum PutWaitView {
    Arrived(ArrivedView),
    Over,
    Waiting,
}

impl View for PutWait {
    type V = PutWaitView;

    open spec fn view(&self) -> PutWaitView {
        match self {
            PutWait::Arrived(arrived) => PutWaitView::Arrived(arrived@),
            PutWait::Over => PutWaitView::Over,
            PutWait::Waiting => PutWaitView::Waiting,
        }
    }
}

/// What a wait for the client's next message makes of an event.
pub open spec fn put_wait(event: Option<EventView>) -> PutWaitView {
    match event {
        Some(EventView::Put(arrived)) => PutWaitView::Arrived(arrived),
        Some(EventView::Disconnected) => PutWaitView::Over,
        None => PutWaitView::Over,
        Some(_) => PutWaitView::Waiting,
    }
}

/// The session that accepting a client which opened with `opening` starts,
/// and the initial data to answer it with; or the refusal of a client that
/// sent nothing or something else.
pub open spec fn accepted(manager: ManagerView, opening: Option<SegmentView>) -> Result<
    (SessionView, SegmentView),
    Fault,
> {
    match opening {
        None => Err(permanent("a client that sent nothing"@)),
        Some(segment) => if segment.kind != INITIAL_DATA {
            Err(permanent("a client that did not open with initial data"@))
        } else {
            match initial_decoded(segment.body) {
                Err(fault) => Err(fault),
                Ok(theirs) => Ok(
                    (
                        SessionView::fresh(manager),
                        SegmentView {
                            kind: INITIAL_DATA,
                            body: (InitialDataView {
                                max_message: manager.max_message,
                                channel: theirs.channel,
                                queue_manager: manager.name,
                            }).bytes(),
                            ..segment
                        },
                    ),
                ),
            }
        },
    }
}

impl QueueManager {
    /// Accept the client that opened with `opening`: the session, and the
    /// initial data to answer with.
    pub fn accept(self, opening: Option<Segment>) -> (result: Result<
        (Session, Segment),
        TransportError,
    >)
        requires
            self.wf(),
        ensures
            outcome(result) == accepted(
                self@,
                match opening {
                    Some(segment) => Some(segment@),
                    None => None,
                },
            ),
            result matches Ok((session, _)) ==> session.wf(),
    {
        let opening: Segment = match opening {
            Some(segment) => segment,
            None => {
                return Err(protocol_error("a client that sent nothing"));
            },
        };
        if opening.kind != INITIAL_DATA {
            return Err(protocol_error("a client that did not open with initial data"));
        }
        let theirs = match InitialData::decode(opening.body.as_slice()) {
            Ok(theirs) => theirs,
            Err(error) => {
                return Err(error);
            },
        };
        let mine = InitialData {
            max_message: self.max_message,
            channel: theirs.channel,
            queue_manager: self.name.clone(),
        };
        let answer = Segment::new(
            INITIAL_DATA,
            opening.conversation,
            opening.request,
            mine.encode(),
        );
        let session = Session {
            manager: self,
            handles: BTreeMap::new(),
            next_handle: 2,
            next_id: 1,
        };
        assert(session@ =~= SessionView::fresh(self@));
        Ok((session, answer))
    }
}

} // verus!
