//! A Receive or Send Location on a queue.
//!
//! A Receive Location connects, opens its queue for input and gets until
//! the queue manager says `2033`, no message available, each message a
//! Stream with the id MQ gave it; a Send Location connects, opens for
//! output and puts the Stream as one datagram. Each is a conversation that
//! takes one reply at a time and says what to send next.

use std::time::Duration;

use vstd::prelude::*;
use vstd::slice::slice_to_vec;

use crate::arrived::{Arrived, ArrivedView};
use crate::client::{
    assigned_id, close_body, done, get_body, got_message, granted, open_body, received, Client,
    ClientView, DEFAULT_CHANNEL,
};
use crate::descriptor::{OPEN_FAIL_IF_QUIESCING, OPEN_INPUT, OPEN_OUTPUT};
use crate::error::{outcome, Fault, TransportError};
use crate::manager::{accepted, given, ManagerView, QueueManager, Session};
use crate::segment::{
    api_bytes, api_call, Segment, SegmentView, MQCLOSE, MQCONN, MQDISC, MQGET, MQOPEN,
};
use crate::target::{resolved, Named};
use crate::text::{hex, hex_of};

verus! {

/// A location: a queue of a queue manager at a server, the channel to
/// connect on, and how long to wait for a reply.
pub struct IbmMqTransport {
    server: String,
    queue_manager: String,
    queue: String,
    channel: String,
    timeout: Option<Duration>,
}

/// What an [`IbmMqTransport`] holds.
#[verifier::ext_equal]
pub struct TransportView {
    pub server: Seq<char>,
    pub queue_manager: Seq<char>,
    pub queue: Seq<char>,
    pub channel: Seq<char>,
    pub timeout: Option<Duration>,
}

impl View for IbmMqTransport {
    type V = TransportView;

    closed spec fn view(&self) -> TransportView {
        TransportView {
            server: self.server@,
            queue_manager: self.queue_manager@,
            queue: self.queue@,
            channel: self.channel@,
            timeout: self.timeout,
        }
    }
}

/// The origin every message of `queue` on `server` shares, up to the
/// message id.
pub open spec fn origin_of(server: Seq<char>, queue_manager: Seq<char>, queue: Seq<char>) -> Seq<
    char,
> {
    "ibm-mq://"@ + server + "/"@ + queue_manager + "/"@ + queue + "?msgid="@
}

/// How far a conversation has come: what it waits for the reply to.
enum Stage {
    /// The initial data.
    Agreeing(Client),
    /// `MQCONN`.
    Connecting(Client),
    /// `MQOPEN`.
    Opening(Client),
    /// `MQGET` or `MQPUT` on this handle.
    Working(Client, u32),
    /// `MQCLOSE`.
    Closing(Client),
    /// `MQDISC`.
    Leaving,
}

/// What a [`Stage`] holds.
pub enum StageView {
    Agreeing(ClientView),
    Connecting(ClientView),
    Opening(ClientView),
    Working(ClientView, u32),
    Closing(ClientView),
    Leaving,
}

impl StageView {
    /// Whether the next call still has a request id.
    pub open spec fn reaches(self) -> bool {
        match self {
            StageView::Agreeing(client) => client.request < u32::MAX,
            StageView::Connecting(client) => client.request < u32::MAX,
            StageView::Opening(client) => client.request < u32::MAX,
            StageView::Working(client, _) => client.request < u32::MAX,
            StageView::Closing(client) => client.request < u32::MAX,
            StageView::Leaving => true,
        }
    }

    /// The largest message agreed so far.
    pub open spec fn max_message(self) -> Option<u32> {
        match self {
            StageView::Agreeing(client) => Some(client.max_message),
            StageView::Connecting(client) => Some(client.max_message),
            StageView::Opening(client) => Some(client.max_message),
            StageView::Working(client, _) => Some(client.max_message),
            StageView::Closing(client) => Some(client.max_message),
            StageView::Leaving => None,
        }
    }
}

impl View for Stage {
    type V = StageView;

    closed spec fn view(&self) -> StageView {
        match self {
            Stage::Agreeing(client) => StageView::Agreeing(client@),
            Stage::Connecting(client) => StageView::Connecting(client@),
            Stage::Opening(client) => StageView::Opening(client@),
            Stage::Working(client, handle) => StageView::Working(client@, *handle),
            Stage::Closing(client) => StageView::Closing(client@),
            Stage::Leaving => StageView::Leaving,
        }
    }
}

impl Stage {
    fn reaches(&self) -> (enough: bool)
        ensures
            enough == self@.reaches(),
    {
        match self {
            Stage::Agreeing(client) => client.request() < u32::MAX,
            Stage::Connecting(client) => client.request() < u32::MAX,
            Stage::Opening(client) => client.request() < u32::MAX,
            Stage::Working(client, _) => client.request() < u32::MAX,
            Stage::Closing(client) => client.request() < u32::MAX,
            Stage::Leaving => true,
        }
    }

    fn max_message(&self) -> (max_message: Option<u32>)
        ensures
            max_message == self@.max_message(),
    {
        match self {
            Stage::Agreeing(client) => Some(client.max_message()),
            Stage::Connecting(client) => Some(client.max_message()),
            Stage::Opening(client) => Some(client.max_message()),
            Stage::Working(client, _) => Some(client.max_message()),
            Stage::Closing(client) => Some(client.max_message()),
            Stage::Leaving => None,
        }
    }
}

/// Getting every message that waits on a queue, oldest first.
pub struct Receiving {
    stage: Stage,
    queue: String,
    origin: String,
    application_type: u32,
    arrived: Vec<Arrived>,
}

/// What a [`Receiving`] holds.
#[verifier::ext_equal]
pub struct ReceivingView {
    pub stage: StageView,
    pub queue: Seq<char>,
    pub origin: Seq<char>,
    pub application_type: u32,
    pub arrived: Seq<ArrivedView>,
}

/// The Streams of a list.
pub open spec fn streams(arrived: Seq<Arrived>) -> Seq<ArrivedView> {
    Seq::new(arrived.len(), |i: int| arrived[i]@)
}

impl View for Receiving {
    type V = ReceivingView;

    closed spec fn view(&self) -> ReceivingView {
        ReceivingView {
            stage: self.stage@,
            queue: self.queue@,
            origin: self.origin@,
            application_type: self.application_type,
            arrived: streams(self.arrived@),
        }
    }
}

/// What a reply made of a [`Receiving`].
pub enum ReceiveStep {
    /// Send this call, and take its reply.
    Call(Receiving, Segment),
    /// Every message was got: here are the Streams.
    Done(Vec<Arrived>),
}

/// What a [`ReceiveStep`] holds.
pub enum ReceiveStepView {
    Call(ReceivingView, SegmentView),
    Done(Seq<ArrivedView>),
}

impl View for ReceiveStep {
    type V = ReceiveStepView;

    open spec fn view(&self) -> ReceiveStepView {
        match self {
            ReceiveStep::Call(receiving, segment) => ReceiveStepView::Call(receiving@, segment@),
            ReceiveStep::Done(arrived) => ReceiveStepView::Done(streams(arrived@)),
        }
    }
}

impl ReceivingView {
    /// What `reply` makes of it.
    pub open spec fn step(self, reply: Option<SegmentView>) -> Result<ReceiveStepView, Fault> {
        match self.stage {
            StageView::Agreeing(client) => match client.agree(
                reply,
                "xmip"@,
                self.application_type,
            ) {
                Err(fault) => Err(fault),
                Ok((client, call)) => Ok(
                    ReceiveStepView::Call(
                        ReceivingView { stage: StageView::Connecting(client), ..self },
                        call,
                    ),
                ),
            },
            StageView::Connecting(client) => match done(MQCONN, reply) {
                Err(fault) => Err(fault),
                Ok(_) => {
                    let (client, call) = client.call(
                        MQOPEN,
                        open_body(self.queue, OPEN_INPUT | OPEN_FAIL_IF_QUIESCING),
                    );
                    Ok(
                        ReceiveStepView::Call(
                            ReceivingView { stage: StageView::Opening(client), ..self },
                            call,
                        ),
                    )
                },
            },
            StageView::Opening(client) => match granted(MQOPEN, reply) {
                Err(fault) => Err(fault),
                Ok((header, _)) => {
                    let (client, call) = client.call(
                        MQGET,
                        get_body(header.handle, client.max_message),
                    );
                    Ok(
                        ReceiveStepView::Call(
                            ReceivingView {
                                stage: StageView::Working(client, header.handle),
                                ..self
                            },
                            call,
                        ),
                    )
                },
            },
            StageView::Working(client, handle) => match got_message(reply) {
                Err(fault) => Err(fault),
                Ok(None) => {
                    let (client, call) = client.call(MQCLOSE, close_body(handle));
                    Ok(
                        ReceiveStepView::Call(
                            ReceivingView { stage: StageView::Closing(client), ..self },
                            call,
                        ),
                    )
                },
                Ok(Some((id, bytes))) => {
                    let (client, call) = client.call(MQGET, get_body(handle, client.max_message));
                    Ok(
                        ReceiveStepView::Call(
                            ReceivingView {
                                stage: StageView::Working(client, handle),
                                arrived: self.arrived.push(
                                    ArrivedView { origin_uri: self.origin + hex_of(id), bytes },
                                ),
                                ..self
                            },
                            call,
                        ),
                    )
                },
            },
            StageView::Closing(client) => match done(MQCLOSE, reply) {
                Err(fault) => Err(fault),
                Ok(_) => Ok(
                    ReceiveStepView::Call(
                        ReceivingView { stage: StageView::Leaving, ..self },
                        client.call(MQDISC, api_bytes(api_call(0))).1,
                    ),
                ),
            },
            StageView::Leaving => match done(MQDISC, reply) {
                Err(fault) => Err(fault),
                Ok(_) => Ok(ReceiveStepView::Done(self.arrived)),
            },
        }
    }
}

impl Receiving {
    /// Whether the next call still has a request id.
    pub fn reaches(&self) -> (enough: bool)
        ensures
            enough == self@.stage.reaches(),
    {
        self.stage.reaches()
    }

    /// Take the reply to the last call — `None` where the queue manager
    /// closed — and say what comes next.
    pub fn step(self, reply: Option<Segment>) -> (result: Result<ReceiveStep, TransportError>)
        requires
            self@.step(received(reply)) is Ok ==> self@.stage.reaches(),
        ensures
            outcome(result) == self@.step(received(reply)),
    {
        let Receiving { stage, queue, origin, application_type, arrived } = self;
        let mut arrived = arrived;
        let (stage, call) = match stage {
            Stage::Agreeing(client) => match client.agree(reply, "xmip", application_type) {
                Err(error) => {
                    return Err(error);
                },
                Ok((client, call)) => (Stage::Connecting(client), call),
            },
            Stage::Connecting(client) => match Client::connected(reply) {
                Err(error) => {
                    return Err(error);
                },
                Ok(()) => {
                    let mut client = client;
                    let call = client.open(queue.as_str(), OPEN_INPUT | OPEN_FAIL_IF_QUIESCING);
                    (Stage::Opening(client), call)
                },
            },
            Stage::Opening(client) => match Client::opened(reply) {
                Err(error) => {
                    return Err(error);
                },
                Ok(handle) => {
                    let mut client = client;
                    let call = client.get(handle);
                    (Stage::Working(client, handle), call)
                },
            },
            Stage::Working(client, handle) => match Client::got(reply) {
                Err(error) => {
                    return Err(error);
                },
                Ok(None) => {
                    let mut client = client;
                    let call = client.close(handle);
                    (Stage::Closing(client), call)
                },
                Ok(Some((id, bytes))) => {
                    let mut client = client;
                    let ghost before = streams(arrived@);
                    let mut uri = origin.clone();
                    uri.append(hex(&id).as_str());
                    let stream = Arrived::new(uri, bytes);
                    arrived.push(stream);
                    assert(streams(arrived@) =~= before.push(stream@));
                    let call = client.get(handle);
                    (Stage::Working(client, handle), call)
                },
            },
            Stage::Closing(client) => match Client::closed(reply) {
                Err(error) => {
                    return Err(error);
                },
                Ok(()) => (Stage::Leaving, client.disconnect()),
            },
            Stage::Leaving => match Client::disconnected(reply) {
                Err(error) => {
                    return Err(error);
                },
                Ok(()) => {
                    return Ok(ReceiveStep::Done(arrived));
                },
            },
        };
        Ok(ReceiveStep::Call(Receiving { stage, queue, origin, application_type, arrived }, call))
    }

    /// As [`Receiving::step`], whatever request ids are left: `None` where the
    /// reply is followed by a call that no request id is left for.
    pub fn take(self, reply: Option<Segment>) -> (result: Option<
        Result<ReceiveStep, TransportError>,
    >)
        ensures
            match result {
                Some(step) => outcome(step) == self@.step(received(reply)),
                None => self@.step(received(reply)) is Ok && !self@.stage.reaches(),
            },
            self@.stage.reaches() ==> result is Some,
            self@.step(received(reply)) is Ok && !self@.stage.reaches() ==> result is None,
    {
        if self.reaches() {
            return Some(self.step(reply));
        }
        let failed: Option<TransportError> = match self.stage {
            Stage::Agreeing(_) => Client::heard(reply).err(),
            Stage::Connecting(_) => Client::connected(reply).err(),
            Stage::Opening(_) => Client::opened(reply).err(),
            Stage::Working(_, _) => Client::got(reply).err(),
            Stage::Closing(_) => Client::closed(reply).err(),
            Stage::Leaving => Client::disconnected(reply).err(),
        };
        match failed {
            Some(error) => Some(Err(error)),
            None => None,
        }
    }
}

/// Putting one message on a queue.
pub struct Sending {
    stage: Stage,
    queue: String,
    application_type: u32,
    bytes: Vec<u8>,
}

/// What a [`Sending`] holds.
#[verifier::ext_equal]
pub struct SendingView {
    pub stage: StageView,
    pub queue: Seq<char>,
    pub application_type: u32,
    pub bytes: Seq<u8>,
}

impl View for Sending {
    type V = SendingView;

    closed spec fn view(&self) -> SendingView {
        SendingView {
            stage: self.stage@,
            queue: self.queue@,
            application_type: self.application_type,
            bytes: self.bytes@,
        }
    }
}

/// What a reply made of a [`Sending`].
pub enum SendStep {
    /// Send this call, and take its reply.
    Call(Sending, Segment),
    /// The message was put.
    Done,
}

/// What a [`SendStep`] holds.
pub enum SendStepView {
    Call(SendingView, SegmentView),
    Done,
}

impl View for SendStep {
    type V = SendStepView;

    open spec fn view(&self) -> SendStepView {
        match self {
            SendStep::Call(sending, segment) => SendStepView::Call(sending@, segment@),
            SendStep::Done => SendStepView::Done,
        }
    }
}

impl SendingView {
    /// What `reply` makes of it, with `over` for words where the message is
    /// more than was agreed.
    pub open spec fn step(self, reply: Option<SegmentView>, over: Seq<char>) -> Result<
        SendStepView,
        Fault,
    > {
        match self.stage {
            StageView::Agreeing(client) => match client.agree(
                reply,
                "xmip"@,
                self.application_type,
            ) {
                Err(fault) => Err(fault),
                Ok((client, call)) => Ok(
                    SendStepView::Call(
                        SendingView { stage: StageView::Connecting(client), ..self },
                        call,
                    ),
                ),
            },
            StageView::Connecting(client) => match done(MQCONN, reply) {
                Err(fault) => Err(fault),
                Ok(_) => {
                    let (client, call) = client.call(
                        MQOPEN,
                        open_body(self.queue, OPEN_OUTPUT | OPEN_FAIL_IF_QUIESCING),
                    );
                    Ok(
                        SendStepView::Call(
                            SendingView { stage: StageView::Opening(client), ..self },
                            call,
                        ),
                    )
                },
            },
            StageView::Opening(client) => match granted(MQOPEN, reply) {
                Err(fault) => Err(fault),
                Ok((header, _)) => match client.put(header.handle, self.bytes, over) {
                    Err(fault) => Err(fault),
                    Ok((client, call)) => Ok(
                        SendStepView::Call(
                            SendingView {
                                stage: StageView::Working(client, header.handle),
                                ..self
                            },
                            call,
                        ),
                    ),
                },
            },
            StageView::Working(client, handle) => match assigned_id(reply) {
                Err(fault) => Err(fault),
                Ok(_) => {
                    let (client, call) = client.call(MQCLOSE, close_body(handle));
                    Ok(
                        SendStepView::Call(
                            SendingView { stage: StageView::Closing(client), ..self },
                            call,
                        ),
                    )
                },
            },
            StageView::Closing(client) => match done(MQCLOSE, reply) {
                Err(fault) => Err(fault),
                Ok(_) => Ok(
                    SendStepView::Call(
                        SendingView { stage: StageView::Leaving, ..self },
                        client.call(MQDISC, api_bytes(api_call(0))).1,
                    ),
                ),
            },
            StageView::Leaving => match done(MQDISC, reply) {
                Err(fault) => Err(fault),
                Ok(_) => Ok(SendStepView::Done),
            },
        }
    }
}

impl Sending {
    /// Whether the next call still has a request id.
    pub fn reaches(&self) -> (enough: bool)
        ensures
            enough == self@.stage.reaches(),
    {
        self.stage.reaches()
    }

    /// The largest message agreed so far; `None` once the client leaves.
    pub fn max_message(&self) -> (max_message: Option<u32>)
        ensures
            max_message == self@.stage.max_message(),
    {
        self.stage.max_message()
    }

    /// Take the reply to the last call — `None` where the queue manager
    /// closed — and say what comes next, with `over` for words where the
    /// message is more than was agreed.
    pub fn step(self, reply: Option<Segment>, over: &str) -> (result: Result<
        SendStep,
        TransportError,
    >)
        requires
            self@.step(received(reply), over@) is Ok ==> self@.stage.reaches(),
        ensures
            outcome(result) == self@.step(received(reply), over@),
    {
        let Sending { stage, queue, application_type, bytes } = self;
        let (stage, call) = match stage {
            Stage::Agreeing(client) => match client.agree(reply, "xmip", application_type) {
                Err(error) => {
                    return Err(error);
                },
                Ok((client, call)) => (Stage::Connecting(client), call),
            },
            Stage::Connecting(client) => match Client::connected(reply) {
                Err(error) => {
                    return Err(error);
                },
                Ok(()) => {
                    let mut client = client;
                    let call = client.open(queue.as_str(), OPEN_OUTPUT | OPEN_FAIL_IF_QUIESCING);
                    (Stage::Opening(client), call)
                },
            },
            Stage::Opening(client) => match Client::opened(reply) {
                Err(error) => {
                    return Err(error);
                },
                Ok(handle) => {
                    let mut client = client;
                    match client.put(handle, bytes.as_slice(), over) {
                        Err(error) => {
                            return Err(error);
                        },
                        Ok(call) => (Stage::Working(client, handle), call),
                    }
                },
            },
            Stage::Working(client, handle) => match Client::assigned(reply) {
                Err(error) => {
                    return Err(error);
                },
                Ok(_) => {
                    let mut client = client;
                    let call = client.close(handle);
                    (Stage::Closing(client), call)
                },
            },
            Stage::Closing(client) => match Client::closed(reply) {
                Err(error) => {
                    return Err(error);
                },
                Ok(()) => (Stage::Leaving, client.disconnect()),
            },
            Stage::Leaving => match Client::disconnected(reply) {
                Err(error) => {
                    return Err(error);
                },
                Ok(()) => {
                    return Ok(SendStep::Done);
                },
            },
        };
        Ok(SendStep::Call(Sending { stage, queue, application_type, bytes }, call))
    }

    /// As [`Sending::step`], whatever request ids are left: `None` where the
    /// reply is followed by a call that no request id is left for.
    pub fn take(self, reply: Option<Segment>, over: &str) -> (result: Option<
        Result<SendStep, TransportError>,
    >)
        ensures
            match result {
                Some(step) => outcome(step) == self@.step(received(reply), over@),
                None => self@.step(received(reply), over@) is Ok && !self@.stage.reaches(),
            },
            self@.stage.reaches() ==> result is Some,
            self@.step(received(reply), over@) is Ok && !self@.stage.reaches() ==> result is None,
    {
        if self.reaches() {
            return Some(self.step(reply, over));
        }
        let failed: Option<TransportError> = match self.stage {
            Stage::Agreeing(_) => Client::heard(reply).err(),
            Stage::Connecting(_) => Client::connected(reply).err(),
            Stage::Opening(client) => match Client::opened(reply) {
                Err(error) => Some(error),
                Ok(handle) => {
                    let mut client = client;
                    if self.bytes.len() > client.max_message() as usize {
                        client.put(handle, self.bytes.as_slice(), over).err()
                    } else {
                        None
                    }
                },
            },
            Stage::Working(_, _) => Client::assigned(reply).err(),
            Stage::Closing(_) => Client::closed(reply).err(),
            Stage::Leaving => Client::disconnected(reply).err(),
        };
        match failed {
            Some(error) => Some(Err(error)),
            None => None,
        }
    }
}

/// The getting of every message on a location's queue, and the initial data
/// it opens with.
pub open spec fn receive_started(transport: TransportView, application_type: u32) -> (
    ReceivingView,
    SegmentView,
) {
    let (client, call) = ClientView::connect(transport.queue_manager, transport.channel);
    (
        ReceivingView {
            stage: StageView::Agreeing(client),
            queue: transport.queue,
            origin: origin_of(transport.server, transport.queue_manager, transport.queue),
            application_type,
            arrived: Seq::empty(),
        },
        call,
    )
}

/// The putting of `bytes` on `queue` of `queue_manager`, and the initial
/// data it opens with.
pub open spec fn send_started(
    queue_manager: Seq<char>,
    channel: Seq<char>,
    queue: Seq<char>,
    bytes: Seq<u8>,
    application_type: u32,
) -> (SendingView, SegmentView) {
    let (client, call) = ClientView::connect(queue_manager, channel);
    (SendingView { stage: StageView::Agreeing(client), queue, application_type, bytes }, call)
}

impl IbmMqTransport {
    /// Speak to `queue_manager` at `server`, on `queue`.
    pub fn new(server: &str, queue_manager: &str, queue: &str) -> (transport: Self)
        ensures
            transport@ == (TransportView {
                server: server@,
                queue_manager: queue_manager@,
                queue: queue@,
                channel: DEFAULT_CHANNEL@,
                timeout: None,
            }),
    {
        IbmMqTransport {
            server: server.to_string(),
            queue_manager: queue_manager.to_string(),
            queue: queue.to_string(),
            channel: DEFAULT_CHANNEL.to_string(),
            timeout: None,
        }
    }

    /// Connect on `channel` rather than `SYSTEM.DEF.SVRCONN`.
    pub fn on_channel(self, channel: &str) -> (transport: Self)
        ensures
            transport@ == (TransportView { channel: channel@, ..self@ }),
    {
        let mut transport = self;
        transport.channel = channel.to_string();
        transport
    }

    /// Give up on a queue manager that stops mid-reply.
    pub fn timing_out_after(self, timeout: Duration) -> (transport: Self)
        ensures
            transport@ == (TransportView { timeout: Some(timeout), ..self@ }),
    {
        let mut transport = self;
        transport.timeout = Some(timeout);
        transport
    }

    /// What the transport is called, and its scheme.
    pub fn name(&self) -> (name: &'static str)
        ensures
            name@ == "ibm-mq"@,
    {
        "ibm-mq"
    }

    /// The configured server.
    pub fn server(&self) -> (server: &str)
        ensures
            server@ == self@.server,
    {
        self.server.as_str()
    }

    /// The channel to connect on.
    pub fn channel(&self) -> (channel: &str)
        ensures
            channel@ == self@.channel,
    {
        self.channel.as_str()
    }

    /// How long to wait for a reply.
    pub fn timeout(&self) -> (timeout: Option<Duration>)
        ensures
            timeout == self@.timeout,
    {
        self.timeout
    }

    /// Connect to the configured queue manager: the client, and the initial
    /// data to send.
    pub fn connect(&self) -> (opening: (Client, Segment))
        ensures
            (opening.0@, opening.1@) == ClientView::connect(self@.queue_manager, self@.channel),
    {
        Client::connect(self.queue_manager.as_str(), self.channel.as_str())
    }

    /// Accept the client that opened with `opening` as this transport's
    /// queue manager, with this transport's queue defined and holding
    /// `messages`.
    pub fn accept_one(&self, messages: &[&[u8]], opening: Option<Segment>) -> (result: Result<
        (Session, Segment),
        TransportError,
    >)
        ensures
            outcome(result) == accepted(
                ManagerView {
                    name: self@.queue_manager,
                    queues: Map::empty().insert(self@.queue, given(messages@)),
                    max_message: crate::client::DEFAULT_MAX_MESSAGE,
                },
                received(opening),
            ),
            result matches Ok((session, _)) ==> session.wf(),
    {
        let manager = QueueManager::new(self.queue_manager.as_str()).holding(
            self.queue.as_str(),
            messages,
        );
        assert(Seq::<Seq<u8>>::empty() + given(messages@) =~= given(messages@));
        manager.accept(opening)
    }

    /// The origin every message of `queue` on `server` shares, up to the
    /// message id.
    pub fn origin(server: &str, queue_manager: &str, queue: &str) -> (origin: String)
        ensures
            origin@ == origin_of(server@, queue_manager@, queue@),
    {
        let mut origin = "ibm-mq://".to_string();
        origin.append(server);
        origin.append("/");
        origin.append(queue_manager);
        origin.append("/");
        origin.append(queue);
        origin.append("?msgid=");
        origin
    }

    /// Where a target names the server, queue manager and queue, or some
    /// suffix of them on what this transport is configured with; `named` is
    /// what it names under a scheme.
    pub fn resolve<'a>(&'a self, target: &'a str, named: Named<'a>) -> (result: Result<
        (&'a str, &'a str, &'a str),
        TransportError,
    >)
        ensures
            outcome(result) == resolved(self@.server, self@.queue_manager, target@, named@),
    {
        crate::target::resolve(self.server.as_str(), self.queue_manager.as_str(), target, named)
    }

    /// Get every message waiting on the queue, oldest first: what to send
    /// the configured server first, and what takes its replies.
    pub fn receive(&self, application_type: u32) -> (started: (Receiving, Segment))
        ensures
            (started.0@, started.1@) == receive_started(self@, application_type),
    {
        let (client, call) = self.connect();
        let receiving = Receiving {
            stage: Stage::Agreeing(client),
            queue: self.queue.clone(),
            origin: Self::origin(
                self.server.as_str(),
                self.queue_manager.as_str(),
                self.queue.as_str(),
            ),
            application_type,
            arrived: Vec::new(),
        };
        assert(receiving@ =~= receive_started(self@, application_type).0);
        (receiving, call)
    }

    /// Put the bytes as one message on the queue the target names: the
    /// server it names, what to send it first, and what takes its replies.
    pub fn send<'a>(
        &'a self,
        target: &'a str,
        named: Named<'a>,
        bytes: &[u8],
        application_type: u32,
    ) -> (result: Result<(&'a str, Sending, Segment), TransportError>)
        ensures
            match resolved(self@.server, self@.queue_manager, target@, named@) {
                Ok((server, queue_manager, queue)) => {
                    &&& result matches Ok((to, sending, call))
                    &&& to@ == server
                    &&& (sending@, call@) == send_started(
                        queue_manager,
                        self@.channel,
                        queue,
                        bytes@,
                        application_type,
                    )
                },
                Err(fault) => result matches Err(error) && error@ == fault,
            },
    {
        let (server, queue_manager, queue) = match self.resolve(target, named) {
            Ok(place) => place,
            Err(error) => {
                return Err(error);
            },
        };
        let (client, call) = Client::connect(queue_manager, self.channel.as_str());
        let sending = Sending {
            stage: Stage::Agreeing(client),
            queue: queue.to_string(),
            application_type,
            bytes: slice_to_vec(bytes),
        };
        Ok((server, sending, call))
    }
}

} // verus!
