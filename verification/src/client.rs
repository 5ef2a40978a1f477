//! Xmip's side of one conversation with a queue manager: connect, open,
//! put, get, close, disconnect.
//!
//! Each call is one segment out and one reply back on the same
//! conversation, the request id counting up. The initial data exchange
//! settles the largest message the two sides will carry, and a put over
//! that is refused here with MQ's own reason, `MQRC_MSG_TOO_BIG_FOR_Q_MGR`,
//! before a byte of it is written.
//!
//! A call here gives the segment to send. Beside it stands the function
//! that takes what came back — `None` where the queue manager closed — and
//! says what the call came to.

use vstd::prelude::*;
use vstd::slice::{slice_subrange, slice_to_vec};

use crate::descriptor::{
    decode_options, encode_get_options, encode_object, encode_put_options, fixed,
    get_options_bytes, initial_decoded, md_decoded, object_bytes, options_decoded,
    put_options_bytes, InitialData, InitialDataView, MessageDescriptor, MessageDescriptorView,
    MQGMO_CATCHER, MQGMO_LENGTH,
};
use crate::error::{outcome, permanent, protocol_error, Fault, TransportError};
use crate::segment::{
    api_bytes, api_call, api_decoded, be32_bytes, nuls, put32, put_bytes, put_nuls, ApiHeader,
    Segment, SegmentView, INITIAL_DATA, MQCLOSE, MQCONN, MQDISC, MQGET, MQOPEN, MQPUT, REPLY,
};
use crate::text::{decimal, decimal_text, field_of, hex_byte, hex_byte_text};

verus! {

/// The largest message a queue manager carries unless told otherwise:
/// four mebibytes, `MAXMSGL` as MQ ships it.
pub const DEFAULT_MAX_MESSAGE: u32 = 4_194_304;

/// The channel a client connects on unless told otherwise.
pub const DEFAULT_CHANNEL: &'static str = "SYSTEM.DEF.SVRCONN";

/// `MQRC_NO_MSG_AVAILABLE`.
pub const NO_MESSAGE: u32 = 2033;

/// `MQRC_MSG_TOO_BIG_FOR_Q_MGR`.
pub const TOO_BIG: u32 = 2031;

/// `MQRC_Q_MGR_NAME_ERROR`.
pub const QUEUE_MANAGER_NAME_ERROR: u32 = 2058;

/// `MQRC_UNKNOWN_OBJECT_NAME`.
pub const UNKNOWN_OBJECT: u32 = 2085;

/// `MQRC_HOBJ_ERROR`.
pub const HANDLE_ERROR: u32 = 2019;

/// Whether what a reason code names will clear: a queue manager not
/// available, a broken connection or a full queue.
pub open spec fn clears(reason: u32) -> bool {
    reason == 2009 || reason == 2053 || reason == 2059 || reason == 2161 || reason == 2162
        || reason == 2195
}

/// The failure that `reason` is, in `context`.
pub open spec fn reason_fault(reason: u32, context: Seq<char>) -> Fault {
    Fault {
        message: context + ": MQRC "@ + decimal(reason as nat),
        retryable: clears(reason),
    }
}

/// What a reason code means to resilience: a queue manager not available,
/// a broken connection or a full queue will clear; the rest will not.
pub fn reason_error(reason: u32, context: &str) -> (error: TransportError)
    ensures
        error@ == reason_fault(reason, context@),
{
    let retryable: bool = reason == 2009 || reason == 2053 || reason == 2059 || reason == 2161
        || reason == 2162 || reason == 2195;
    let mut message = context.to_string();
    message.append(": MQRC ");
    message.append(decimal_text(reason as u64).as_str());
    TransportError { message, retryable }
}

/// `MQAT_WINDOWS_NT` on Windows, `MQAT_UNIX` elsewhere.
pub fn application_type(windows: bool) -> (kind: u32)
    ensures
        kind == (if windows {
            11u32
        } else {
            6u32
        }),
{
    if windows {
        11
    } else {
        6
    }
}

/// What a reply's header says of its call.
pub open spec fn judged(header: ApiHeader) -> Result<(), Fault> {
    if header.completion == 0 {
        Ok(())
    } else {
        Err(reason_fault(header.reason, "the queue manager refused"@))
    }
}

fn judge(header: &ApiHeader) -> (result: Result<(), TransportError>)
    ensures
        outcome(result) == judged(*header),
{
    if header.completion == 0 {
        Ok(())
    } else {
        Err(reason_error(header.reason, "the queue manager refused"))
    }
}

/// One client's side of a conversation.
pub struct Client {
    request: u32,
    max_message: u32,
    queue_manager: String,
}

/// What a [`Client`] holds: the last request id, the largest message
/// agreed, and the queue manager.
#[verifier::ext_equal]
pub struct ClientView {
    pub request: u32,
    pub max_message: u32,
    pub queue_manager: Seq<char>,
}

impl View for Client {
    type V = ClientView;

    closed spec fn view(&self) -> ClientView {
        ClientView {
            request: self.request,
            max_message: self.max_message,
            queue_manager: self.queue_manager@,
        }
    }
}

/// A received segment, where there was one.
pub open spec fn received(reply: Option<Segment>) -> Option<SegmentView> {
    match reply {
        Some(segment) => Some(segment@),
        None => None,
    }
}

/// The type of the reply that is due to a call of type `kind`.
pub open spec fn due(kind: u8) -> u8 {
    if kind == INITIAL_DATA {
        kind
    } else {
        kind | REPLY
    }
}

/// The reply to a call of type `kind`, or the refusal of none or of another
/// type.
pub open spec fn replied(kind: u8, reply: Option<SegmentView>) -> Result<SegmentView, Fault> {
    match reply {
        None => Err(permanent("the queue manager closed without replying"@)),
        Some(segment) => if segment.kind != due(kind) && segment.kind != kind {
            Err(
                permanent(
                    "a 0x"@ + hex_byte(segment.kind) + " segment where a 0x"@ + hex_byte(due(kind))
                        + " reply was due"@,
                ),
            )
        } else {
            Ok(segment)
        },
    }
}

/// The header of the reply to a call of type `kind` that succeeded, and
/// what follows it.
pub open spec fn granted(kind: u8, reply: Option<SegmentView>) -> Result<
    (ApiHeader, Seq<u8>),
    Fault,
> {
    match replied(kind, reply) {
        Err(fault) => Err(fault),
        Ok(segment) => match api_decoded(segment.body) {
            Err(fault) => Err(fault),
            Ok((header, rest)) => match judged(header) {
                Err(fault) => Err(fault),
                Ok(_) => Ok((header, rest)),
            },
        },
    }
}

/// Whether a call of type `kind` was granted.
pub open spec fn done(kind: u8, reply: Option<SegmentView>) -> Result<(), Fault> {
    match granted(kind, reply) {
        Err(fault) => Err(fault),
        Ok(_) => Ok(()),
    }
}

/// The body of an `MQCONN`.
pub open spec fn conn_body(
    queue_manager: Seq<char>,
    application: Seq<char>,
    application_type: u32,
) -> Seq<u8> {
    api_bytes(api_call(0)) + field_of(queue_manager, 48) + field_of(application, 28) + be32_bytes(
        application_type,
    ) + nuls(32) + be32_bytes(0)
}

/// The body of an `MQOPEN`.
pub open spec fn open_body(queue: Seq<char>, options: u32) -> Seq<u8> {
    api_bytes(api_call(0)) + object_bytes(queue) + be32_bytes(options)
}

/// The body of an `MQPUT`.
pub open spec fn put_body(handle: u32, bytes: Seq<u8>) -> Seq<u8> {
    api_bytes(api_call(handle)) + MessageDescriptorView::datagram("xmip"@).bytes()
        + put_options_bytes(""@, bytes.len()) + bytes
}

/// The body of an `MQGET`.
pub open spec fn get_body(handle: u32, max_message: u32) -> Seq<u8> {
    api_bytes(api_call(handle)) + MessageDescriptorView::datagram(""@).bytes() + get_options_bytes(
        ""@,
        max_message as nat,
    )
}

/// The body of an `MQCLOSE`.
pub open spec fn close_body(handle: u32) -> Seq<u8> {
    api_bytes(api_call(handle)) + be32_bytes(0)
}

/// The refusal of a message that is more than was agreed, which `over` puts
/// in words.
pub open spec fn too_big(over: Seq<char>) -> Fault {
    reason_fault(TOO_BIG, over)
}

impl ClientView {
    /// The next call, of type `kind`, and the client once it is made.
    pub open spec fn call(self, kind: u8, body: Seq<u8>) -> (Self, SegmentView) {
        let request = (self.request + 1) as u32;
        (
            ClientView { request, ..self },
            SegmentView { kind, conversation: 1, request, body },
        )
    }

    /// A client that is about to open a conversation with `queue_manager`.
    pub open spec fn fresh(queue_manager: Seq<char>) -> Self {
        ClientView { request: 0, max_message: DEFAULT_MAX_MESSAGE, queue_manager }
    }

    /// The client that opens a conversation on `channel`, and the initial
    /// data it opens with.
    pub open spec fn connect(queue_manager: Seq<char>, channel: Seq<char>) -> (Self, SegmentView) {
        Self::fresh(queue_manager).call(
            INITIAL_DATA,
            (InitialDataView {
                max_message: DEFAULT_MAX_MESSAGE,
                channel,
                queue_manager,
            }).bytes(),
        )
    }

    /// What the queue manager's initial data makes of the client: the
    /// smaller of the two sizes is agreed, and `MQCONN` follows.
    pub open spec fn agree(
        self,
        answer: Option<SegmentView>,
        application: Seq<char>,
        application_type: u32,
    ) -> Result<(Self, SegmentView), Fault> {
        match replied(INITIAL_DATA, answer) {
            Err(fault) => Err(fault),
            Ok(segment) => match initial_decoded(segment.body) {
                Err(fault) => Err(fault),
                Ok(theirs) => Ok(
                    (ClientView {
                        max_message: if theirs.max_message < self.max_message {
                            theirs.max_message
                        } else {
                            self.max_message
                        },
                        ..self
                    }).call(
                        MQCONN,
                        conn_body(self.queue_manager, application, application_type),
                    ),
                ),
            },
        }
    }

    /// The put of `bytes` on `handle`, or its refusal in the words `over`
    /// where they are more than was agreed.
    pub open spec fn put(self, handle: u32, bytes: Seq<u8>, over: Seq<char>) -> Result<
        (Self, SegmentView),
        Fault,
    > {
        if bytes.len() > self.max_message {
            Err(too_big(over))
        } else {
            Ok(self.call(MQPUT, put_body(handle, bytes)))
        }
    }
}

/// The message id that a granted `MQPUT` was assigned.
pub open spec fn assigned_id(reply: Option<SegmentView>) -> Result<Seq<u8>, Fault> {
    match granted(MQPUT, reply) {
        Err(fault) => Err(fault),
        Ok((_, rest)) => match md_decoded(rest) {
            Err(fault) => Err(fault),
            Ok((descriptor, _)) => Ok(descriptor.message_id),
        },
    }
}

/// The id and the bytes of the message that the reply to an `MQGET`
/// carries; none where the queue was empty.
pub open spec fn got_message(reply: Option<SegmentView>) -> Result<
    Option<(Seq<u8>, Seq<u8>)>,
    Fault,
> {
    match replied(MQGET, reply) {
        Err(fault) => Err(fault),
        Ok(segment) => match api_decoded(segment.body) {
            Err(fault) => Err(fault),
            Ok((header, rest)) => if header.reason == NO_MESSAGE {
                Ok(None)
            } else {
                match judged(header) {
                    Err(fault) => Err(fault),
                    Ok(_) => match md_decoded(rest) {
                        Err(fault) => Err(fault),
                        Ok((descriptor, rest)) => match options_decoded(
                            rest,
                            MQGMO_CATCHER@,
                            MQGMO_LENGTH as nat,
                        ) {
                            Err(fault) => Err(fault),
                            Ok((length, data)) => if data.len() < length {
                                Err(permanent("a got message shorter than its length"@))
                            } else {
                                Ok(Some((descriptor.message_id, data.take(length as int))))
                            },
                        },
                    },
                }
            },
        },
    }
}

fn reply_to(kind: u8, reply: Option<Segment>) -> (result: Result<Segment, TransportError>)
    ensures
        outcome(result) == replied(kind, received(reply)),
{
    let segment: Segment = match reply {
        Some(segment) => segment,
        None => {
            return Err(protocol_error("the queue manager closed without replying"));
        },
    };
    let expected: u8 = if kind == INITIAL_DATA {
        kind
    } else {
        kind | REPLY
    };
    if segment.kind != expected && segment.kind != kind {
        let mut message = "a 0x".to_string();
        message.append(hex_byte_text(segment.kind).as_str());
        message.append(" segment where a 0x");
        message.append(hex_byte_text(expected).as_str());
        message.append(" reply was due");
        return Err(TransportError::permanent(message));
    }
    Ok(segment)
}

/// The header of a granted reply, and the body behind it.
fn grant(kind: u8, reply: Option<Segment>) -> (result: Result<
    (ApiHeader, Vec<u8>),
    TransportError,
>)
    ensures
        outcome(result) == granted(kind, received(reply)),
{
    let segment: Segment = match reply_to(kind, reply) {
        Ok(segment) => segment,
        Err(error) => {
            return Err(error);
        },
    };
    match ApiHeader::decode(segment.body.as_slice()) {
        Err(error) => Err(error),
        Ok((header, rest)) => match judge(&header) {
            Err(error) => Err(error),
            Ok(()) => Ok((header, slice_to_vec(rest))),
        },
    }
}

fn call_header(handle: u32) -> (bytes: Vec<u8>)
    ensures
        bytes@ == api_bytes(api_call(handle)),
{
    slice_to_vec(&ApiHeader::call(handle).encode())
}

impl Client {
    fn call(&mut self, kind: u8, body: Vec<u8>) -> (segment: Segment)
        requires
            old(self)@.request < u32::MAX,
        ensures
            (final(self)@, segment@) == old(self)@.call(kind, body@),
    {
        self.request = self.request + 1;
        Segment::new(kind, 1, self.request, body)
    }

    /// Open a conversation with `queue_manager` on `channel`: the client,
    /// and the initial data to send.
    pub fn connect(queue_manager: &str, channel: &str) -> (opening: (Self, Segment))
        ensures
            (opening.0@, opening.1@) == ClientView::connect(queue_manager@, channel@),
    {
        let mut client = Client {
            request: 0,
            max_message: DEFAULT_MAX_MESSAGE,
            queue_manager: queue_manager.to_string(),
        };
        let mine = InitialData {
            max_message: DEFAULT_MAX_MESSAGE,
            channel: channel.to_string(),
            queue_manager: queue_manager.to_string(),
        };
        let segment = client.call(INITIAL_DATA, mine.encode());
        (client, segment)
    }

    /// The queue manager's initial data.
    pub(crate) fn heard(answer: Option<Segment>) -> (result: Result<InitialData, TransportError>)
        ensures
            outcome(result) == (match replied(INITIAL_DATA, received(answer)) {
                Err(fault) => Err::<InitialDataView, Fault>(fault),
                Ok(segment) => initial_decoded(segment.body),
            }),
    {
        match reply_to(INITIAL_DATA, answer) {
            Err(error) => Err(error),
            Ok(segment) => InitialData::decode(segment.body.as_slice()),
        }
    }

    /// Take the queue manager's initial data, agree the smaller size, and
    /// connect as `application`: the client, and the `MQCONN` to send.
    pub fn agree(
        self,
        answer: Option<Segment>,
        application: &str,
        application_type: u32,
    ) -> (result: Result<(Self, Segment), TransportError>)
        requires
            self@.agree(received(answer), application@, application_type) is Ok ==> self@.request
                < u32::MAX,
        ensures
            outcome(result) == self@.agree(received(answer), application@, application_type),
    {
        let mut client = self;
        let theirs = match Client::heard(answer) {
            Ok(theirs) => theirs,
            Err(error) => {
                return Err(error);
            },
        };
        if theirs.max_message < client.max_message {
            client.max_message = theirs.max_message;
        }
        let mut body = call_header(0);
        put_bytes(&mut body, fixed(client.queue_manager.as_str(), 48).as_slice());
        put_bytes(&mut body, fixed(application, 28).as_slice());
        put32(&mut body, application_type);
        put_nuls(&mut body, 32);
        put32(&mut body, 0);
        let segment = client.call(MQCONN, body);
        Ok((client, segment))
    }

    /// What the reply to `MQCONN` says.
    pub fn connected(reply: Option<Segment>) -> (result: Result<(), TransportError>)
        ensures
            outcome(result) == done(MQCONN, received(reply)),
    {
        match grant(MQCONN, reply) {
            Ok(_) => Ok(()),
            Err(error) => Err(error),
        }
    }

    /// The last request id.
    pub fn request(&self) -> (request: u32)
        ensures
            request == self@.request,
    {
        self.request
    }

    /// The largest message the two sides agreed to carry.
    pub fn max_message(&self) -> (max_message: u32)
        ensures
            max_message == self@.max_message,
    {
        self.max_message
    }

    /// The queue manager this client is connected to.
    pub fn queue_manager(&self) -> (queue_manager: &str)
        ensures
            queue_manager@ == self@.queue_manager,
    {
        self.queue_manager.as_str()
    }

    /// Open `queue` with `options`: the `MQOPEN` to send.
    pub fn open(&mut self, queue: &str, options: u32) -> (segment: Segment)
        requires
            old(self)@.request < u32::MAX,
        ensures
            (final(self)@, segment@) == old(self)@.call(MQOPEN, open_body(queue@, options)),
    {
        let mut body = call_header(0);
        put_bytes(&mut body, encode_object(queue).as_slice());
        put32(&mut body, options);
        self.call(MQOPEN, body)
    }

    /// The handle that the reply to `MQOPEN` gives: an unknown queue is
    /// refused with `MQRC 2085`.
    pub fn opened(reply: Option<Segment>) -> (result: Result<u32, TransportError>)
        ensures
            outcome(result) == (match granted(MQOPEN, received(reply)) {
                Ok((header, _)) => Ok::<u32, Fault>(header.handle),
                Err(fault) => Err(fault),
            }),
    {
        match grant(MQOPEN, reply) {
            Ok((header, _)) => Ok(header.handle),
            Err(error) => Err(error),
        }
    }

    /// Put `bytes` as one message on `handle`: the `MQPUT` to send, or the
    /// refusal, in the words `over`, of a message over what was agreed.
    pub fn put(&mut self, handle: u32, bytes: &[u8], over: &str) -> (result: Result<
        Segment,
        TransportError,
    >)
        requires
            bytes@.len() <= old(self)@.max_message ==> old(self)@.request < u32::MAX,
        ensures
            match old(self)@.put(handle, bytes@, over@) {
                Ok((client, segment)) => {
                    &&& final(self)@ == client
                    &&& result matches Ok(sent)
                    &&& sent@ == segment
                },
                Err(fault) => {
                    &&& final(self)@ == old(self)@
                    &&& result matches Err(error)
                    &&& error@ == fault
                },
            },
    {
        if bytes.len() > self.max_message as usize {
            return Err(reason_error(TOO_BIG, over));
        }
        let mut body = call_header(handle);
        put_bytes(&mut body, MessageDescriptor::datagram("xmip").encode().as_slice());
        put_bytes(&mut body, encode_put_options("", bytes.len()).as_slice());
        put_bytes(&mut body, bytes);
        Ok(self.call(MQPUT, body))
    }

    /// The id that the reply to `MQPUT` says the message was assigned.
    pub fn assigned(reply: Option<Segment>) -> (result: Result<[u8; 24], TransportError>)
        ensures
            outcome(result) == assigned_id(received(reply)),
    {
        match grant(MQPUT, reply) {
            Err(error) => Err(error),
            Ok((_, rest)) => match MessageDescriptor::decode(rest.as_slice()) {
                Err(error) => Err(error),
                Ok((descriptor, _)) => Ok(descriptor.message_id),
            },
        }
    }

    /// Get the next message on `handle`: the `MQGET` to send.
    pub fn get(&mut self, handle: u32) -> (segment: Segment)
        requires
            old(self)@.request < u32::MAX,
        ensures
            (final(self)@, segment@) == old(self)@.call(
                MQGET,
                get_body(handle, old(self)@.max_message),
            ),
    {
        let mut body = call_header(handle);
        put_bytes(&mut body, MessageDescriptor::datagram("").encode().as_slice());
        put_bytes(&mut body, encode_get_options("", self.max_message as usize).as_slice());
        self.call(MQGET, body)
    }

    /// The id and the bytes of the message that the reply to `MQGET`
    /// carries, or `None` where the queue is empty.
    pub fn got(reply: Option<Segment>) -> (result: Result<
        Option<([u8; 24], Vec<u8>)>,
        TransportError,
    >)
        ensures
            match result {
                Ok(None) => got_message(received(reply)) == Ok::<
                    Option<(Seq<u8>, Seq<u8>)>,
                    Fault,
                >(None),
                Ok(Some((id, bytes))) => got_message(received(reply)) == Ok::<
                    Option<(Seq<u8>, Seq<u8>)>,
                    Fault,
                >(Some((id@, bytes@))),
                Err(error) => got_message(received(reply)) == Err::<
                    Option<(Seq<u8>, Seq<u8>)>,
                    Fault,
                >(error@),
            },
    {
        let segment: Segment = match reply_to(MQGET, reply) {
            Ok(segment) => segment,
            Err(error) => {
                return Err(error);
            },
        };
        let (header, rest) = match ApiHeader::decode(segment.body.as_slice()) {
            Ok(decoded) => decoded,
            Err(error) => {
                return Err(error);
            },
        };
        if header.reason == NO_MESSAGE {
            return Ok(None);
        }
        match judge(&header) {
            Ok(()) => {},
            Err(error) => {
                return Err(error);
            },
        }
        let (descriptor, rest) = match MessageDescriptor::decode(rest) {
            Ok(decoded) => decoded,
            Err(error) => {
                return Err(error);
            },
        };
        let (length, data) = match decode_options(rest, &MQGMO_CATCHER, MQGMO_LENGTH) {
            Ok(decoded) => decoded,
            Err(error) => {
                return Err(error);
            },
        };
        if data.len() < length {
            return Err(protocol_error("a got message shorter than its length"));
        }
        let bytes = slice_to_vec(slice_subrange(data, 0, length));
        assert(bytes@ =~= data@.take(length as int));
        Ok(Some((descriptor.message_id, bytes)))
    }

    /// Close `handle`: the `MQCLOSE` to send.
    pub fn close(&mut self, handle: u32) -> (segment: Segment)
        requires
            old(self)@.request < u32::MAX,
        ensures
            (final(self)@, segment@) == old(self)@.call(MQCLOSE, close_body(handle)),
    {
        let mut body = call_header(handle);
        put32(&mut body, 0);
        self.call(MQCLOSE, body)
    }

    /// What the reply to `MQCLOSE` says.
    pub fn closed(reply: Option<Segment>) -> (result: Result<(), TransportError>)
        ensures
            outcome(result) == done(MQCLOSE, received(reply)),
    {
        match grant(MQCLOSE, reply) {
            Ok(_) => Ok(()),
            Err(error) => Err(error),
        }
    }

    /// Disconnect: the `MQDISC` to send, the client's last.
    pub fn disconnect(self) -> (segment: Segment)
        requires
            self@.request < u32::MAX,
        ensures
            segment@ == self@.call(MQDISC, api_bytes(api_call(0))).1,
    {
        let mut client = self;
        client.call(MQDISC, call_header(0))
    }

    /// What the reply to `MQDISC` says.
    pub fn disconnected(reply: Option<Segment>) -> (result: Result<(), TransportError>)
        ensures
            outcome(result) == done(MQDISC, received(reply)),
    {
        match grant(MQDISC, reply) {
            Ok(_) => Ok(()),
            Err(error) => Err(error),
        }
    }
}

} // verus!
