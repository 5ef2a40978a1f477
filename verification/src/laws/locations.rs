//! What a location does: where it goes, what it sends first, and what it
//! sends next for each reply.

use std::time::Duration;

use vstd::prelude::*;

use crate::arrived::ArrivedView;
use crate::client::{received, Client, ClientView};
use crate::descriptor::InitialDataView;
use crate::error::{outcome, Fault, TransportError};
use crate::location::{
    origin_of, streams, IbmMqTransport, ReceiveStep, ReceiveStepView, Receiving, ReceivingView,
    SendStep, SendStepView, Sending, SendingView, StageView,
};
use crate::manager::{given, ManagerView, Session};
use crate::segment::{api_bytes, api_call, Segment, SegmentView};
use crate::target::{resolved, Named};
use crate::text::{decimal, hex_of};

use super::answers::is_hex;
use super::calls::{
    a_close_by_its_places, a_get_by_its_places, a_put_by_its_places, an_open_by_its_places,
    is_close, is_conn, is_get, is_next_call, is_open, is_put, the_open_options_by_their_bits,
};
use super::reading::number_at;
use super::replies::{
    failure_of, fails_as, lemma_agreed, lemma_assigned, lemma_due, lemma_got, lemma_granted,
    message_in, not_due, not_granted,
};
use super::sessions::{
    a_client_is_accepted_by_its_places, accepts, fields_of, fields_of_any, opening_refused,
};
use super::structures::{initial_data_by_its_places, is_initial_data, not_that, opens_with};
use super::text::bytes_are_two_digits_each;
use super::wire::{calls_and_failures_by_their_places, holds_only};

verus! {

/// A transport is what it was told: its server, queue manager and queue, the
/// default channel until it is given another, no timeout until it is given
/// one.
pub proof fn a_transport_is_what_it_was_told(
    server: &str,
    queue_manager: &str,
    queue: &str,
    fresh: IbmMqTransport,
    transport: IbmMqTransport,
    channel: &str,
    on: IbmMqTransport,
    timeout: Duration,
    timed: IbmMqTransport,
)
    requires
        call_ensures(IbmMqTransport::new, (server, queue_manager, queue), fresh),
        call_ensures(IbmMqTransport::on_channel, (transport, channel), on),
        call_ensures(IbmMqTransport::timing_out_after, (transport, timeout), timed),
    ensures
        fresh@.server == server@ && fresh@.queue_manager == queue_manager@ && fresh@.queue
            == queue@,
        fresh@.channel == "SYSTEM.DEF.SVRCONN"@,
        fresh@.timeout is None,
        on@.channel == channel@,
        on@.server == transport@.server && on@.queue_manager == transport@.queue_manager
            && on@.queue == transport@.queue && on@.timeout == transport@.timeout,
        timed@.timeout == Some(timeout),
        timed@.server == transport@.server && timed@.queue_manager == transport@.queue_manager
            && timed@.queue == transport@.queue && timed@.channel == transport@.channel,
{
}

/// What a transport says of itself.
pub proof fn a_transport_says_what_it_is(
    transport: &IbmMqTransport,
    name: &'static str,
    server: &str,
    channel: &str,
    timeout: Option<Duration>,
)
    requires
        call_ensures(IbmMqTransport::name, (transport,), name),
        call_ensures(IbmMqTransport::server, (transport,), server),
        call_ensures(IbmMqTransport::channel, (transport,), channel),
        call_ensures(IbmMqTransport::timeout, (transport,), timeout),
    ensures
        name@ == "ibm-mq"@,
        server@ == transport@.server,
        channel@ == transport@.channel,
        timeout == transport@.timeout,
{
}

/// The origin of a queue's messages: its scheme, server, queue manager and
/// queue, and what the message id follows.
pub proof fn an_origin_names_server_queue_manager_and_queue(
    server: &str,
    queue_manager: &str,
    queue: &str,
    origin: String,
)
    requires
        call_ensures(IbmMqTransport::origin, (server, queue_manager, queue), origin),
    ensures
        origin@ == "ibm-mq://"@ + (server@ + ("/"@ + (queue_manager@ + ("/"@ + (queue@
            + "?msgid="@))))),
        origin_of(server@, queue_manager@, queue@) == origin@,
{
    assert(origin@ =~= "ibm-mq://"@ + (server@ + ("/"@ + (queue_manager@ + ("/"@ + (queue@
        + "?msgid="@))))));
}

/// A transport connects to its own queue manager, on its own channel.
pub proof fn a_transport_connects_on_its_channel(
    transport: &IbmMqTransport,
    opening: (Client, Segment),
)
    requires
        call_ensures(IbmMqTransport::connect, (transport,), opening),
    ensures
        opening.0@.request == 1 && opening.0@.max_message == 4_194_304
            && opening.0@.queue_manager == transport@.queue_manager,
        is_next_call(opening.1, 0x01, 0),
        is_initial_data(
            opening.1.body@,
            4_194_304,
            transport@.channel,
            transport@.queue_manager,
        ),
{
    assert(opening.1@.body == opening.1.body@);
    lemma_opening(transport@.queue_manager, transport@.channel);
}

/// A client's opening by its places.
pub proof fn lemma_opening(queue_manager: Seq<char>, channel: Seq<char>)
    ensures
        ({
            let (client, call) = ClientView::connect(queue_manager, channel);
            &&& client.request == 1 && client.max_message == 4_194_304 && client.queue_manager
                == queue_manager
            &&& call.kind == 0x01 && call.conversation == 1 && call.request == 1
            &&& is_initial_data(call.body, 4_194_304, channel, queue_manager)
        }),
{
    let (client, call) = ClientView::connect(queue_manager, channel);
    let data = InitialDataView {
        max_message: 4_194_304,
        channel,
        queue_manager,
    };
    initial_data_by_its_places(data);
    assert(call.body == data.bytes());
}

/// A transport accepts a client as its own queue manager, with its own queue
/// and no other defined, holding the messages given, in their order.
pub proof fn a_transport_accepts_as_its_queue_manager(
    transport: &IbmMqTransport,
    messages: &[&[u8]],
    opening: Option<Segment>,
    result: Result<(Session, Segment), TransportError>,
)
    requires
        call_ensures(IbmMqTransport::accept_one, (transport, messages, opening), result),
    ensures
        match opening_refused(fields_of_any(opening)) {
            Some(fault) => fails_as(result, fault),
            None => result matches Ok((session, answer)) && {
                let manager = session@.manager;
                &&& session.wf()
                &&& accepts(manager, fields_of(opening->0), session@, fields_of(answer))
                &&& manager.name == transport@.queue_manager
                &&& manager.max_message == 4_194_304
                &&& forall|queue: Seq<char>| #[trigger]
                    manager.queues.contains_key(queue) <==> queue == transport@.queue
                &&& manager.queues[transport@.queue].len() == messages@.len()
                &&& forall|i: int|
                    0 <= i < messages@.len() ==> manager.queues[transport@.queue][i]
                        == #[trigger] messages@[i]@
            },
        },
{
    let manager = ManagerView {
        name: transport@.queue_manager,
        queues: Map::empty().insert(transport@.queue, given(messages@)),
        max_message: 4_194_304,
    };
    assert(received(opening) == fields_of_any(opening));
    a_client_is_accepted_by_its_places(manager, fields_of_any(opening));
    if let Ok((_, answer)) = result {
        assert(answer@ == fields_of(answer));
    }
}

/// A receive opens with initial data as its location is configured, with
/// nothing arrived yet.
pub proof fn a_receive_starts_as_configured(
    transport: &IbmMqTransport,
    application_type: u32,
    started: (Receiving, Segment),
)
    requires
        call_ensures(IbmMqTransport::receive, (transport, application_type), started),
    ensures
        started.0@.queue == transport@.queue,
        started.0@.application_type == application_type,
        started.0@.arrived.len() == 0,
        started.0@.origin == "ibm-mq://"@ + transport@.server + "/"@ + transport@.queue_manager
            + "/"@ + transport@.queue + "?msgid="@,
        started.0@.stage matches StageView::Agreeing(client) && client.request == 1
            && client.max_message == 4_194_304 && client.queue_manager
            == transport@.queue_manager,
        is_next_call(started.1, 0x01, 0),
        is_initial_data(
            started.1.body@,
            4_194_304,
            transport@.channel,
            transport@.queue_manager,
        ),
{
    assert(started.1@.body == started.1.body@);
    lemma_opening(transport@.queue_manager, transport@.channel);
}

/// A send goes where its target resolves to, and opens with initial data for
/// the queue manager named there, on the location's own channel.
pub proof fn a_send_starts_where_its_target_says(
    transport: &IbmMqTransport,
    target: &str,
    named: Named<'_>,
    bytes: &[u8],
    application_type: u32,
    result: Result<(&str, Sending, Segment), TransportError>,
)
    requires
        call_ensures(
            IbmMqTransport::send,
            (transport, target, named, bytes, application_type),
            result,
        ),
    ensures
        match resolved(transport@.server, transport@.queue_manager, target@, named@) {
            Err(fault) => fails_as(result, fault),
            Ok((server, queue_manager, queue)) => result matches Ok((to, sending, call)) && {
                &&& to@ == server
                &&& sending@.queue == queue
                &&& sending@.bytes == bytes@
                &&& sending@.application_type == application_type
                &&& sending@.stage matches StageView::Agreeing(client)
                &&& client.request == 1 && client.max_message == 4_194_304
                    && client.queue_manager == queue_manager
                &&& is_next_call(call, 0x01, 0)
                &&& is_initial_data(call.body@, 4_194_304, transport@.channel, queue_manager)
            },
        },
{
    match resolved(transport@.server, transport@.queue_manager, target@, named@) {
        Err(_) => {},
        Ok((_, queue_manager, _)) => {
            lemma_opening(queue_manager, transport@.channel);
            if let Ok((_, _, call)) = result {
                assert(call@.body == call.body@ && call@.kind == call.kind && call@.request
                    == call.request && call@.conversation == call.conversation);
            }
        },
    }
}

/// The client after one more request.
pub open spec fn one_on(client: ClientView) -> ClientView {
    ClientView { request: (client.request + 1) as u32, ..client }
}

/// Whether `call` is the next call of `client`, of type `kind`.
pub open spec fn is_call_by(call: SegmentView, client: ClientView, kind: int) -> bool {
    call.kind == kind && call.conversation == 1 && call.request == one_on(client).request
}

/// Whether an agreement comes to `agreed` and the connect `call`: the
/// smaller size, and this location's queue manager asked for as `xmip`.
pub open spec fn agrees(
    client: ClientView,
    body: Seq<u8>,
    kind: u32,
    agreed: ClientView,
    call: SegmentView,
) -> bool {
    &&& agreed.max_message == (if number_at(body, 15) < client.max_message {
        number_at(body, 15)
    } else {
        client.max_message
    })
    &&& agreed.queue_manager == client.queue_manager
    &&& client.request < u32::MAX ==> agreed.request == client.request + 1
    &&& call.kind == 0x81 && call.conversation == 1 && call.request == agreed.request
    &&& is_conn(call.body, client.queue_manager, seq!['x', 'm', 'i', 'p'], kind as int)
}

/// How initial data fails, if it does.
pub open spec fn disagrees(reply: Option<SegmentView>) -> Option<Fault> {
    match not_due(reply, 0x01, 0x01) {
        Some(fault) => Some(fault),
        None => if reply->0.body.len() < 96 || !opens_with(
            reply->0.body,
            0x49,
            0x44,
            0x20,
            0x20,
        ) {
            Some(
                Fault {
                    message: not_that(reply->0.body, seq![0x49u8, 0x44, 0x20, 0x20]),
                    retryable: false,
                },
            )
        } else {
            None
        },
    }
}

proof fn lemma_agrees(client: ClientView, reply: Option<SegmentView>, kind: u32)
    ensures
        match disagrees(reply) {
            Some(fault) => client.agree(reply, "xmip"@, kind) == Err::<
                (ClientView, SegmentView),
                Fault,
            >(fault),
            None => client.agree(reply, "xmip"@, kind) matches Ok((agreed, call)) && agrees(
                client,
                reply->0.body,
                kind,
                agreed,
                call,
            ),
        },
{
    reveal_strlit("xmip");
    assert("xmip"@ =~= seq!['x', 'm', 'i', 'p']);
    lemma_agreed(client, reply, "xmip"@, kind);
}

/// What a receive does next. After initial data it connects; once connected
/// it opens its queue for input (options 0x2001); once opened it gets on the
/// handle it was given; a message arrives under its id in hexadecimal and is
/// followed by another get; no message by a close of the handle; a close by a
/// disconnect; and then it is done with what arrived. Whatever fails ends it.
pub open spec fn receives_on(
    before: ReceivingView,
    reply: Option<SegmentView>,
    step: Result<ReceiveStepView, Fault>,
) -> bool {
    match before.stage {
        StageView::Agreeing(client) => match disagrees(reply) {
            Some(fault) => step == Err::<ReceiveStepView, Fault>(fault),
            None => {
                &&& step matches Ok(ReceiveStepView::Call(next, call))
                &&& next.stage matches StageView::Connecting(agreed)
                &&& next == (ReceivingView { stage: next.stage, ..before })
                &&& agrees(client, reply->0.body, before.application_type, agreed, call)
            },
        },
        StageView::Connecting(client) => match failure_of(reply, 0x81, 0x91) {
            Some(fault) => step == Err::<ReceiveStepView, Fault>(fault),
            None => {
                &&& step matches Ok(ReceiveStepView::Call(next, call))
                &&& next == (ReceivingView { stage: StageView::Opening(one_on(client)), ..before })
                &&& is_call_by(call, client, 0x83)
                &&& is_open(call.body, before.queue, 0x2001)
            },
        },
        StageView::Opening(client) => match failure_of(reply, 0x83, 0x93) {
            Some(fault) => step == Err::<ReceiveStepView, Fault>(fault),
            None => {
                let handle = number_at(reply->0.body, 12);
                &&& step matches Ok(ReceiveStepView::Call(next, call))
                &&& next == (ReceivingView {
                    stage: StageView::Working(one_on(client), handle),
                    ..before
                })
                &&& is_call_by(call, client, 0x85)
                &&& is_get(call.body, handle as int, client.max_message as int)
            },
        },
        StageView::Working(client, handle) => match not_due(reply, 0x85, 0x95) {
            Some(fault) => step == Err::<ReceiveStepView, Fault>(fault),
            None => {
                let body = reply->0.body;
                if body.len() >= 16 && number_at(body, 8) == 2033 {
                    &&& step matches Ok(ReceiveStepView::Call(next, call))
                    &&& next == (ReceivingView {
                        stage: StageView::Closing(one_on(client)),
                        ..before
                    })
                    &&& is_call_by(call, client, 0x84)
                    &&& is_close(call.body, handle as int)
                } else {
                    match not_granted(body) {
                        Some(fault) => step == Err::<ReceiveStepView, Fault>(fault),
                        None => match message_in(body) {
                            Err(message) => step == Err::<ReceiveStepView, Fault>(
                                Fault { message, retryable: false },
                            ),
                            Ok((id, bytes)) => {
                                &&& step matches Ok(ReceiveStepView::Call(next, call))
                                &&& next.stage == StageView::Working(one_on(client), handle)
                                &&& next == (ReceivingView {
                                    stage: next.stage,
                                    arrived: next.arrived,
                                    ..before
                                })
                                &&& next.arrived.len() == before.arrived.len() + 1
                                &&& next.arrived.drop_last() == before.arrived
                                &&& next.arrived.last().bytes == bytes
                                &&& next.arrived.last().origin_uri.len() == before.origin.len()
                                    + 48
                                &&& next.arrived.last().origin_uri.take(before.origin.len() as int)
                                    == before.origin
                                &&& is_hex(
                                    next.arrived.last().origin_uri.skip(
                                        before.origin.len() as int,
                                    ),
                                    id,
                                )
                                &&& is_call_by(call, client, 0x85)
                                &&& is_get(call.body, handle as int, client.max_message as int)
                            },
                        },
                    }
                }
            },
        },
        StageView::Closing(client) => match failure_of(reply, 0x84, 0x94) {
            Some(fault) => step == Err::<ReceiveStepView, Fault>(fault),
            None => {
                &&& step matches Ok(ReceiveStepView::Call(next, call))
                &&& next == (ReceivingView { stage: StageView::Leaving, ..before })
                &&& is_call_by(call, client, 0x82)
                &&& call.body.len() == 16 && holds_only(call.body, 0, 16, 0)
            },
        },
        StageView::Leaving => match failure_of(reply, 0x82, 0x92) {
            Some(fault) => step == Err::<ReceiveStepView, Fault>(fault),
            None => step == Ok::<ReceiveStepView, Fault>(ReceiveStepView::Done(before.arrived)),
        },
    }
}

proof fn lemma_bare()
    ensures
        api_bytes(api_call(0)).len() == 16,
        holds_only(api_bytes(api_call(0)), 0, 16, 0),
{
    calls_and_failures_by_their_places(0, 0);
    let header = api_bytes(api_call(0));
    assert(header[12] == 0 && header[13] == 0 && header[14] == 0 && header[15] == 0);
}

proof fn lemma_arrives(before: ReceivingView, id: Seq<u8>, bytes: Seq<u8>)
    requires
        id.len() == 24,
    ensures
        ({
            let stream = ArrivedView { origin_uri: before.origin + hex_of(id), bytes };
            let arrived = before.arrived.push(stream);
            &&& arrived.drop_last() == before.arrived
            &&& arrived.last() == stream
            &&& stream.origin_uri.len() == before.origin.len() + 48
            &&& stream.origin_uri.take(before.origin.len() as int) == before.origin
            &&& is_hex(stream.origin_uri.skip(before.origin.len() as int), id)
        }),
{
    let uri = before.origin + hex_of(id);
    bytes_are_two_digits_each(id);
    assert(uri.take(before.origin.len() as int) =~= before.origin);
    assert(uri.skip(before.origin.len() as int) =~= hex_of(id));
    let stream = ArrivedView { origin_uri: uri, bytes };
    assert(before.arrived.push(stream).drop_last() =~= before.arrived);
}

/// A receive does next what its stage and the reply ask for.
pub proof fn a_receive_goes_on_by_its_replies(before: ReceivingView, reply: Option<SegmentView>)
    ensures
        receives_on(before, reply, before.step(reply)),
{
    lemma_due();
    match before.stage {
        StageView::Agreeing(client) => {
            lemma_agrees(client, reply, before.application_type);
        },
        StageView::Connecting(client) => {
            lemma_granted(reply, 0x81, 0x91);
            the_open_options_by_their_bits();
            an_open_by_its_places(before.queue, 0x2001);
        },
        StageView::Opening(client) => {
            lemma_granted(reply, 0x83, 0x93);
            if failure_of(reply, 0x83, 0x93) is None {
                a_get_by_its_places(number_at(reply->0.body, 12), client.max_message);
            }
        },
        StageView::Working(client, handle) => {
            lemma_working(before, client, handle, reply);
        },
        StageView::Closing(client) => {
            lemma_granted(reply, 0x84, 0x94);
            lemma_bare();
        },
        StageView::Leaving => {
            lemma_granted(reply, 0x82, 0x92);
        },
    }
}

#[verifier::rlimit(40)]
proof fn lemma_working(
    before: ReceivingView,
    client: ClientView,
    handle: u32,
    reply: Option<SegmentView>,
)
    requires
        before.stage == StageView::Working(client, handle),
    ensures
        receives_on(before, reply, before.step(reply)),
{
    lemma_got(reply);
    a_close_by_its_places(handle);
    a_get_by_its_places(handle, client.max_message);
    if not_due(reply, 0x85, 0x95) is None {
        if let Ok((id, bytes)) = message_in(reply->0.body) {
            lemma_arrives(before, id, bytes);
        }
    }
}

/// Whether `result` is the step `expected`, by its fields.
pub open spec fn is_receive_step(
    result: Result<ReceiveStep, TransportError>,
    expected: Result<ReceiveStepView, Fault>,
) -> bool {
    match expected {
        Err(fault) => fails_as(result, fault),
        Ok(ReceiveStepView::Call(next, call)) => result matches Ok(ReceiveStep::Call(on, made))
            && on@ == next && fields_of(made) == call,
        Ok(ReceiveStepView::Done(arrived)) => result matches Ok(ReceiveStep::Done(streams))
            && streams@.len() == arrived.len() && forall|i: int|
            0 <= i < arrived.len() ==> (#[trigger] streams@[i]).origin_uri@
                == arrived[i].origin_uri && streams@[i].bytes@ == arrived[i].bytes,
    }
}

proof fn lemma_is_receive_step(
    result: Result<ReceiveStep, TransportError>,
    expected: Result<ReceiveStepView, Fault>,
)
    requires
        outcome(result) == expected,
    ensures
        is_receive_step(result, expected),
{
    match result {
        Ok(ReceiveStep::Call(_, made)) => {
            assert(made@ == fields_of(made));
        },
        Ok(ReceiveStep::Done(arrived)) => {
            let views = streams(arrived@);
            assert forall|i: int| 0 <= i < arrived@.len() implies (
            #[trigger] arrived@[i]).origin_uri@ == views[i].origin_uri && arrived@[i].bytes@
                == views[i].bytes by {
                assert(views[i] == arrived@[i]@);
            }
        },
        Err(_) => {},
    }
}

/// The client of a stage that still makes calls.
pub open spec fn client_of(stage: StageView) -> Option<ClientView> {
    match stage {
        StageView::Agreeing(client) => Some(client),
        StageView::Connecting(client) => Some(client),
        StageView::Opening(client) => Some(client),
        StageView::Working(client, _) => Some(client),
        StageView::Closing(client) => Some(client),
        StageView::Leaving => None,
    }
}

/// Whether a call is to follow and no request is left for it.
pub open spec fn is_spent(stage: StageView) -> bool {
    client_of(stage) matches Some(client) && client.request == u32::MAX
}

/// `step` does next what the reply asks for, and `take` does the same; it
/// gives nothing exactly where no request is left for the call that would
/// follow.
pub proof fn receive_steps_by_its_replies(
    receiving: Receiving,
    reply: Option<Segment>,
    stepped: Result<ReceiveStep, TransportError>,
    taken: Option<Result<ReceiveStep, TransportError>>,
)
    requires
        call_ensures(Receiving::step, (receiving, reply), stepped),
        call_ensures(Receiving::take, (receiving, reply), taken),
    ensures
        exists|step: Result<ReceiveStepView, Fault>|
            {
                &&& #[trigger] receives_on(receiving@, fields_of_any(reply), step)
                &&& is_receive_step(stepped, step)
                &&& taken is Some ==> is_receive_step(taken->0, step)
                &&& taken is None <==> (step is Ok && is_spent(receiving@.stage))
            },
{
    assert(received(reply) == fields_of_any(reply));
    let step = receiving@.step(fields_of_any(reply));
    a_receive_goes_on_by_its_replies(receiving@, fields_of_any(reply));
    lemma_is_receive_step(stepped, step);
    if taken is Some {
        lemma_is_receive_step(taken->0, step);
    }
    assert(receives_on(receiving@, fields_of_any(reply), step));
}

/// A location has a request left until its client has made the last there
/// is, and the largest message it says is its client's.
pub proof fn a_location_reaches_while_requests_are_left(
    receiving: &Receiving,
    sending: &Sending,
    receives: bool,
    sends: bool,
    size: Option<u32>,
)
    requires
        call_ensures(Receiving::reaches, (receiving,), receives),
        call_ensures(Sending::reaches, (sending,), sends),
        call_ensures(Sending::max_message, (sending,), size),
    ensures
        receives <==> (client_of(receiving@.stage) matches Some(client) ==> client.request
            < u32::MAX),
        sends <==> (client_of(sending@.stage) matches Some(client) ==> client.request < u32::MAX),
        match client_of(sending@.stage) {
            Some(client) => size == Some(client.max_message),
            None => size is None,
        },
{
}

/// What a send does next. After initial data it connects; once connected it
/// opens its queue for output (options 0x2010); once opened it puts its
/// bytes on the handle it was given, unless they are more than was agreed;
/// once they are put it closes the handle, and then it disconnects. Whatever
/// fails ends it.
pub open spec fn sends_on(
    before: SendingView,
    reply: Option<SegmentView>,
    over: Seq<char>,
    step: Result<SendStepView, Fault>,
) -> bool {
    match before.stage {
        StageView::Agreeing(client) => match disagrees(reply) {
            Some(fault) => step == Err::<SendStepView, Fault>(fault),
            None => {
                &&& step matches Ok(SendStepView::Call(next, call))
                &&& next.stage matches StageView::Connecting(agreed)
                &&& next == (SendingView { stage: next.stage, ..before })
                &&& agrees(client, reply->0.body, before.application_type, agreed, call)
            },
        },
        StageView::Connecting(client) => match failure_of(reply, 0x81, 0x91) {
            Some(fault) => step == Err::<SendStepView, Fault>(fault),
            None => {
                &&& step matches Ok(SendStepView::Call(next, call))
                &&& next == (SendingView { stage: StageView::Opening(one_on(client)), ..before })
                &&& is_call_by(call, client, 0x83)
                &&& is_open(call.body, before.queue, 0x2010)
            },
        },
        StageView::Opening(client) => match failure_of(reply, 0x83, 0x93) {
            Some(fault) => step == Err::<SendStepView, Fault>(fault),
            None => {
                let handle = number_at(reply->0.body, 12);
                if before.bytes.len() > client.max_message {
                    step == Err::<SendStepView, Fault>(
                        Fault {
                            message: over + ": MQRC "@ + decimal(2031),
                            retryable: false,
                        },
                    )
                } else {
                    &&& step matches Ok(SendStepView::Call(next, call))
                    &&& next == (SendingView {
                        stage: StageView::Working(one_on(client), handle),
                        ..before
                    })
                    &&& is_call_by(call, client, 0x86)
                    &&& is_put(call.body, handle as int, before.bytes)
                }
            },
        },
        StageView::Working(client, handle) => match failure_of(reply, 0x86, 0x96) {
            Some(fault) => step == Err::<SendStepView, Fault>(fault),
            None => {
                let body = reply->0.body;
                if body.len() >= 340 && opens_with(body.skip(16), 0x4d, 0x44, 0x20, 0x20) {
                    &&& step matches Ok(SendStepView::Call(next, call))
                    &&& next == (SendingView {
                        stage: StageView::Closing(one_on(client)),
                        ..before
                    })
                    &&& is_call_by(call, client, 0x84)
                    &&& is_close(call.body, handle as int)
                } else {
                    step == Err::<SendStepView, Fault>(
                        Fault {
                            message: not_that(body.skip(16), seq![0x4du8, 0x44, 0x20, 0x20]),
                            retryable: false,
                        },
                    )
                }
            },
        },
        StageView::Closing(client) => match failure_of(reply, 0x84, 0x94) {
            Some(fault) => step == Err::<SendStepView, Fault>(fault),
            None => {
                &&& step matches Ok(SendStepView::Call(next, call))
                &&& next == (SendingView { stage: StageView::Leaving, ..before })
                &&& is_call_by(call, client, 0x82)
                &&& call.body.len() == 16 && holds_only(call.body, 0, 16, 0)
            },
        },
        StageView::Leaving => match failure_of(reply, 0x82, 0x92) {
            Some(fault) => step == Err::<SendStepView, Fault>(fault),
            None => step == Ok::<SendStepView, Fault>(SendStepView::Done),
        },
    }
}

/// A send does next what its stage and the reply ask for.
pub proof fn a_send_goes_on_by_its_replies(
    before: SendingView,
    reply: Option<SegmentView>,
    over: Seq<char>,
)
    ensures
        sends_on(before, reply, over, before.step(reply, over)),
{
    lemma_due();
    match before.stage {
        StageView::Agreeing(client) => {
            lemma_agrees(client, reply, before.application_type);
        },
        StageView::Connecting(client) => {
            lemma_granted(reply, 0x81, 0x91);
            the_open_options_by_their_bits();
            an_open_by_its_places(before.queue, 0x2010);
        },
        StageView::Opening(client) => {
            lemma_granted(reply, 0x83, 0x93);
            if failure_of(reply, 0x83, 0x93) is None {
                a_put_by_its_places(number_at(reply->0.body, 12), before.bytes);
            }
        },
        StageView::Working(client, handle) => {
            lemma_assigned(reply);
            a_close_by_its_places(handle);
        },
        StageView::Closing(client) => {
            lemma_granted(reply, 0x84, 0x94);
            lemma_bare();
        },
        StageView::Leaving => {
            lemma_granted(reply, 0x82, 0x92);
        },
    }
}

/// Whether `result` is the step `expected`, by its fields.
pub open spec fn is_send_step(
    result: Result<SendStep, TransportError>,
    expected: Result<SendStepView, Fault>,
) -> bool {
    match expected {
        Err(fault) => fails_as(result, fault),
        Ok(SendStepView::Call(next, call)) => result matches Ok(SendStep::Call(on, made)) && on@
            == next && fields_of(made) == call,
        Ok(SendStepView::Done) => result is Ok && result->Ok_0 is Done,
    }
}

proof fn lemma_is_send_step(
    result: Result<SendStep, TransportError>,
    expected: Result<SendStepView, Fault>,
)
    requires
        outcome(result) == expected,
    ensures
        is_send_step(result, expected),
{
    if let Ok(SendStep::Call(_, made)) = result {
        assert(made@ == fields_of(made));
    }
}

/// `step` does next what the reply asks for, and `take` does the same; it
/// gives nothing exactly where no request is left for the call that would
/// follow.
pub proof fn send_steps_by_its_replies(
    sending: Sending,
    reply: Option<Segment>,
    over: &str,
    stepped: Result<SendStep, TransportError>,
    taken: Option<Result<SendStep, TransportError>>,
)
    requires
        call_ensures(Sending::step, (sending, reply, over), stepped),
        call_ensures(Sending::take, (sending, reply, over), taken),
    ensures
        exists|step: Result<SendStepView, Fault>|
            {
                &&& #[trigger] sends_on(sending@, fields_of_any(reply), over@, step)
                &&& is_send_step(stepped, step)
                &&& taken is Some ==> is_send_step(taken->0, step)
                &&& taken is None <==> (step is Ok && is_spent(sending@.stage))
            },
{
    assert(received(reply) == fields_of_any(reply));
    let step = sending@.step(fields_of_any(reply), over@);
    a_send_goes_on_by_its_replies(sending@, fields_of_any(reply), over@);
    lemma_is_send_step(stepped, step);
    if taken is Some {
        lemma_is_send_step(taken->0, step);
    }
    assert(sends_on(sending@, fields_of_any(reply), over@, step));
}

/// Every open that a send makes asks for output (bit 4) and not for input
/// (bit 0), and every open that a receive makes the reverse.
pub proof fn a_send_opens_for_output_and_a_receive_for_input(
    sending: Sending,
    receiving: Receiving,
    reply: Option<Segment>,
    over: &str,
    sent: Result<SendStep, TransportError>,
    opened: Result<ReceiveStep, TransportError>,
)
    requires
        call_ensures(Sending::step, (sending, reply, over), sent),
        call_ensures(Receiving::step, (receiving, reply), opened),
    ensures
        sent matches Ok(SendStep::Call(_, call)) ==> call.kind == 0x83 ==> {
            let options = number_at(call.body@, 184);
            call.body@.len() == 188 && options & 0x10 != 0 && options & 0x01 == 0
        },
        opened matches Ok(ReceiveStep::Call(_, call)) ==> call.kind == 0x83 ==> {
            let options = number_at(call.body@, 184);
            call.body@.len() == 188 && options & 0x01 != 0 && options & 0x10 == 0
        },
{
    assert(0x2010u32 & 0x10 != 0 && 0x2010u32 & 0x01 == 0) by (bit_vector);
    assert(0x2001u32 & 0x01 != 0 && 0x2001u32 & 0x10 == 0) by (bit_vector);
    let fields = fields_of_any(reply);
    assert(received(reply) == fields);
    a_send_goes_on_by_its_replies(sending@, fields, over@);
    a_receive_goes_on_by_its_replies(receiving@, fields);
    lemma_is_send_step(sent, sending@.step(fields, over@));
    lemma_is_receive_step(opened, receiving@.step(fields));
}

} // verus!
