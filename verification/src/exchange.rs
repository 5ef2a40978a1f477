//! What a whole conversation comes to: a location that receives or sends
//! speaks with a queue manager's session until one of them is done, each
//! call answered and each reply taken.

use vstd::prelude::*;

use crate::arrived::ArrivedView;
use crate::client::{
    assigned_id, close_body, conn_body, get_body, got_message, open_body, put_body, too_big,
    ClientView, DEFAULT_MAX_MESSAGE, NO_MESSAGE, QUEUE_MANAGER_NAME_ERROR, UNKNOWN_OBJECT,
};
use crate::conversation::{
    a_closed_handle_is_refused, connecting_is_by_name, disconnecting_is_granted,
    getting_takes_the_oldest, is_call, opening_is_by_queue, putting_appends, reason_of, refused_for,
    the_smaller_size_is_agreed,
};
use crate::descriptor::{OPEN_FAIL_IF_QUIESCING, OPEN_INPUT, OPEN_OUTPUT};
use crate::error::Fault;
use crate::location::{
    origin_of, receive_started, send_started, ReceiveStepView, ReceivingView, SendStepView,
    SendingView, StageView, TransportView,
};
use crate::manager::{accepted, id_numbered, EventView, ManagerView, SessionView};
use crate::segment::{
    api_bytes, api_call, SegmentView, MQCLOSE, MQCONN, MQDISC, MQGET, MQOPEN, MQPUT,
};
use crate::text::{fits, hex_of};

verus! {

/// One call that was made: its type, the reason it was answered with, and
/// what it was to the queue manager.
#[verifier::ext_equal]
pub struct Made {
    pub kind: u8,
    pub reason: Option<u32>,
    pub event: Option<EventView>,
}

/// `call` as it is made to `session`.
#[verifier::opaque]
pub open spec fn made(session: SessionView, call: SegmentView) -> Made {
    match session.answer(call) {
        Err(_) => Made { kind: call.kind, reason: None, event: None },
        Ok((_, reply, event)) => Made {
            kind: call.kind,
            reason: reason_of(reply),
            event: Some(event),
        },
    }
}

/// A call of type `kind` that was answered with `reason` and was `event`.
pub open spec fn answered(kind: u8, reason: u32, event: EventView) -> Made {
    Made { kind, reason: Some(reason), event: Some(event) }
}

/// A call of type `kind` that was refused with `reason`.
pub open spec fn turned_away(kind: u8, reason: u32) -> Made {
    answered(kind, reason, EventView::Refused(reason))
}

/// A client's leave: the handle closed, then the disconnect.
pub open spec fn leave() -> Seq<Made> {
    seq![
        answered(MQCLOSE, 0, EventView::Closed),
        answered(MQDISC, 0, EventView::Disconnected),
    ]
}

proof fn lemma_made_conn(
    session: SessionView,
    call: SegmentView,
    queue_manager: Seq<char>,
    application_type: u32,
)
    requires
        is_call(call, MQCONN, conn_body(queue_manager, "xmip"@, application_type)),
        fits(queue_manager, 48),
    ensures
        made(session, call) == (if answers_to(session.manager, queue_manager) {
            answered(MQCONN, 0, EventView::Connected)
        } else {
            turned_away(MQCONN, QUEUE_MANAGER_NAME_ERROR)
        }),
{
    reveal(made);
    connecting_is_by_name(session, call, queue_manager, "xmip"@, application_type);
}

proof fn lemma_made_open(
    session: SessionView,
    call: SegmentView,
    queue: Seq<char>,
    options: u32,
)
    requires
        is_call(call, MQOPEN, open_body(queue, options)),
        fits(queue, 48),
    ensures
        made(session, call) == (if session.manager.queues.contains_key(queue) {
            answered(MQOPEN, 0, EventView::Opened(queue))
        } else {
            turned_away(MQOPEN, UNKNOWN_OBJECT)
        }),
{
    reveal(made);
    opening_is_by_queue(session, call, queue, options);
}

proof fn lemma_made_get(
    session: SessionView,
    call: SegmentView,
    handle: u32,
    max_message: u32,
)
    requires
        is_call(call, MQGET, get_body(handle, max_message)),
        session.handles.contains_key(handle),
        session.gets(handle) ==> session.manager.held(session.handles[handle])[0].len()
            <= u32::MAX,
    ensures
        made(session, call) == answered(
            MQGET,
            if session.gets(handle) {
                0
            } else {
                NO_MESSAGE
            },
            EventView::Got(session.handles[handle]),
        ),
{
    reveal(made);
    getting_takes_the_oldest(session, call, handle, max_message);
}

proof fn lemma_made_put(
    session: SessionView,
    call: SegmentView,
    handle: u32,
    bytes: Seq<u8>,
)
    requires
        is_call(call, MQPUT, put_body(handle, bytes)),
        session.handles.contains_key(handle),
        bytes.len() <= session.manager.max_message,
    ensures
        made(session, call) == answered(
            MQPUT,
            0,
            EventView::Put(
                ArrivedView { origin_uri: session.origin(session.handles[handle]), bytes },
            ),
        ),
{
    reveal(made);
    putting_appends(session, call, handle, bytes);
}

proof fn lemma_made_close(session: SessionView, call: SegmentView, handle: u32)
    requires
        is_call(call, MQCLOSE, close_body(handle)),
    ensures
        made(session, call) == answered(MQCLOSE, 0, EventView::Closed),
{
    reveal(made);
    a_closed_handle_is_refused(session, call, handle, Seq::empty());
}

proof fn lemma_made_disconnect(session: SessionView, call: SegmentView)
    requires
        is_call(call, MQDISC, api_bytes(api_call(0))),
    ensures
        made(session, call) == answered(MQDISC, 0, EventView::Disconnected),
{
    reveal(made);
    disconnecting_is_granted(session, call);
}

/// One exchange: what `session` answers to `call`, and what `receiving`
/// makes of the reply.
#[verifier::opaque]
pub open spec fn receive_exchange(
    session: SessionView,
    receiving: ReceivingView,
    call: SegmentView,
) -> Option<(SessionView, Result<ReceiveStepView, Fault>)> {
    match session.answer(call) {
        Err(_) => None,
        Ok((next, reply, _)) => Some((next, receiving.step(Some(reply)))),
    }
}

/// What `receiving` comes to against `session`, from the call `call` on, in
/// no more than `calls` calls: the session it leaves, and the Streams or
/// the failure it ends with.
pub open spec fn receive_run(
    session: SessionView,
    receiving: ReceivingView,
    call: SegmentView,
    calls: nat,
) -> Option<(SessionView, Result<Seq<ArrivedView>, Fault>)>
    decreases calls,
{
    if calls == 0 {
        None
    } else {
        match receive_exchange(session, receiving, call) {
            None => None,
            Some((next, Err(fault))) => Some((next, Err(fault))),
            Some((next, Ok(ReceiveStepView::Done(arrived)))) => Some((next, Ok(arrived))),
            Some((next, Ok(ReceiveStepView::Call(receiving, call)))) => receive_run(
                next,
                receiving,
                call,
                (calls - 1) as nat,
            ),
        }
    }
}

/// The calls that `receiving` makes to `session`, from the call `call` on,
/// in no more than `calls` calls.
pub open spec fn receive_calls(
    session: SessionView,
    receiving: ReceivingView,
    call: SegmentView,
    calls: nat,
) -> Seq<Made>
    decreases calls,
{
    if calls == 0 {
        Seq::empty()
    } else {
        seq![made(session, call)] + (match receive_exchange(session, receiving, call) {
            Some((next, Ok(ReceiveStepView::Call(receiving, call)))) => receive_calls(
                next,
                receiving,
                call,
                (calls - 1) as nat,
            ),
            _ => Seq::empty(),
        })
    }
}

/// The gets that take `count` messages from `queue`, and the one after them
/// that finds none.
pub open spec fn gets_of(queue: Seq<char>, count: nat) -> Seq<Made> {
    Seq::new(count, |i: int| answered(MQGET, 0, EventView::Got(queue))).push(
        answered(MQGET, NO_MESSAGE, EventView::Got(queue)),
    )
}

/// The Streams that `messages` are when they are got from the queue manager
/// `name`, the first with the message id numbered `number`.
pub open spec fn streams_of(
    origin: Seq<char>,
    name: Seq<char>,
    number: u32,
    messages: Seq<Seq<u8>>,
) -> Seq<ArrivedView> {
    Seq::new(
        messages.len(),
        |i: int|
            ArrivedView {
                origin_uri: origin + hex_of(id_numbered(name, (number + i) as u32)),
                bytes: messages[i],
            },
    )
}

proof fn lemma_receive_disconnects(
    session: SessionView,
    receiving: ReceivingView,
    call: SegmentView,
)
    requires
        receiving.stage == StageView::Leaving,
        is_call(call, MQDISC, api_bytes(api_call(0))),
    ensures
        receive_exchange(session, receiving, call) == Some(
            (session, Ok::<ReceiveStepView, Fault>(ReceiveStepView::Done(receiving.arrived))),
        ),
{
    reveal(receive_exchange);
    disconnecting_is_granted(session, call);
}

proof fn lemma_receive_closes(
    session: SessionView,
    receiving: ReceivingView,
    call: SegmentView,
    client: ClientView,
    handle: u32,
)
    requires
        receiving.stage == StageView::Closing(client),
        is_call(call, MQCLOSE, close_body(handle)),
    ensures
        receive_exchange(session, receiving, call) == Some(
            (
                SessionView { handles: session.handles.remove(handle), ..session },
                Ok::<ReceiveStepView, Fault>(
                    ReceiveStepView::Call(
                        ReceivingView { stage: StageView::Leaving, ..receiving },
                        client.call(MQDISC, api_bytes(api_call(0))).1,
                    ),
                ),
            ),
        ),
{
    reveal(receive_exchange);
    a_closed_handle_is_refused(session, call, handle, Seq::empty());
}

proof fn lemma_receive_leaves(
    session: SessionView,
    receiving: ReceivingView,
    call: SegmentView,
    client: ClientView,
    handle: u32,
    calls: nat,
)
    requires
        receiving.stage == StageView::Closing(client),
        is_call(call, MQCLOSE, close_body(handle)),
        calls >= 2,
    ensures
        receive_run(session, receiving, call, calls) == Some(
            (
                SessionView { handles: session.handles.remove(handle), ..session },
                Ok::<Seq<ArrivedView>, Fault>(receiving.arrived),
            ),
        ),
        receive_calls(session, receiving, call, calls) == leave(),
{
    let closed = SessionView { handles: session.handles.remove(handle), ..session };
    let leaving = ReceivingView { stage: StageView::Leaving, ..receiving };
    let last = client.call(MQDISC, api_bytes(api_call(0))).1;
    lemma_receive_closes(session, receiving, call, client, handle);
    lemma_receive_disconnects(closed, leaving, last);
    assert(receive_run(closed, leaving, last, (calls - 1) as nat) == Some(
        (closed, Ok::<Seq<ArrivedView>, Fault>(receiving.arrived)),
    ));
    lemma_made_close(session, call, handle);
    lemma_made_disconnect(closed, last);
    assert(receive_calls(closed, leaving, last, (calls - 1) as nat) =~= seq![made(closed, last)]);
    assert(receive_calls(session, receiving, call, calls) =~= seq![
        made(session, call),
        made(closed, last),
    ]);
}

proof fn lemma_exchanged(
    session: SessionView,
    receiving: ReceivingView,
    call: SegmentView,
    next: SessionView,
    reply: SegmentView,
    event: EventView,
    step: Result<ReceiveStepView, Fault>,
)
    requires
        session.answer(call) == Ok::<(SessionView, SegmentView, EventView), Fault>(
            (next, reply, event),
        ),
        receiving.step(Some(reply)) == step,
    ensures
        receive_exchange(session, receiving, call) == Some((next, step)),
{
    reveal(receive_exchange);
}

proof fn lemma_step_finds_none(
    receiving: ReceivingView,
    client: ClientView,
    handle: u32,
    reply: SegmentView,
)
    requires
        receiving.stage == StageView::Working(client, handle),
        got_message(Some(reply)) == Ok::<Option<(Seq<u8>, Seq<u8>)>, Fault>(None),
    ensures
        receiving.step(Some(reply)) == Ok::<ReceiveStepView, Fault>(
            ReceiveStepView::Call(
                ReceivingView {
                    stage: StageView::Closing(client.call(MQCLOSE, close_body(handle)).0),
                    ..receiving
                },
                client.call(MQCLOSE, close_body(handle)).1,
            ),
        ),
{
}

/// A get on an empty queue is followed by a close.
proof fn lemma_receive_finds_none(
    session: SessionView,
    receiving: ReceivingView,
    call: SegmentView,
    client: ClientView,
    handle: u32,
)
    requires
        receiving.stage == StageView::Working(client, handle),
        is_call(call, MQGET, get_body(handle, client.max_message)),
        session.handles.contains_key(handle),
        session.manager.held(session.handles[handle]).len() == 0,
    ensures
        receive_exchange(session, receiving, call) == Some(
            (
                session,
                Ok::<ReceiveStepView, Fault>(
                    ReceiveStepView::Call(
                        ReceivingView {
                            stage: StageView::Closing(
                                client.call(MQCLOSE, close_body(handle)).0,
                            ),
                            ..receiving
                        },
                        client.call(MQCLOSE, close_body(handle)).1,
                    ),
                ),
            ),
        ),
{
    getting_takes_the_oldest(session, call, handle, client.max_message);
    match session.answer(call) {
        Err(_) => {},
        Ok((next, reply, event)) => {
            lemma_step_finds_none(receiving, client, handle, reply);
            let step = receiving.step(Some(reply));
            lemma_exchanged(session, receiving, call, next, reply, event, step);
        },
    }
}

/// What a message makes of a location that awaits one.
spec fn gained(
    receiving: ReceivingView,
    client: ClientView,
    handle: u32,
    id: Seq<u8>,
    bytes: Seq<u8>,
) -> ReceiveStepView {
    let (later, get) = client.call(MQGET, get_body(handle, client.max_message));
    ReceiveStepView::Call(
        ReceivingView {
            stage: StageView::Working(later, handle),
            arrived: receiving.arrived.push(
                ArrivedView { origin_uri: receiving.origin + hex_of(id), bytes },
            ),
            ..receiving
        },
        get,
    )
}

proof fn lemma_step_gains(
    receiving: ReceivingView,
    client: ClientView,
    handle: u32,
    reply: SegmentView,
    id: Seq<u8>,
    bytes: Seq<u8>,
)
    requires
        receiving.stage == StageView::Working(client, handle),
        got_message(Some(reply)) == Ok::<Option<(Seq<u8>, Seq<u8>)>, Fault>(Some((id, bytes))),
    ensures
        receiving.step(Some(reply)) == Ok::<ReceiveStepView, Fault>(
            gained(receiving, client, handle, id, bytes),
        ),
{
}

/// A get on a queue that holds messages is followed by another.
proof fn lemma_receive_gets_one(
    session: SessionView,
    receiving: ReceivingView,
    call: SegmentView,
    client: ClientView,
    handle: u32,
)
    requires
        receiving.stage == StageView::Working(client, handle),
        is_call(call, MQGET, get_body(handle, client.max_message)),
        session.gets(handle),
        session.manager.held(session.handles[handle])[0].len() <= u32::MAX,
    ensures
        ({
            let queue = session.handles[handle];
            let held = session.manager.held(queue);
            receive_exchange(session, receiving, call) == Some(
                (
                    SessionView {
                        manager: ManagerView {
                            queues: session.manager.queues.insert(queue, held.drop_first()),
                            ..session.manager
                        },
                        next_id: (session.next_id + 1) as u32,
                        ..session
                    },
                    Ok::<ReceiveStepView, Fault>(
                        gained(receiving, client, handle, session.message_id(), held[0]),
                    ),
                ),
            )
        }),
{
    let held = session.manager.held(session.handles[handle]);
    getting_takes_the_oldest(session, call, handle, client.max_message);
    match session.answer(call) {
        Err(_) => {},
        Ok((next, reply, event)) => {
            lemma_step_gains(receiving, client, handle, reply, session.message_id(), held[0]);
            let step = Ok::<ReceiveStepView, Fault>(
                gained(receiving, client, handle, session.message_id(), held[0]),
            );
            lemma_exchanged(session, receiving, call, next, reply, event, step);
        },
    }
}

proof fn lemma_receive_drains(
    session: SessionView,
    receiving: ReceivingView,
    call: SegmentView,
    client: ClientView,
    handle: u32,
    calls: nat,
)
    requires
        receiving.stage == StageView::Working(client, handle),
        is_call(call, MQGET, get_body(handle, client.max_message)),
        session.handles.contains_key(handle),
        session.manager.queues.contains_key(session.handles[handle]),
        forall|i: int|
            0 <= i < session.manager.held(session.handles[handle]).len()
                ==> #[trigger] session.manager.held(session.handles[handle])[i].len() <= u32::MAX,
        session.next_id + session.manager.held(session.handles[handle]).len() <= u32::MAX,
        calls >= session.manager.held(session.handles[handle]).len() + 3,
    ensures
        ({
            let queue = session.handles[handle];
            let held = session.manager.held(queue);
            &&& receive_run(session, receiving, call, calls) matches Some((last, Ok(arrived)))
            &&& arrived == receiving.arrived + streams_of(
                receiving.origin,
                session.manager.name,
                session.next_id,
                held,
            )
            &&& last.manager == (ManagerView {
                queues: session.manager.queues.insert(queue, Seq::empty()),
                ..session.manager
            })
            &&& receive_calls(session, receiving, call, calls) == gets_of(queue, held.len())
                + leave()
        }),
    decreases session.manager.held(session.handles[handle]).len(),
{
    let queue = session.handles[handle];
    let held = session.manager.held(queue);
    let ids = streams_of(receiving.origin, session.manager.name, session.next_id, held);
    lemma_made_get(session, call, handle, client.max_message);
    if held.len() == 0 {
        let (later, close) = client.call(MQCLOSE, close_body(handle));
        let closing = ReceivingView { stage: StageView::Closing(later), ..receiving };
        lemma_receive_finds_none(session, receiving, call, client, handle);
        lemma_receive_leaves(session, closing, close, later, handle, (calls - 1) as nat);
        assert(receiving.arrived + ids =~= receiving.arrived);
        assert(receive_calls(session, receiving, call, calls) == seq![made(session, call)]
            + leave());
        assert(seq![made(session, call)] + leave() =~= gets_of(queue, 0) + leave());
        assert(held =~= Seq::empty());
        assert(session.manager.queues.insert(queue, Seq::empty()) =~= session.manager.queues);
    } else {
        let (later, get) = client.call(MQGET, get_body(handle, client.max_message));
        let stream = ArrivedView {
            origin_uri: receiving.origin + hex_of(session.message_id()),
            bytes: held[0],
        };
        let more = ReceivingView {
            stage: StageView::Working(later, handle),
            arrived: receiving.arrived.push(stream),
            ..receiving
        };
        let next = SessionView {
            manager: ManagerView {
                queues: session.manager.queues.insert(queue, held.drop_first()),
                ..session.manager
            },
            next_id: (session.next_id + 1) as u32,
            ..session
        };
        lemma_receive_gets_one(session, receiving, call, client, handle);
        let left = next.manager.held(queue);
        assert(left == held.drop_first());
        assert forall|i: int| 0 <= i < left.len() implies #[trigger] left[i].len()
            <= u32::MAX by {
            assert(left[i] == held[i + 1]);
        }
        lemma_receive_drains(next, more, get, later, handle, (calls - 1) as nat);
        let rest = streams_of(receiving.origin, session.manager.name, next.next_id, left);
        assert(receiving.arrived.push(stream) + rest =~= receiving.arrived + ids);
        assert(receive_calls(session, receiving, call, calls) == seq![made(session, call)] + (
        gets_of(queue, left.len()) + leave()));
        assert(seq![made(session, call)] + (gets_of(queue, left.len()) + leave()) =~= gets_of(
            queue,
            held.len(),
        ) + leave());
        assert(next.manager.queues.insert(queue, Seq::empty())
            =~= session.manager.queues.insert(queue, Seq::empty()));
    }
}

/// Whether a queue manager answers to `asked`: no name asks for any.
pub open spec fn answers_to(manager: ManagerView, asked: Seq<char>) -> bool {
    asked.len() == 0 || asked == manager.name
}

proof fn lemma_receive_connects(
    session: SessionView,
    receiving: ReceivingView,
    call: SegmentView,
    client: ClientView,
)
    requires
        receiving.stage == StageView::Connecting(client),
        is_call(
            call,
            MQCONN,
            conn_body(client.queue_manager, "xmip"@, receiving.application_type),
        ),
        fits(client.queue_manager, 48),
    ensures
        ({
            let (later, open) = client.call(
                MQOPEN,
                open_body(receiving.queue, OPEN_INPUT | OPEN_FAIL_IF_QUIESCING),
            );
            receive_exchange(session, receiving, call) == Some(
                (
                    session,
                    if answers_to(session.manager, client.queue_manager) {
                        Ok::<ReceiveStepView, Fault>(
                            ReceiveStepView::Call(
                                ReceivingView { stage: StageView::Opening(later), ..receiving },
                                open,
                            ),
                        )
                    } else {
                        Err(refused_for(QUEUE_MANAGER_NAME_ERROR))
                    },
                ),
            )
        }),
{
    reveal(receive_exchange);
    connecting_is_by_name(
        session,
        call,
        client.queue_manager,
        "xmip"@,
        receiving.application_type,
    );
}

#[verifier::rlimit(40)]
proof fn lemma_receive_opens(
    session: SessionView,
    receiving: ReceivingView,
    call: SegmentView,
    client: ClientView,
)
    requires
        receiving.stage == StageView::Opening(client),
        is_call(
            call,
            MQOPEN,
            open_body(receiving.queue, OPEN_INPUT | OPEN_FAIL_IF_QUIESCING),
        ),
        fits(receiving.queue, 48),
    ensures
        ({
            let handle = session.next_handle;
            let (later, get) = client.call(MQGET, get_body(handle, client.max_message));
            receive_exchange(session, receiving, call) == Some(
                if session.manager.queues.contains_key(receiving.queue) {
                    (
                        SessionView {
                            handles: session.handles.insert(handle, receiving.queue),
                            next_handle: (handle + 1) as u32,
                            ..session
                        },
                        Ok::<ReceiveStepView, Fault>(
                            ReceiveStepView::Call(
                                ReceivingView {
                                    stage: StageView::Working(later, handle),
                                    ..receiving
                                },
                                get,
                            ),
                        ),
                    )
                } else {
                    (session, Err(refused_for(UNKNOWN_OBJECT)))
                },
            )
        }),
{
    reveal(receive_exchange);
    opening_is_by_queue(
        session,
        call,
        receiving.queue,
        OPEN_INPUT | OPEN_FAIL_IF_QUIESCING,
    );
}

/// The calls that a receive from `queue` makes to `manager`, asked for as
/// `queue_manager`: connect, open, one get for each message and one that
/// finds none, close, disconnect; or up to the first that is refused.
pub open spec fn calls_to_receive(
    manager: ManagerView,
    queue_manager: Seq<char>,
    queue: Seq<char>,
) -> Seq<Made> {
    if !answers_to(manager, queue_manager) {
        seq![turned_away(MQCONN, QUEUE_MANAGER_NAME_ERROR)]
    } else if !manager.queues.contains_key(queue) {
        seq![answered(MQCONN, 0, EventView::Connected), turned_away(MQOPEN, UNKNOWN_OBJECT)]
    } else {
        seq![
            answered(MQCONN, 0, EventView::Connected),
            answered(MQOPEN, 0, EventView::Opened(queue)),
        ] + (gets_of(queue, manager.held(queue).len()) + leave())
    }
}

/// The calls that a location's receive makes to `manager` once the two have
/// agreed, in no more than `calls` calls.
pub open spec fn calls_of_receive(
    manager: ManagerView,
    transport: TransportView,
    application_type: u32,
    calls: nat,
) -> Seq<Made> {
    let (receiving, opening) = receive_started(transport, application_type);
    match accepted(manager, Some(opening)) {
        Ok((session, answer)) => match receiving.step(Some(answer)) {
            Ok(ReceiveStepView::Call(receiving, call)) => receive_calls(
                session,
                receiving,
                call,
                calls,
            ),
            _ => Seq::empty(),
        },
        Err(_) => Seq::empty(),
    }
}

/// What a location's receive comes to against `manager`, in no more than
/// `calls` calls: the queue manager it leaves, and the Streams or the
/// failure it ends with.
pub open spec fn received_from(
    manager: ManagerView,
    transport: TransportView,
    application_type: u32,
    calls: nat,
) -> Option<(ManagerView, Result<Seq<ArrivedView>, Fault>)> {
    let (receiving, opening) = receive_started(transport, application_type);
    match accepted(manager, Some(opening)) {
        Err(_) => None,
        Ok((session, answer)) => match receiving.step(Some(answer)) {
            Err(fault) => Some((manager, Err(fault))),
            Ok(ReceiveStepView::Done(arrived)) => Some((manager, Ok(arrived))),
            Ok(ReceiveStepView::Call(receiving, call)) => match receive_run(
                session,
                receiving,
                call,
                calls,
            ) {
                None => None,
                Some((last, result)) => Some((last.manager, result)),
            },
        },
    }
}

/// A receive gets every message of its queue, oldest first, each as its
/// bytes with its message id in the origin, and leaves the queue empty and
/// the others as they were. Where the queue manager goes by another name
/// the receive fails with `2058`, where it has no such queue with `2085`,
/// and then it is as it was. With k messages it makes k + 1 gets, the last
/// answered `2033`, between its connect and open and its close and
/// disconnect; once refused it makes no more calls.
pub proof fn a_receive_gets_every_message(
    manager: ManagerView,
    transport: TransportView,
    application_type: u32,
    calls: nat,
)
    requires
        fits(transport.queue_manager, 48),
        fits(transport.queue, 48),
        forall|i: int|
            0 <= i < manager.held(transport.queue).len() ==> #[trigger] manager.held(
                transport.queue,
            )[i].len() <= u32::MAX,
        manager.held(transport.queue).len() < u32::MAX,
        calls >= manager.held(transport.queue).len() + 5,
    ensures
        received_from(manager, transport, application_type, calls) == Some(
            if !answers_to(manager, transport.queue_manager) {
                (manager, Err(refused_for(QUEUE_MANAGER_NAME_ERROR)))
            } else if !manager.queues.contains_key(transport.queue) {
                (manager, Err(refused_for(UNKNOWN_OBJECT)))
            } else {
                (
                    ManagerView {
                        queues: manager.queues.insert(transport.queue, Seq::empty()),
                        ..manager
                    },
                    Ok::<Seq<ArrivedView>, Fault>(
                        streams_of(
                            origin_of(
                                transport.server,
                                transport.queue_manager,
                                transport.queue,
                            ),
                            manager.name,
                            1,
                            manager.held(transport.queue),
                        ),
                    ),
                )
            },
        ),
        calls_of_receive(manager, transport, application_type, calls) == calls_to_receive(
            manager,
            transport.queue_manager,
            transport.queue,
        ),
{
    let (receiving, opening) = receive_started(transport, application_type);
    the_smaller_size_is_agreed(
        manager,
        transport.queue_manager,
        transport.channel,
        "xmip"@,
        application_type,
    );
    let (session, answer) = accepted(manager, Some(opening))->Ok_0;
    let client = ClientView::connect(transport.queue_manager, transport.channel).0;
    let (agreed, conn) = client.agree(Some(answer), "xmip"@, application_type)->Ok_0;
    let connecting = ReceivingView { stage: StageView::Connecting(agreed), ..receiving };
    assert(receiving.step(Some(answer)) == Ok::<ReceiveStepView, Fault>(
        ReceiveStepView::Call(connecting, conn),
    ));
    lemma_received(session, connecting, conn, agreed, calls);
    assert(Seq::<ArrivedView>::empty() + streams_of(
        receiving.origin,
        manager.name,
        1,
        manager.held(transport.queue),
    ) =~= streams_of(receiving.origin, manager.name, 1, manager.held(transport.queue)));
}

proof fn lemma_received(
    session: SessionView,
    receiving: ReceivingView,
    call: SegmentView,
    client: ClientView,
    calls: nat,
)
    requires
        receiving.stage == StageView::Connecting(client),
        is_call(
            call,
            MQCONN,
            conn_body(client.queue_manager, "xmip"@, receiving.application_type),
        ),
        fits(client.queue_manager, 48),
        fits(receiving.queue, 48),
        forall|i: int|
            0 <= i < session.manager.held(receiving.queue).len()
                ==> #[trigger] session.manager.held(receiving.queue)[i].len() <= u32::MAX,
        session.next_id + session.manager.held(receiving.queue).len() <= u32::MAX,
        calls >= session.manager.held(receiving.queue).len() + 5,
    ensures
        ({
            let manager = session.manager;
            let held = manager.held(receiving.queue);
            &&& receive_run(session, receiving, call, calls) matches Some((last, result))
            &&& if !answers_to(manager, client.queue_manager) {
                &&& last.manager == manager
                &&& result == Err::<Seq<ArrivedView>, Fault>(
                    refused_for(QUEUE_MANAGER_NAME_ERROR),
                )
            } else if !manager.queues.contains_key(receiving.queue) {
                &&& last.manager == manager
                &&& result == Err::<Seq<ArrivedView>, Fault>(refused_for(UNKNOWN_OBJECT))
            } else {
                &&& last.manager == (ManagerView {
                    queues: manager.queues.insert(receiving.queue, Seq::empty()),
                    ..manager
                })
                &&& result == Ok::<Seq<ArrivedView>, Fault>(
                    receiving.arrived + streams_of(
                        receiving.origin,
                        manager.name,
                        session.next_id,
                        held,
                    ),
                )
            }
            &&& receive_calls(session, receiving, call, calls) == calls_to_receive(
                manager,
                client.queue_manager,
                receiving.queue,
            )
        }),
{
    lemma_receive_connects(session, receiving, call, client);
    lemma_made_conn(session, call, client.queue_manager, receiving.application_type);
    let first = made(session, call);
    if answers_to(session.manager, client.queue_manager) {
        let (later, open) = client.call(
            MQOPEN,
            open_body(receiving.queue, OPEN_INPUT | OPEN_FAIL_IF_QUIESCING),
        );
        let opening = ReceivingView { stage: StageView::Opening(later), ..receiving };
        assert(receive_run(session, receiving, call, calls) == receive_run(
            session,
            opening,
            open,
            (calls - 1) as nat,
        ));
        lemma_receive_opens(session, opening, open, later);
        lemma_made_open(
            session,
            open,
            receiving.queue,
            OPEN_INPUT | OPEN_FAIL_IF_QUIESCING,
        );
        let second = made(session, open);
        assert(receive_calls(session, receiving, call, calls) == seq![first] + receive_calls(
            session,
            opening,
            open,
            (calls - 1) as nat,
        ));
        if session.manager.queues.contains_key(receiving.queue) {
            let handle = session.next_handle;
            let (last, get) = later.call(MQGET, get_body(handle, later.max_message));
            let opened = SessionView {
                handles: session.handles.insert(handle, receiving.queue),
                next_handle: (handle + 1) as u32,
                ..session
            };
            let working = ReceivingView { stage: StageView::Working(last, handle), ..opening };
            assert(receive_run(session, opening, open, (calls - 1) as nat) == receive_run(
                opened,
                working,
                get,
                (calls - 2) as nat,
            ));
            lemma_receive_drains(opened, working, get, last, handle, (calls - 2) as nat);
            let rest = gets_of(
                receiving.queue,
                session.manager.held(receiving.queue).len(),
            ) + leave();
            assert(receive_calls(session, opening, open, (calls - 1) as nat) == seq![second]
                + rest);
            assert(seq![first] + (seq![second] + rest) =~= seq![first, second] + rest);
        } else {
            assert(receive_calls(session, opening, open, (calls - 1) as nat) =~= seq![second]);
            assert(seq![first] + seq![second] =~= seq![first, second]);
        }
    } else {
        assert(receive_calls(session, receiving, call, calls) =~= seq![first]);
    }
}

/// One exchange: what `session` answers to `call`, and what `sending` makes
/// of the reply, with `over` for words where its message is too big.
#[verifier::opaque]
pub open spec fn send_exchange(
    session: SessionView,
    sending: SendingView,
    call: SegmentView,
    over: Seq<char>,
) -> Option<(SessionView, Result<SendStepView, Fault>)> {
    match session.answer(call) {
        Err(_) => None,
        Ok((next, reply, _)) => Some((next, sending.step(Some(reply), over))),
    }
}

/// What `sending` comes to against `session`, from the call `call` on, in
/// no more than `calls` calls: the session it leaves, and whether the
/// message was put or the failure it ends with.
pub open spec fn send_run(
    session: SessionView,
    sending: SendingView,
    call: SegmentView,
    calls: nat,
    over: Seq<char>,
) -> Option<(SessionView, Result<(), Fault>)>
    decreases calls,
{
    if calls == 0 {
        None
    } else {
        match send_exchange(session, sending, call, over) {
            None => None,
            Some((next, Err(fault))) => Some((next, Err(fault))),
            Some((next, Ok(SendStepView::Done))) => Some((next, Ok(()))),
            Some((next, Ok(SendStepView::Call(sending, call)))) => send_run(
                next,
                sending,
                call,
                (calls - 1) as nat,
                over,
            ),
        }
    }
}

/// The calls that `sending` makes to `session`, from the call `call` on, in
/// no more than `calls` calls.
pub open spec fn send_calls(
    session: SessionView,
    sending: SendingView,
    call: SegmentView,
    calls: nat,
    over: Seq<char>,
) -> Seq<Made>
    decreases calls,
{
    if calls == 0 {
        Seq::empty()
    } else {
        seq![made(session, call)] + (match send_exchange(session, sending, call, over) {
            Some((next, Ok(SendStepView::Call(sending, call)))) => send_calls(
                next,
                sending,
                call,
                (calls - 1) as nat,
                over,
            ),
            _ => Seq::empty(),
        })
    }
}

proof fn lemma_send_disconnects(
    session: SessionView,
    sending: SendingView,
    call: SegmentView,
    over: Seq<char>,
)
    requires
        sending.stage == StageView::Leaving,
        is_call(call, MQDISC, api_bytes(api_call(0))),
    ensures
        send_exchange(session, sending, call, over) == Some(
            (session, Ok::<SendStepView, Fault>(SendStepView::Done)),
        ),
{
    reveal(send_exchange);
    disconnecting_is_granted(session, call);
}

proof fn lemma_send_closes(
    session: SessionView,
    sending: SendingView,
    call: SegmentView,
    client: ClientView,
    handle: u32,
    over: Seq<char>,
)
    requires
        sending.stage == StageView::Closing(client),
        is_call(call, MQCLOSE, close_body(handle)),
    ensures
        send_exchange(session, sending, call, over) == Some(
            (
                SessionView { handles: session.handles.remove(handle), ..session },
                Ok::<SendStepView, Fault>(
                    SendStepView::Call(
                        SendingView { stage: StageView::Leaving, ..sending },
                        client.call(MQDISC, api_bytes(api_call(0))).1,
                    ),
                ),
            ),
        ),
{
    reveal(send_exchange);
    a_closed_handle_is_refused(session, call, handle, Seq::empty());
}

proof fn lemma_send_leaves(
    session: SessionView,
    sending: SendingView,
    call: SegmentView,
    client: ClientView,
    handle: u32,
    calls: nat,
    over: Seq<char>,
)
    requires
        sending.stage == StageView::Closing(client),
        is_call(call, MQCLOSE, close_body(handle)),
        calls >= 2,
    ensures
        send_run(session, sending, call, calls, over) == Some(
            (
                SessionView { handles: session.handles.remove(handle), ..session },
                Ok::<(), Fault>(()),
            ),
        ),
        send_calls(session, sending, call, calls, over) == leave(),
{
    let closed = SessionView { handles: session.handles.remove(handle), ..session };
    let leaving = SendingView { stage: StageView::Leaving, ..sending };
    let last = client.call(MQDISC, api_bytes(api_call(0))).1;
    lemma_send_closes(session, sending, call, client, handle, over);
    lemma_send_disconnects(closed, leaving, last, over);
    assert(send_run(closed, leaving, last, (calls - 1) as nat, over) == Some(
        (closed, Ok::<(), Fault>(())),
    ));
    lemma_made_close(session, call, handle);
    lemma_made_disconnect(closed, last);
    assert(send_calls(closed, leaving, last, (calls - 1) as nat, over) =~= seq![
        made(closed, last),
    ]);
    assert(send_calls(session, sending, call, calls, over) =~= seq![
        made(session, call),
        made(closed, last),
    ]);
}

/// The session once `bytes` are the newest of the queue that `handle` is
/// open on.
spec fn with_message(session: SessionView, handle: u32, bytes: Seq<u8>) -> SessionView {
    let queue = session.handles[handle];
    SessionView {
        manager: ManagerView {
            queues: session.manager.queues.insert(
                queue,
                session.manager.held(queue).push(bytes),
            ),
            ..session.manager
        },
        next_id: (session.next_id + 1) as u32,
        ..session
    }
}

proof fn lemma_step_puts(
    sending: SendingView,
    client: ClientView,
    handle: u32,
    reply: SegmentView,
    id: Seq<u8>,
    over: Seq<char>,
)
    requires
        sending.stage == StageView::Working(client, handle),
        assigned_id(Some(reply)) == Ok::<Seq<u8>, Fault>(id),
    ensures
        sending.step(Some(reply), over) == Ok::<SendStepView, Fault>(
            SendStepView::Call(
                SendingView {
                    stage: StageView::Closing(client.call(MQCLOSE, close_body(handle)).0),
                    ..sending
                },
                client.call(MQCLOSE, close_body(handle)).1,
            ),
        ),
{
}

proof fn lemma_sent(
    session: SessionView,
    sending: SendingView,
    call: SegmentView,
    next: SessionView,
    reply: SegmentView,
    event: EventView,
    step: Result<SendStepView, Fault>,
    over: Seq<char>,
)
    requires
        session.answer(call) == Ok::<(SessionView, SegmentView, EventView), Fault>(
            (next, reply, event),
        ),
        sending.step(Some(reply), over) == step,
    ensures
        send_exchange(session, sending, call, over) == Some((next, step)),
{
    reveal(send_exchange);
}

proof fn lemma_send_puts(
    session: SessionView,
    sending: SendingView,
    call: SegmentView,
    client: ClientView,
    handle: u32,
    over: Seq<char>,
)
    requires
        sending.stage == StageView::Working(client, handle),
        is_call(call, MQPUT, put_body(handle, sending.bytes)),
        session.handles.contains_key(handle),
        sending.bytes.len() <= session.manager.max_message,
    ensures
        send_exchange(session, sending, call, over) == Some(
            (
                with_message(session, handle, sending.bytes),
                Ok::<SendStepView, Fault>(
                    SendStepView::Call(
                        SendingView {
                            stage: StageView::Closing(
                                client.call(MQCLOSE, close_body(handle)).0,
                            ),
                            ..sending
                        },
                        client.call(MQCLOSE, close_body(handle)).1,
                    ),
                ),
            ),
        ),
{
    putting_appends(session, call, handle, sending.bytes);
    match session.answer(call) {
        Err(_) => {},
        Ok((next, reply, event)) => {
            lemma_step_puts(sending, client, handle, reply, session.message_id(), over);
            let step = sending.step(Some(reply), over);
            lemma_sent(session, sending, call, next, reply, event, step, over);
        },
    }
}

proof fn lemma_send_connects(
    session: SessionView,
    sending: SendingView,
    call: SegmentView,
    client: ClientView,
    over: Seq<char>,
)
    requires
        sending.stage == StageView::Connecting(client),
        is_call(
            call,
            MQCONN,
            conn_body(client.queue_manager, "xmip"@, sending.application_type),
        ),
        fits(client.queue_manager, 48),
    ensures
        ({
            let (later, open) = client.call(
                MQOPEN,
                open_body(sending.queue, OPEN_OUTPUT | OPEN_FAIL_IF_QUIESCING),
            );
            send_exchange(session, sending, call, over) == Some(
                (
                    session,
                    if answers_to(session.manager, client.queue_manager) {
                        Ok::<SendStepView, Fault>(
                            SendStepView::Call(
                                SendingView { stage: StageView::Opening(later), ..sending },
                                open,
                            ),
                        )
                    } else {
                        Err(refused_for(QUEUE_MANAGER_NAME_ERROR))
                    },
                ),
            )
        }),
{
    reveal(send_exchange);
    connecting_is_by_name(session, call, client.queue_manager, "xmip"@, sending.application_type);
}

#[verifier::rlimit(40)]
proof fn lemma_send_opens(
    session: SessionView,
    sending: SendingView,
    call: SegmentView,
    client: ClientView,
    over: Seq<char>,
)
    requires
        sending.stage == StageView::Opening(client),
        is_call(call, MQOPEN, open_body(sending.queue, OPEN_OUTPUT | OPEN_FAIL_IF_QUIESCING)),
        fits(sending.queue, 48),
    ensures
        ({
            let handle = session.next_handle;
            let (later, put) = client.call(MQPUT, put_body(handle, sending.bytes));
            let opened = SessionView {
                handles: session.handles.insert(handle, sending.queue),
                next_handle: (handle + 1) as u32,
                ..session
            };
            send_exchange(session, sending, call, over) == Some(
                if !session.manager.queues.contains_key(sending.queue) {
                    (session, Err::<SendStepView, Fault>(refused_for(UNKNOWN_OBJECT)))
                } else if sending.bytes.len() > client.max_message {
                    (opened, Err(too_big(over)))
                } else {
                    (
                        opened,
                        Ok(
                            SendStepView::Call(
                                SendingView {
                                    stage: StageView::Working(later, handle),
                                    ..sending
                                },
                                put,
                            ),
                        ),
                    )
                },
            )
        }),
{
    reveal(send_exchange);
    opening_is_by_queue(session, call, sending.queue, OPEN_OUTPUT | OPEN_FAIL_IF_QUIESCING);
}

proof fn lemma_send_runs(
    session: SessionView,
    sending: SendingView,
    call: SegmentView,
    client: ClientView,
    calls: nat,
    over: Seq<char>,
)
    requires
        sending.stage == StageView::Connecting(client),
        is_call(
            call,
            MQCONN,
            conn_body(client.queue_manager, "xmip"@, sending.application_type),
        ),
        fits(client.queue_manager, 48),
        fits(sending.queue, 48),
        client.max_message <= session.manager.max_message,
        calls >= 5,
    ensures
        ({
            let manager = session.manager;
            &&& send_run(session, sending, call, calls, over) matches Some((last, result))
            &&& if !answers_to(manager, client.queue_manager) {
                &&& last.manager == manager
                &&& result == Err::<(), Fault>(refused_for(QUEUE_MANAGER_NAME_ERROR))
            } else if !manager.queues.contains_key(sending.queue) {
                &&& last.manager == manager
                &&& result == Err::<(), Fault>(refused_for(UNKNOWN_OBJECT))
            } else if sending.bytes.len() > client.max_message {
                &&& last.manager == manager
                &&& result == Err::<(), Fault>(too_big(over))
            } else {
                &&& last.manager == (ManagerView {
                    queues: manager.queues.insert(
                        sending.queue,
                        manager.held(sending.queue).push(sending.bytes),
                    ),
                    ..manager
                })
                &&& result == Ok::<(), Fault>(())
            }
            &&& send_calls(session, sending, call, calls, over) == calls_to_send(
                session,
                client.queue_manager,
                sending.queue,
                sending.bytes,
                client.max_message,
            )
        }),
{
    lemma_send_connects(session, sending, call, client, over);
    lemma_made_conn(session, call, client.queue_manager, sending.application_type);
    let first = made(session, call);
    if answers_to(session.manager, client.queue_manager) {
        let (later, open) = client.call(
            MQOPEN,
            open_body(sending.queue, OPEN_OUTPUT | OPEN_FAIL_IF_QUIESCING),
        );
        let opening = SendingView { stage: StageView::Opening(later), ..sending };
        assert(send_run(session, sending, call, calls, over) == send_run(
            session,
            opening,
            open,
            (calls - 1) as nat,
            over,
        ));
        lemma_send_opens(session, opening, open, later, over);
        lemma_made_open(session, open, sending.queue, OPEN_OUTPUT | OPEN_FAIL_IF_QUIESCING);
        let second = made(session, open);
        assert(send_calls(session, sending, call, calls, over) == seq![first] + send_calls(
            session,
            opening,
            open,
            (calls - 1) as nat,
            over,
        ));
        if session.manager.queues.contains_key(sending.queue) && sending.bytes.len()
            <= client.max_message {
            let handle = session.next_handle;
            let (last, put) = later.call(MQPUT, put_body(handle, sending.bytes));
            let opened = SessionView {
                handles: session.handles.insert(handle, sending.queue),
                next_handle: (handle + 1) as u32,
                ..session
            };
            let working = SendingView { stage: StageView::Working(last, handle), ..opening };
            assert(send_run(session, opening, open, (calls - 1) as nat, over) == send_run(
                opened,
                working,
                put,
                (calls - 2) as nat,
                over,
            ));
            lemma_send_puts(opened, working, put, last, handle, over);
            let (client, close) = last.call(MQCLOSE, close_body(handle));
            let closing = SendingView { stage: StageView::Closing(client), ..working };
            let held = with_message(opened, handle, sending.bytes);
            assert(send_run(opened, working, put, (calls - 2) as nat, over) == send_run(
                held,
                closing,
                close,
                (calls - 3) as nat,
                over,
            ));
            lemma_send_leaves(held, closing, close, client, handle, (calls - 3) as nat, over);
            lemma_made_put(opened, put, handle, sending.bytes);
            let third = made(opened, put);
            assert(send_calls(opened, working, put, (calls - 2) as nat, over) == seq![third]
                + leave());
            assert(send_calls(session, opening, open, (calls - 1) as nat, over) == seq![second]
                + (seq![third] + leave()));
            assert(seq![first] + (seq![second] + (seq![third] + leave())) =~= seq![
                first,
                second,
                third,
            ] + leave());
        } else {
            assert(send_calls(session, opening, open, (calls - 1) as nat, over) =~= seq![second]);
            assert(seq![first] + seq![second] =~= seq![first, second]);
        }
    } else {
        assert(send_calls(session, sending, call, calls, over) =~= seq![first]);
    }
}

/// The calls that a send of `bytes` to `queue` makes to `session`, asked for
/// as `queue_manager` and with `max_message` agreed: connect, open, put,
/// close, disconnect; or up to the first that is refused, and no put of a
/// message that is too big.
pub open spec fn calls_to_send(
    session: SessionView,
    queue_manager: Seq<char>,
    queue: Seq<char>,
    bytes: Seq<u8>,
    max_message: u32,
) -> Seq<Made> {
    let connect = answered(MQCONN, 0, EventView::Connected);
    let open = answered(MQOPEN, 0, EventView::Opened(queue));
    if !answers_to(session.manager, queue_manager) {
        seq![turned_away(MQCONN, QUEUE_MANAGER_NAME_ERROR)]
    } else if !session.manager.queues.contains_key(queue) {
        seq![connect, turned_away(MQOPEN, UNKNOWN_OBJECT)]
    } else if bytes.len() > max_message {
        seq![connect, open]
    } else {
        seq![
            connect,
            open,
            answered(
                MQPUT,
                0,
                EventView::Put(ArrivedView { origin_uri: session.origin(queue), bytes }),
            ),
        ] + leave()
    }
}

/// The calls that a send makes to `manager` once the two have agreed, in no
/// more than `calls` calls.
pub open spec fn calls_of_send(
    manager: ManagerView,
    queue_manager: Seq<char>,
    channel: Seq<char>,
    queue: Seq<char>,
    bytes: Seq<u8>,
    application_type: u32,
    calls: nat,
    over: Seq<char>,
) -> Seq<Made> {
    let (sending, opening) = send_started(queue_manager, channel, queue, bytes, application_type);
    match accepted(manager, Some(opening)) {
        Ok((session, answer)) => match sending.step(Some(answer), over) {
            Ok(SendStepView::Call(sending, call)) => send_calls(
                session,
                sending,
                call,
                calls,
                over,
            ),
            _ => Seq::empty(),
        },
        Err(_) => Seq::empty(),
    }
}

/// What a put of `bytes` on `queue` comes to against `manager`, asked for as
/// `queue_manager` on `channel`, in no more than `calls` calls and with
/// `over` for words where the message is too big: the queue manager it
/// leaves, and whether the message was put or the failure it ends with.
pub open spec fn sent_to(
    manager: ManagerView,
    queue_manager: Seq<char>,
    channel: Seq<char>,
    queue: Seq<char>,
    bytes: Seq<u8>,
    application_type: u32,
    calls: nat,
    over: Seq<char>,
) -> Option<(ManagerView, Result<(), Fault>)> {
    let (sending, opening) = send_started(queue_manager, channel, queue, bytes, application_type);
    match accepted(manager, Some(opening)) {
        Err(_) => None,
        Ok((session, answer)) => match sending.step(Some(answer), over) {
            Err(fault) => Some((manager, Err(fault))),
            Ok(SendStepView::Done) => Some((manager, Ok(()))),
            Ok(SendStepView::Call(sending, call)) => match send_run(
                session,
                sending,
                call,
                calls,
                over,
            ) {
                None => None,
                Some((last, result)) => Some((last.manager, result)),
            },
        },
    }
}

/// The size that a client agrees with `manager`.
pub open spec fn agreed_size(manager: ManagerView) -> u32 {
    if manager.max_message < DEFAULT_MAX_MESSAGE {
        manager.max_message
    } else {
        DEFAULT_MAX_MESSAGE
    }
}

/// A send puts its bytes as the newest message of the queue, and leaves the
/// other queues as they were. Where the queue manager goes by another name
/// the send fails with `2058`, where it has no such queue with `2085`, where
/// the message is over the agreed size with `2031` in the words `over`, and
/// then the queue manager is as it was. It makes one connect, open, put,
/// close and disconnect; once refused it makes no more calls, and of a
/// message that is too big no put.
pub proof fn a_send_puts_the_message(
    manager: ManagerView,
    queue_manager: Seq<char>,
    channel: Seq<char>,
    queue: Seq<char>,
    bytes: Seq<u8>,
    application_type: u32,
    calls: nat,
    over: Seq<char>,
)
    requires
        fits(queue_manager, 48),
        fits(queue, 48),
        calls >= 5,
    ensures
        sent_to(
            manager,
            queue_manager,
            channel,
            queue,
            bytes,
            application_type,
            calls,
            over,
        ) == Some(
            if !answers_to(manager, queue_manager) {
                (manager, Err::<(), Fault>(refused_for(QUEUE_MANAGER_NAME_ERROR)))
            } else if !manager.queues.contains_key(queue) {
                (manager, Err(refused_for(UNKNOWN_OBJECT)))
            } else if bytes.len() > agreed_size(manager) {
                (manager, Err(too_big(over)))
            } else {
                (
                    ManagerView {
                        queues: manager.queues.insert(queue, manager.held(queue).push(bytes)),
                        ..manager
                    },
                    Ok(()),
                )
            },
        ),
        calls_of_send(
            manager,
            queue_manager,
            channel,
            queue,
            bytes,
            application_type,
            calls,
            over,
        ) == calls_to_send(
            SessionView::fresh(manager),
            queue_manager,
            queue,
            bytes,
            agreed_size(manager),
        ),
{
    let (sending, opening) = send_started(queue_manager, channel, queue, bytes, application_type);
    the_smaller_size_is_agreed(manager, queue_manager, channel, "xmip"@, application_type);
    let (session, answer) = accepted(manager, Some(opening))->Ok_0;
    let client = ClientView::connect(queue_manager, channel).0;
    let (agreed, conn) = client.agree(Some(answer), "xmip"@, application_type)->Ok_0;
    let connecting = SendingView { stage: StageView::Connecting(agreed), ..sending };
    assert(sending.step(Some(answer), over) == Ok::<SendStepView, Fault>(
        SendStepView::Call(connecting, conn),
    ));
    lemma_send_runs(session, connecting, conn, agreed, calls, over);
}

/// What a send puts on an empty queue, a receive from that queue gets: the
/// same bytes, and the queue is empty again.
pub proof fn a_message_sent_is_the_message_received(
    manager: ManagerView,
    transport: TransportView,
    bytes: Seq<u8>,
    application_type: u32,
    calls: nat,
    over: Seq<char>,
)
    requires
        fits(transport.queue_manager, 48),
        fits(transport.queue, 48),
        answers_to(manager, transport.queue_manager),
        manager.queues.contains_key(transport.queue),
        manager.held(transport.queue).len() == 0,
        bytes.len() <= agreed_size(manager),
        calls >= 6,
    ensures
        ({
            &&& sent_to(
                manager,
                transport.queue_manager,
                transport.channel,
                transport.queue,
                bytes,
                application_type,
                calls,
                over,
            ) matches Some((between, Ok(_)))
            &&& received_from(between, transport, application_type, calls) matches Some(
                (last, Ok(arrived)),
            )
            &&& arrived.len() == 1
            &&& arrived[0].bytes == bytes
            &&& last == manager
        }),
{
    a_send_puts_the_message(
        manager,
        transport.queue_manager,
        transport.channel,
        transport.queue,
        bytes,
        application_type,
        calls,
        over,
    );
    let held = manager.held(transport.queue);
    let between = ManagerView {
        queues: manager.queues.insert(transport.queue, held.push(bytes)),
        ..manager
    };
    a_receive_gets_every_message(between, transport, application_type, calls);
    assert(held =~= Seq::empty());
    assert(between.queues.insert(transport.queue, Seq::empty()) =~= manager.queues);
}

} // verus!
