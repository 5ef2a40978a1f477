//! What holds between the two sides of a conversation: each call that a
//! client makes is answered by a queue manager's session, and what the
//! client takes from the reply is what the session did.

use vstd::prelude::*;

use crate::arrived::ArrivedView;
use crate::client::{
    assigned_id, close_body, conn_body, done, get_body, got_message, granted, judged, open_body,
    put_body, reason_fault, replied, too_big, ClientView, DEFAULT_MAX_MESSAGE, HANDLE_ERROR,
    NO_MESSAGE, QUEUE_MANAGER_NAME_ERROR, TOO_BIG, UNKNOWN_OBJECT,
};
use crate::descriptor::{
    get_options_bytes, get_options_read_back, initial_data_reads_back,
    message_descriptor_reads_back, object_bytes, object_reads_back, put_options_bytes,
    put_options_read_back, InitialDataView, MessageDescriptorView,
};
use crate::error::Fault;
use crate::manager::{accepted, id_numbered, refusal, EventView, ManagerView, SessionView};
use crate::segment::{
    api_bytes, api_call, api_decoded, api_failed, api_header_reads_back, be32_bytes,
    be32_reads_back, be32_value, nuls, ApiHeader, SegmentView, INITIAL_DATA, MQCLOSE, MQCONN,
    MQDISC, MQGET, MQOPEN, MQPUT, REPLY,
};
use crate::text::{field_keeps_width, field_of, field_reads_back, fits};

verus! {

/// A call of type `kind` with `body`, whatever its conversation and request.
pub open spec fn is_call(call: SegmentView, kind: u8, body: Seq<u8>) -> bool {
    call.kind == kind && call.body == body
}

/// What a call that the queue manager refused for `reason` comes to.
pub open spec fn refused_for(reason: u32) -> Fault {
    reason_fault(reason, "the queue manager refused"@)
}

/// The reason that `reply` gives, `0` where the call was granted; none where
/// it is too short to give one.
pub open spec fn reason_of(reply: SegmentView) -> Option<u32> {
    match api_decoded(reply.body) {
        Ok((header, _)) => Some(header.reason),
        Err(_) => None,
    }
}

proof fn lemma_regroup(a: Seq<u8>, b: Seq<u8>, c: Seq<u8>)
    ensures
        a + b + c == a + (b + c),
{
    assert(a + b + c =~= a + (b + c));
}

proof fn lemma_nothing_more(a: Seq<u8>)
    ensures
        a + Seq::<u8>::empty() == a,
{
    assert(a + Seq::<u8>::empty() =~= a);
}

proof fn lemma_first_of_two(a: Seq<u8>, b: Seq<u8>)
    ensures
        (a + b).take(a.len() as int) == a,
        (a + b).skip(a.len() as int) == b,
{
    assert((a + b).take(a.len() as int) =~= a);
    assert((a + b).skip(a.len() as int) =~= b);
}

/// A reply that opens with `header` is granted or refused by it.
proof fn lemma_reply(call: SegmentView, header: ApiHeader, rest: Seq<u8>)
    requires
        call.kind != INITIAL_DATA,
    ensures
        granted(call.kind, Some(call.reply(api_bytes(header) + rest))) == (match judged(header) {
            Ok(_) => Ok::<(ApiHeader, Seq<u8>), Fault>((header, rest)),
            Err(fault) => Err(fault),
        }),
        api_decoded(call.reply(api_bytes(header) + rest).body) == Ok::<
            (ApiHeader, Seq<u8>),
            Fault,
        >((header, rest)),
        replied(call.kind, Some(call.reply(api_bytes(header) + rest))) == Ok::<SegmentView, Fault>(
            call.reply(api_bytes(header) + rest),
        ),
{
    api_header_reads_back(header, rest);
}

/// A reply that is no more than a refusal is refused.
proof fn lemma_refusal(call: SegmentView, reason: u32, handle: u32)
    requires
        call.kind != INITIAL_DATA,
    ensures
        granted(call.kind, Some(call.reply(refusal(reason, handle).0))) == Err::<
            (ApiHeader, Seq<u8>),
            Fault,
        >(refused_for(reason)),
        api_decoded(call.reply(refusal(reason, handle).0).body) == Ok::<
            (ApiHeader, Seq<u8>),
            Fault,
        >((api_failed(reason, handle), Seq::<u8>::empty())),
        replied(call.kind, Some(call.reply(refusal(reason, handle).0))) == Ok::<SegmentView, Fault>(
            call.reply(refusal(reason, handle).0),
        ),
{
    let header = api_failed(reason, handle);
    lemma_reply(call, header, Seq::empty());
    lemma_nothing_more(api_bytes(header));
}

proof fn lemma_conn_body(queue_manager: Seq<char>, application: Seq<char>, application_type: u32)
    ensures
        api_decoded(conn_body(queue_manager, application, application_type)) matches Ok(
            (header, rest),
        ) && header == api_call(0) && rest.len() >= 48 && rest.take(48) == field_of(
            queue_manager,
            48,
        ),
{
    let named = field_of(queue_manager, 48);
    let opening = api_bytes(api_call(0));
    let by = field_of(application, 28);
    let kind = be32_bytes(application_type);
    let after = by + kind + nuls(32) + be32_bytes(0);
    field_keeps_width(queue_manager, 48);
    lemma_regroup(opening, named, by);
    lemma_regroup(opening, named + by, kind);
    lemma_regroup(opening, named + by + kind, nuls(32));
    lemma_regroup(opening, named + by + kind + nuls(32), be32_bytes(0));
    lemma_regroup(named, by, kind);
    lemma_regroup(named, by + kind, nuls(32));
    lemma_regroup(named, by + kind + nuls(32), be32_bytes(0));
    api_header_reads_back(api_call(0), named + after);
    lemma_first_of_two(named, after);
}

/// A client that asks for this queue manager by name, or for none by name,
/// is connected; one that asks for another is refused with `2058`. Either
/// way the session is as it was.
pub proof fn connecting_is_by_name(
    session: SessionView,
    call: SegmentView,
    queue_manager: Seq<char>,
    application: Seq<char>,
    application_type: u32,
)
    requires
        is_call(call, MQCONN, conn_body(queue_manager, application, application_type)),
        fits(queue_manager, 48),
    ensures
        ({
            let welcome = queue_manager.len() == 0 || queue_manager == session.manager.name;
            &&& session.answer(call) matches Ok((next, reply, event))
            &&& next == session
            &&& done(MQCONN, Some(reply)) == (if welcome {
                Ok::<(), Fault>(())
            } else {
                Err(refused_for(QUEUE_MANAGER_NAME_ERROR))
            })
            &&& event == (if welcome {
                EventView::Connected
            } else {
                EventView::Refused(QUEUE_MANAGER_NAME_ERROR)
            })
            &&& reason_of(reply) == Some(if welcome {
                0
            } else {
                QUEUE_MANAGER_NAME_ERROR
            })
        }),
{
    lemma_conn_body(queue_manager, application, application_type);
    field_reads_back(queue_manager, 48);
    let rest = api_decoded(call.body)->Ok_0.1;
    if queue_manager.len() > 0 && queue_manager != session.manager.name {
        lemma_refusal(call, QUEUE_MANAGER_NAME_ERROR, 0);
    } else {
        let told = field_of(session.manager.name, 48) + rest.skip(48);
        lemma_regroup(
            api_bytes(api_call(0)),
            field_of(session.manager.name, 48),
            rest.skip(48),
        );
        lemma_reply(call, api_call(0), told);
    }
}

/// A queue that is defined is opened, and the client takes a handle that
/// the session keeps for it; one that is not is refused with `2085`, and
/// the session is as it was.
pub proof fn opening_is_by_queue(
    session: SessionView,
    call: SegmentView,
    queue: Seq<char>,
    options: u32,
)
    requires
        is_call(call, MQOPEN, open_body(queue, options)),
        fits(queue, 48),
    ensures
        ({
            &&& session.answer(call) matches Ok((next, reply, event))
            &&& if session.manager.queues.contains_key(queue) {
                &&& granted(MQOPEN, Some(reply)) matches Ok((header, _))
                &&& header.handle == session.next_handle
                &&& next == (SessionView {
                    handles: session.handles.insert(header.handle, queue),
                    next_handle: (session.next_handle + 1) as u32,
                    ..session
                })
                &&& event == EventView::Opened(queue)
                &&& reason_of(reply) == Some(0u32)
            } else {
                &&& granted(MQOPEN, Some(reply)) == Err::<(ApiHeader, Seq<u8>), Fault>(
                    refused_for(UNKNOWN_OBJECT),
                )
                &&& next == session
                &&& event == EventView::Refused(UNKNOWN_OBJECT)
                &&& reason_of(reply) == Some(UNKNOWN_OBJECT)
            }
        }),
{
    let rest = object_bytes(queue) + be32_bytes(options);
    lemma_regroup(api_bytes(api_call(0)), object_bytes(queue), be32_bytes(options));
    api_header_reads_back(api_call(0), rest);
    object_reads_back(queue, be32_bytes(options));
    if session.manager.queues.contains_key(queue) {
        lemma_reply(call, api_call(session.next_handle), rest);
    } else {
        lemma_refusal(call, UNKNOWN_OBJECT, 0);
    }
}

proof fn lemma_message_id(session: SessionView)
    ensures
        session.message_id().len() == 24,
{
    field_keeps_width(session.manager.name, 8);
}

proof fn lemma_put_body(session: SessionView, handle: u32, bytes: Seq<u8>)
    requires
        bytes.len() <= u32::MAX,
    ensures
        api_decoded(put_body(handle, bytes)) matches Ok((header, rest)) && header == api_call(
            handle,
        ) && session.puts(handle, rest) == (if !session.handles.contains_key(handle) {
            Err::<(Seq<char>, MessageDescriptorView, Seq<u8>), u32>(HANDLE_ERROR)
        } else if bytes.len() > session.manager.max_message {
            Err(TOO_BIG)
        } else {
            Ok(
                (
                    session.handles[handle],
                    MessageDescriptorView::datagram("xmip"@).carried(),
                    bytes,
                ),
            )
        }),
{
    let md = MessageDescriptorView::datagram("xmip"@);
    let options = put_options_bytes(""@, bytes.len());
    let rest = md.bytes() + (options + bytes);
    lemma_regroup(api_bytes(api_call(handle)), md.bytes(), options);
    lemma_regroup(api_bytes(api_call(handle)), md.bytes() + options, bytes);
    lemma_regroup(md.bytes(), options, bytes);
    api_header_reads_back(api_call(handle), rest);
    message_descriptor_reads_back(md, options + bytes);
    put_options_read_back(""@, bytes.len(), bytes);
    assert(bytes.take(bytes.len() as int) =~= bytes);
}

proof fn lemma_put_answer(session: SessionView, call: SegmentView, header: ApiHeader, rest: Seq<u8>)
    requires
        call.kind == MQPUT,
        api_decoded(call.body) == Ok::<(ApiHeader, Seq<u8>), Fault>((header, rest)),
    ensures
        session.answer(call) == Ok::<(SessionView, SegmentView, EventView), Fault>(
            (
                session.put(header.handle, rest).0,
                call.reply(session.put(header.handle, rest).1),
                session.put(header.handle, rest).2,
            ),
        ),
{
}

#[verifier::rlimit(40)]
proof fn lemma_assigned(call: SegmentView, handle: u32, sent: MessageDescriptorView)
    requires
        call.kind == MQPUT,
        sent.message_id.len() == 24,
        sent.correlation_id.len() == 24,
    ensures
        assigned_id(Some(call.reply(api_bytes(api_call(handle)) + sent.bytes()))) == Ok::<
            Seq<u8>,
            Fault,
        >(sent.message_id),
        reason_of(call.reply(api_bytes(api_call(handle)) + sent.bytes())) == Some(0u32),
{
    message_descriptor_reads_back(sent, Seq::empty());
    lemma_nothing_more(sent.bytes());
    lemma_reply(call, api_call(handle), sent.bytes());
}

/// A message put on an open handle is the queue's newest, its bytes as they
/// were, and the id that the client takes is the one it was given. One over
/// what the queue manager carries is refused with `2031`, one on a handle
/// that is not open with `2019`, and then the session is as it was.
pub proof fn putting_appends(session: SessionView, call: SegmentView, handle: u32, bytes: Seq<u8>)
    requires
        is_call(call, MQPUT, put_body(handle, bytes)),
        bytes.len() <= u32::MAX,
    ensures
        ({
            &&& session.answer(call) matches Ok((next, reply, event))
            &&& if !session.handles.contains_key(handle) {
                &&& assigned_id(Some(reply)) == Err::<Seq<u8>, Fault>(refused_for(HANDLE_ERROR))
                &&& next == session
                &&& event == EventView::Refused(HANDLE_ERROR)
                &&& reason_of(reply) == Some(HANDLE_ERROR)
            } else if bytes.len() > session.manager.max_message {
                &&& assigned_id(Some(reply)) == Err::<Seq<u8>, Fault>(refused_for(TOO_BIG))
                &&& next == session
                &&& event == EventView::Refused(TOO_BIG)
                &&& reason_of(reply) == Some(TOO_BIG)
            } else {
                let queue = session.handles[handle];
                &&& reason_of(reply) == Some(0u32)
                &&& assigned_id(Some(reply)) == Ok::<Seq<u8>, Fault>(session.message_id())
                &&& next == (SessionView {
                    manager: ManagerView {
                        queues: session.manager.queues.insert(
                            queue,
                            session.manager.held(queue).push(bytes),
                        ),
                        ..session.manager
                    },
                    next_id: (session.next_id + 1) as u32,
                    ..session
                })
                &&& event == EventView::Put(
                    ArrivedView { origin_uri: session.origin(queue), bytes },
                )
            }
        }),
{
    lemma_put_body(session, handle, bytes);
    let rest = api_decoded(call.body)->Ok_0.1;
    lemma_put_answer(session, call, api_call(handle), rest);
    if !session.handles.contains_key(handle) {
        lemma_refusal(call, HANDLE_ERROR, handle);
    } else if bytes.len() > session.manager.max_message {
        lemma_refusal(call, TOO_BIG, handle);
    } else {
        let sent = MessageDescriptorView {
            message_id: session.message_id(),
            ..MessageDescriptorView::datagram("xmip"@).carried()
        };
        lemma_message_id(session);
        lemma_assigned(call, handle, sent);
    }
}

/// A message got from an open handle is the queue's oldest, its bytes as
/// they were put, and it is gone from the queue; an empty queue says `2033`,
/// which the client takes as no message; a handle that is not open is
/// refused with `2019`. In both of these the session is as it was.
#[verifier::rlimit(40)]
pub proof fn getting_takes_the_oldest(
    session: SessionView,
    call: SegmentView,
    handle: u32,
    max_message: u32,
)
    requires
        is_call(call, MQGET, get_body(handle, max_message)),
        session.gets(handle) ==> session.manager.held(session.handles[handle])[0].len()
            <= u32::MAX,
    ensures
        ({
            &&& session.answer(call) matches Ok((next, reply, event))
            &&& if !session.handles.contains_key(handle) {
                &&& got_message(Some(reply)) == Err::<Option<(Seq<u8>, Seq<u8>)>, Fault>(
                    refused_for(HANDLE_ERROR),
                )
                &&& next == session
                &&& event == EventView::Refused(HANDLE_ERROR)
                &&& reason_of(reply) == Some(HANDLE_ERROR)
            } else {
                let queue = session.handles[handle];
                let held = session.manager.held(queue);
                &&& event == EventView::Got(queue)
                &&& if held.len() == 0 {
                    &&& got_message(Some(reply)) == Ok::<Option<(Seq<u8>, Seq<u8>)>, Fault>(None)
                    &&& reason_of(reply) == Some(NO_MESSAGE)
                    &&& next == session
                } else {
                    &&& got_message(Some(reply)) == Ok::<Option<(Seq<u8>, Seq<u8>)>, Fault>(
                        Some((session.message_id(), held[0])),
                    )
                    &&& reason_of(reply) == Some(0u32)
                    &&& next == (SessionView {
                        manager: ManagerView {
                            queues: session.manager.queues.insert(queue, held.drop_first()),
                            ..session.manager
                        },
                        next_id: (session.next_id + 1) as u32,
                        ..session
                    })
                }
            }
        }),
{
    let descriptor = MessageDescriptorView::datagram(""@).bytes();
    let limit = get_options_bytes(""@, max_message as nat);
    lemma_regroup(api_bytes(api_call(handle)), descriptor, limit);
    api_header_reads_back(api_call(handle), descriptor + limit);
    if !session.handles.contains_key(handle) {
        lemma_refusal(call, HANDLE_ERROR, handle);
    } else {
        let queue = session.handles[handle];
        let held = session.manager.held(queue);
        if held.len() == 0 {
            lemma_refusal(call, NO_MESSAGE, handle);
        } else {
            let bytes = held[0];
            let md = MessageDescriptorView {
                message_id: session.message_id(),
                ..MessageDescriptorView::datagram("xmip"@)
            };
            let options = get_options_bytes(queue, bytes.len());
            lemma_message_id(session);
            message_descriptor_reads_back(md, options + bytes);
            get_options_read_back(queue, bytes.len(), bytes);
            let rest = md.bytes() + (options + bytes);
            lemma_regroup(api_bytes(api_call(handle)), md.bytes(), options);
            lemma_regroup(api_bytes(api_call(handle)), md.bytes() + options, bytes);
            lemma_regroup(md.bytes(), options, bytes);
            lemma_reply(call, api_call(handle), rest);
            assert(bytes.take(bytes.len() as int) =~= bytes);
        }
    }
}

/// A message put on an empty queue is the message got from it: the same
/// bytes, and the queue is empty again.
pub proof fn a_message_put_is_the_message_got(
    session: SessionView,
    put: SegmentView,
    get: SegmentView,
    putting: u32,
    getting: u32,
    bytes: Seq<u8>,
    max_message: u32,
)
    requires
        is_call(put, MQPUT, put_body(putting, bytes)),
        is_call(get, MQGET, get_body(getting, max_message)),
        session.wf(),
        session.handles.contains_key(putting),
        session.handles.contains_key(getting),
        session.handles[putting] == session.handles[getting],
        session.manager.held(session.handles[putting]).len() == 0,
        bytes.len() <= session.manager.max_message,
    ensures
        ({
            &&& session.answer(put) matches Ok((between, _, _))
            &&& between.answer(get) matches Ok((next, reply, _))
            &&& got_message(Some(reply)) matches Ok(Some((_, got)))
            &&& got == bytes
            &&& next.manager == session.manager
        }),
{
    let queue = session.handles[putting];
    putting_appends(session, put, putting, bytes);
    let between = session.answer(put)->Ok_0.0;
    let held = session.manager.held(queue);
    assert(between.manager.held(queue) =~= seq![bytes]);
    getting_takes_the_oldest(between, get, getting, max_message);
    let next = between.answer(get)->Ok_0.0;
    assert(between.manager.held(queue).drop_first() =~= held);
    assert(next.manager.queues =~= session.manager.queues);
}

/// Messages leave a queue in the order in which they were put: with
/// messages ahead of it, a put leaves the one at the front, and that is the
/// one got.
pub proof fn a_put_waits_its_turn(
    session: SessionView,
    put: SegmentView,
    get: SegmentView,
    handle: u32,
    bytes: Seq<u8>,
    max_message: u32,
)
    requires
        is_call(put, MQPUT, put_body(handle, bytes)),
        is_call(get, MQGET, get_body(handle, max_message)),
        session.gets(handle),
        session.manager.held(session.handles[handle])[0].len() <= u32::MAX,
        bytes.len() <= session.manager.max_message,
    ensures
        ({
            let queue = session.handles[handle];
            let held = session.manager.held(queue);
            &&& session.answer(put) matches Ok((between, _, _))
            &&& between.answer(get) matches Ok((next, reply, _))
            &&& got_message(Some(reply)) matches Ok(Some((_, got)))
            &&& got == held[0]
            &&& next.manager.held(queue) == held.drop_first().push(bytes)
        }),
{
    let queue = session.handles[handle];
    let held = session.manager.held(queue);
    putting_appends(session, put, handle, bytes);
    let between = session.answer(put)->Ok_0.0;
    assert(between.manager.held(queue) == held.push(bytes));
    getting_takes_the_oldest(between, get, handle, max_message);
    assert(held.push(bytes).drop_first() =~= held.drop_first().push(bytes));
}

/// A close is always granted, and the handle is then open on nothing: what
/// is put or got on it is refused.
pub proof fn a_closed_handle_is_refused(
    session: SessionView,
    call: SegmentView,
    handle: u32,
    body: Seq<u8>,
)
    requires
        is_call(call, MQCLOSE, close_body(handle)),
    ensures
        ({
            &&& session.answer(call) matches Ok((next, reply, event))
            &&& done(MQCLOSE, Some(reply)) == Ok::<(), Fault>(())
            &&& event == EventView::Closed
            &&& reason_of(reply) == Some(0u32)
            &&& next == (SessionView { handles: session.handles.remove(handle), ..session })
            &&& next.puts(handle, body) == Err::<
                (Seq<char>, MessageDescriptorView, Seq<u8>),
                u32,
            >(HANDLE_ERROR)
            &&& next.get(handle).2 == EventView::Refused(HANDLE_ERROR)
        }),
{
    api_header_reads_back(api_call(handle), be32_bytes(0));
    lemma_nothing_more(api_bytes(api_call(handle)));
    lemma_reply(call, api_call(handle), Seq::empty());
}

/// A disconnect is always granted, and changes nothing that the queue
/// manager holds.
pub proof fn disconnecting_is_granted(session: SessionView, call: SegmentView)
    requires
        is_call(call, MQDISC, api_bytes(api_call(0))),
    ensures
        ({
            &&& session.answer(call) matches Ok((next, reply, event))
            &&& done(MQDISC, Some(reply)) == Ok::<(), Fault>(())
            &&& event == EventView::Disconnected
            &&& reason_of(reply) == Some(0u32)
            &&& next == session
        }),
{
    api_header_reads_back(api_call(0), Seq::empty());
    lemma_nothing_more(api_bytes(api_call(0)));
    lemma_reply(call, api_call(0), Seq::empty());
}

/// A call that is refused, with whatever reason, leaves the session as it
/// was.
pub proof fn a_refused_call_changes_nothing(session: SessionView, call: SegmentView)
    ensures
        session.answer(call) matches Ok((next, _, event)) ==> (event is Refused ==> next
            == session),
{
}

/// A reply is its call's type with the reply bit, on the same conversation
/// and with the same request id.
pub proof fn a_reply_is_to_its_call(session: SessionView, call: SegmentView)
    ensures
        session.answer(call) matches Ok((_, reply, _)) ==> reply.kind == call.kind | REPLY
            && reply.conversation == call.conversation && reply.request == call.request,
{
}

/// Every call keeps the handles on queues that are defined, the queues
/// defined, and the queue manager's name and size.
pub proof fn every_call_keeps_the_session_sound(session: SessionView, call: SegmentView)
    requires
        session.wf(),
        session.reaches(call),
    ensures
        session.answer(call) matches Ok((next, _, _)) ==> {
            &&& next.wf()
            &&& next.manager.name == session.manager.name
            &&& next.manager.max_message == session.manager.max_message
            &&& next.manager.queues.dom() == session.manager.queues.dom()
        },
{
    if let Ok((next, _, _)) = session.answer(call) {
        assert(next.manager.queues.dom() =~= session.manager.queues.dom());
    }
}

/// A call changes what one queue holds at most: a put appends to the queue
/// its handle is open on, a get takes from its front, and every other queue
/// holds what it held.
pub proof fn other_queues_are_untouched(session: SessionView, call: SegmentView, queue: Seq<char>)
    requires
        session.wf(),
        session.manager.queues.contains_key(queue),
    ensures
        session.answer(call) matches Ok((next, _, event)) ==> (next.manager.held(queue)
            == session.manager.held(queue) || (event is Put && next.manager.held(queue)
            == session.manager.held(queue).push(event->Put_0.bytes)) || (event == EventView::Got(
            queue,
        ) && next.manager.held(queue) == session.manager.held(queue).drop_first())),
{
}

/// The handle that an open hands out is open on nothing before, and the next
/// one is past it; no other call uses one up.
pub proof fn an_open_takes_the_next_handle(session: SessionView, call: SegmentView)
    requires
        session.wf(),
        session.reaches(call),
    ensures
        session.answer(call) matches Ok((next, _, event)) ==> {
            &&& next.next_handle >= session.next_handle
            &&& event is Opened ==> !session.handles.contains_key(session.next_handle)
                && next.handles.contains_key(session.next_handle) && next.next_handle
                == session.next_handle + 1
            &&& !(event is Opened) ==> next.next_handle == session.next_handle
        },
{
}

/// Whether a call that was `event` put or got a message.
pub open spec fn moves_a_message(session: SessionView, event: EventView) -> bool {
    match event {
        EventView::Put(_) => true,
        EventView::Got(queue) => session.manager.held(queue).len() > 0,
        _ => false,
    }
}

/// A message put or got uses up one number for its id; no other call uses
/// one up.
pub proof fn a_message_takes_the_next_id(session: SessionView, call: SegmentView)
    requires
        session.reaches(call),
    ensures
        session.answer(call) matches Ok((next, _, event)) ==> next.next_id == session.next_id + (
        if moves_a_message(session, event) {
            1int
        } else {
            0int
        }),
{
}

/// Message ids with different numbers differ, whatever the names.
pub proof fn ids_with_different_numbers_differ(
    name: Seq<char>,
    number: u32,
    other_name: Seq<char>,
    other_number: u32,
)
    requires
        number != other_number,
    ensures
        id_numbered(name, number) != id_numbered(other_name, other_number),
{
    lemma_id_number(name, number);
    lemma_id_number(other_name, other_number);
}

/// The last four bytes of a message id are its number.
proof fn lemma_id_number(name: Seq<char>, number: u32)
    ensures
        be32_value(id_numbered(name, number).subrange(20, 24)) == number,
{
    let none = Seq::<u8>::empty();
    field_keeps_width(name, 8);
    be32_reads_back(number, none);
    assert(id_numbered(name, number).subrange(20, 24) =~= be32_bytes(number) + none);
}

/// The two sides agree the smaller of their sizes, on a conversation that
/// the queue manager accepts whatever channel and name the client gives.
pub proof fn the_smaller_size_is_agreed(
    manager: ManagerView,
    queue_manager: Seq<char>,
    channel: Seq<char>,
    application: Seq<char>,
    application_type: u32,
)
    ensures
        ({
            let (client, opening) = ClientView::connect(queue_manager, channel);
            &&& accepted(manager, Some(opening)) matches Ok((session, answer))
            &&& session == SessionView::fresh(manager)
            &&& client.agree(Some(answer), application, application_type) matches Ok(
                (agreed, call),
            )
            &&& agreed.max_message == (if manager.max_message < DEFAULT_MAX_MESSAGE {
                manager.max_message
            } else {
                DEFAULT_MAX_MESSAGE
            })
            &&& agreed.request == 2
            &&& agreed.queue_manager == queue_manager
            &&& is_call(
                call,
                MQCONN,
                conn_body(queue_manager, application, application_type),
            )
        }),
{
    let (client, opening) = ClientView::connect(queue_manager, channel);
    let mine = InitialDataView { max_message: DEFAULT_MAX_MESSAGE, channel, queue_manager };
    initial_data_reads_back(mine, Seq::empty());
    lemma_nothing_more(mine.bytes());
    let theirs = InitialDataView {
        max_message: manager.max_message,
        channel: mine.carried().channel,
        queue_manager: manager.name,
    };
    initial_data_reads_back(theirs, Seq::empty());
    lemma_nothing_more(theirs.bytes());
}

/// A message over what was agreed is refused with `2031`, which will not
/// clear, and no call is made: nothing of it goes on the wire, and the
/// request id stands.
pub proof fn too_big_a_message_is_never_sent(
    client: ClientView,
    handle: u32,
    bytes: Seq<u8>,
    over: Seq<char>,
)
    ensures
        client.put(handle, bytes, over) is Err <==> bytes.len() > client.max_message,
        client.put(handle, bytes, over) matches Err(fault) ==> fault == too_big(over)
            && !fault.retryable,
{
}

/// A message that was agreed to is never too big for the queue manager that
/// agreed to it.
pub proof fn an_agreed_message_is_carried(
    manager: ManagerView,
    queue_manager: Seq<char>,
    channel: Seq<char>,
    application: Seq<char>,
    application_type: u32,
    bytes: Seq<u8>,
)
    ensures
        ({
            let (client, opening) = ClientView::connect(queue_manager, channel);
            let answer = accepted(manager, Some(opening))->Ok_0.1;
            let agreed = client.agree(Some(answer), application, application_type)->Ok_0.0;
            bytes.len() <= agreed.max_message ==> bytes.len() <= manager.max_message
        }),
{
    the_smaller_size_is_agreed(manager, queue_manager, channel, application, application_type);
}

} // verus!
