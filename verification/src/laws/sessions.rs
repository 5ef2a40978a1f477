//! What queue managers and their sessions do, said of the calls they are
//! given.

use vstd::prelude::*;

use crate::arrived::ArrivedView;
use crate::descriptor::InitialDataView;
use crate::error::{Fault, TransportError};
use crate::manager::{
    accepted, contents, put_wait, Event, EventView, ManagerView, PutWait, QueueManager, Session,
    SessionView,
};
use crate::segment::{Segment, SegmentView};
use crate::succession::{
    a_session_of, after, event_at, lemma_after, message_ids_are_never_shared, turn,
};
use crate::text::{field_text, hex_byte};

use super::answers::{
    a_close_and_a_disconnect_are_answered_by_their_places, a_connect_is_answered_by_its_places,
    a_get_is_answered_by_its_places, a_message_id_by_its_places, a_put_is_answered_by_its_places,
    an_open_is_answered_by_its_places, connects, gets, grants, is_hex, is_message_id, opens, puts,
    replies_to, what_is_not_a_call_is_refused,
};
use super::reading::number_at;
use super::replies::fails_as;
use super::structures::{
    initial_data_by_its_places, initial_data_is_read_by_its_places, is_initial_data, not_that,
    opens_with,
};

verus! {

/// A segment by its fields.
pub open spec fn fields_of(segment: Segment) -> SegmentView {
    SegmentView {
        kind: segment.kind,
        conversation: segment.conversation,
        request: segment.request,
        body: segment.body@,
    }
}

/// An event by what it says.
pub open spec fn said_by(event: Event) -> EventView {
    match event {
        Event::Connected => EventView::Connected,
        Event::Opened(queue) => EventView::Opened(queue@),
        Event::Put(arrived) => EventView::Put(
            ArrivedView { origin_uri: arrived.origin_uri@, bytes: arrived.bytes@ },
        ),
        Event::Got(queue) => EventView::Got(queue@),
        Event::Closed => EventView::Closed,
        Event::Disconnected => EventView::Disconnected,
        Event::Refused(reason) => EventView::Refused(reason),
    }
}

/// What a call comes to, by its type: connect, disconnect, open, close, get
/// or put.
pub open spec fn comes_to(
    before: SessionView,
    call: SegmentView,
    after: SessionView,
    reply: SegmentView,
    event: EventView,
) -> bool {
    if call.kind == 0x81 {
        connects(before, call, after, reply, event)
    } else if call.kind == 0x82 {
        &&& event == EventView::Disconnected
        &&& replies_to(reply, call)
        &&& reply.body.len() == 16 && grants(reply.body, 0)
        &&& after == before
    } else if call.kind == 0x83 {
        opens(before, call, after, reply, event)
    } else if call.kind == 0x84 {
        &&& event == EventView::Closed
        &&& replies_to(reply, call)
        &&& reply.body.len() == 16 && grants(reply.body, number_at(call.body, 12) as int)
        &&& after == (SessionView {
            handles: before.handles.remove(number_at(call.body, 12)),
            ..before
        })
    } else if call.kind == 0x85 {
        gets(before, call, after, reply, event)
    } else {
        puts(before, call, after, reply, event)
    }
}

/// Whether `call` is one that a queue manager takes.
pub open spec fn is_taken(call: SegmentView) -> bool {
    call.body.len() >= 16 && 0x81 <= call.kind <= 0x86
}

/// How what a queue manager does not take is refused.
pub open spec fn not_taken(call: SegmentView) -> Fault {
    Fault {
        message: if call.body.len() < 16 {
            "a segment too short for an API header"@
        } else {
            "a 0x"@ + hex_byte(call.kind) + " segment"@
        },
        retryable: false,
    }
}

/// Every call is answered by its places.
pub proof fn every_call_is_answered_by_its_places(session: SessionView, call: SegmentView)
    ensures
        is_taken(call) ==> (session.answer(call) matches Ok((next, reply, event)) && comes_to(
            session,
            call,
            next,
            reply,
            event,
        )),
        !is_taken(call) ==> session.answer(call) == Err::<
            (SessionView, SegmentView, EventView),
            Fault,
        >(not_taken(call)),
{
    if !is_taken(call) {
        what_is_not_a_call_is_refused(session, call);
    } else if call.kind == 0x81 {
        a_connect_is_answered_by_its_places(session, call);
    } else if call.kind == 0x83 {
        an_open_is_answered_by_its_places(session, call);
    } else if call.kind == 0x85 {
        a_get_is_answered_by_its_places(session, call);
    } else if call.kind == 0x86 {
        a_put_is_answered_by_its_places(session, call);
    } else if call.kind == 0x82 {
        let close = SegmentView { kind: 0x84, ..call };
        a_close_and_a_disconnect_are_answered_by_their_places(session, close, call);
    } else {
        let disconnect = SegmentView { kind: 0x82, ..call };
        a_close_and_a_disconnect_are_answered_by_their_places(session, call, disconnect);
    }
}

/// `next_event` answers a call by its places and reports it; what is not
/// taken is refused and changes nothing, and a close is no event.
pub proof fn next_event_answers_by_places(
    session: &mut Session,
    incoming: Option<&Segment>,
    result: Result<Option<(Segment, Event)>, TransportError>,
)
    requires
        call_ensures(Session::next_event, (session, incoming), result),
    ensures
        match incoming {
            None => result is Ok && result->Ok_0 is None && final(session)@ == old(session)@,
            Some(call) => if is_taken(fields_of(*call)) {
                result matches Ok(Some(answer)) && comes_to(
                    old(session)@,
                    fields_of(*call),
                    final(session)@,
                    fields_of(answer.0),
                    said_by(answer.1),
                )
            } else {
                fails_as(result, not_taken(fields_of(*call))) && final(session)@ == old(session)@
            },
        },
{
    if let Some(call) = incoming {
        assert(call@ == fields_of(*call));
        every_call_is_answered_by_its_places(old(session)@, call@);
        if let Ok(Some(answer)) = result {
            assert(answer.0@ == fields_of(answer.0));
            assert(answer.1@ == said_by(answer.1));
        }
    }
}

/// What a wait makes of an event: a put ends it with the message, a
/// disconnect without one, and everything else is passed over.
pub open spec fn waits_as(event: EventView, wait: PutWait) -> bool {
    match event {
        EventView::Put(arrived) => wait matches PutWait::Arrived(got) && got.origin_uri@
            == arrived.origin_uri && got.bytes@ == arrived.bytes,
        EventView::Disconnected => wait is Over,
        _ => wait is Waiting,
    }
}

/// `next_put` answers a call by its places, and waits on or ends as the
/// event asks; a close ends it.
pub proof fn next_put_answers_by_places(
    session: &mut Session,
    incoming: Option<&Segment>,
    result: Result<(Option<Segment>, PutWait), TransportError>,
)
    requires
        call_ensures(Session::next_put, (session, incoming), result),
    ensures
        match incoming {
            None => result matches Ok((reply, wait)) && reply is None && wait is Over
                && final(session)@ == old(session)@,
            Some(call) => if is_taken(fields_of(*call)) {
                &&& result matches Ok((Some(reply), wait))
                &&& old(session)@.answer(fields_of(*call)) matches Ok((_, _, event))
                &&& comes_to(
                    old(session)@,
                    fields_of(*call),
                    final(session)@,
                    fields_of(reply),
                    event,
                )
                &&& waits_as(event, wait)
            } else {
                fails_as(result, not_taken(fields_of(*call))) && final(session)@ == old(session)@
            },
        },
{
    if let Some(call) = incoming {
        assert(call@ == fields_of(*call));
        every_call_is_answered_by_its_places(old(session)@, call@);
        if let Ok((Some(reply), wait)) = result {
            assert(reply@ == fields_of(reply));
            assert(wait@ == put_wait(Some(old(session)@.answer(call@)->Ok_0.2)));
        }
    } else if let Ok((_, wait)) = result {
        assert(wait@ == put_wait(None));
    }
}

/// A session reaches past every call but an open that takes a handle where
/// none is left, and a put or a get that takes a number where none is left.
pub proof fn a_session_reaches_while_its_counters_last(
    session: &Session,
    call: &Segment,
    enough: bool,
)
    requires
        call_ensures(Session::reaches, (session, call), enough),
    ensures
        session@.next_handle < u32::MAX && session@.next_id < u32::MAX ==> enough,
        !is_taken(fields_of(*call)) ==> enough,
        session@.answer(fields_of(*call)) matches Ok((_, reply, event)) ==> {
            !enough <==> {
                ||| event is Opened && session@.next_handle == u32::MAX
                ||| event is Put && session@.next_id == u32::MAX
                ||| event is Got && number_at(reply.body, 4) == 0 && session@.next_id == u32::MAX
            }
        },
{
    let fields = fields_of(*call);
    assert(call@ == fields);
    super::wire::a_header_is_read_by_its_places(call.body@);
    every_call_is_answered_by_its_places(session@, fields);
}

/// A queue manager is made with its name, no queue and four mebibytes.
pub proof fn a_queue_manager_is_made_empty(name: &str, manager: QueueManager)
    requires
        call_ensures(QueueManager::new, (name,), manager),
    ensures
        manager@.name == name@,
        manager@.max_message == 4_194_304,
        forall|queue: Seq<char>| !#[trigger] manager@.queues.contains_key(queue),
        manager.wf(),
{
}

/// What `queue` holds: nothing where it is not defined.
pub open spec fn held_by(manager: ManagerView, queue: Seq<char>) -> Seq<Seq<u8>> {
    if manager.queues.contains_key(queue) {
        manager.queues[queue]
    } else {
        Seq::empty()
    }
}

/// Defining a queue keeps what it holds and every other queue; `holding`
/// appends its messages in their order, and `carrying_at_most` changes the
/// size alone.
pub proof fn queues_are_defined_and_filled(
    manager: QueueManager,
    queue: &str,
    messages: &[&[u8]],
    size: u32,
    with: QueueManager,
    holding: QueueManager,
    carrying: QueueManager,
)
    requires
        call_ensures(QueueManager::with_queue, (manager, queue), with),
        call_ensures(QueueManager::holding, (manager, queue, messages), holding),
        call_ensures(QueueManager::carrying_at_most, (manager, size), carrying),
    ensures
        with@.name == manager@.name && with@.max_message == manager@.max_message,
        with@.queues == manager@.queues.insert(queue@, held_by(manager@, queue@)),
        holding@.name == manager@.name && holding@.max_message == manager@.max_message,
        holding@.queues.dom() == manager@.queues.dom().insert(queue@),
        forall|other: Seq<char>|
            other != queue@ && manager@.queues.contains_key(other)
                ==> #[trigger] holding@.queues[other] == manager@.queues[other],
        ({
            let old_held = held_by(manager@, queue@);
            let new_held = holding@.queues[queue@];
            &&& new_held.len() == old_held.len() + messages@.len()
            &&& forall|i: int| 0 <= i < old_held.len() ==> #[trigger] new_held[i] == old_held[i]
            &&& forall|i: int|
                0 <= i < messages@.len() ==> new_held[old_held.len() + i]
                    == #[trigger] messages@[i]@
        }),
        carrying@.name == manager@.name && carrying@.queues == manager@.queues,
        carrying@.max_message == size,
{
    assert(holding@.queues.dom() =~= manager@.queues.dom().insert(queue@));
}

/// What a queue manager says of itself: how many queues it has, its size,
/// and what a queue holds, oldest first.
pub proof fn a_queue_manager_says_what_it_holds(
    manager: &QueueManager,
    queue: &str,
    count: usize,
    size: u32,
    messages: Vec<Vec<u8>>,
)
    requires
        call_ensures(QueueManager::queue_count, (manager,), count),
        call_ensures(QueueManager::max_message, (manager,), size),
        call_ensures(QueueManager::queue, (manager, queue), messages),
    ensures
        count == manager@.queues.dom().len(),
        size == manager@.max_message,
        messages@.len() == held_by(manager@, queue@).len(),
        forall|i: int|
            0 <= i < messages@.len() ==> #[trigger] messages@[i]@ == held_by(manager@, queue@)[i],
{
    assert(contents(messages@) == manager@.held(queue@));
    assert(contents(messages@).len() == messages@.len());
    assert forall|i: int| 0 <= i < messages@.len() implies #[trigger] messages@[i]@ == held_by(
        manager@,
        queue@,
    )[i] by {
        assert(contents(messages@)[i] == messages@[i]@);
    }
}

/// A session says what a queue holds now, oldest first.
pub proof fn a_session_says_what_a_queue_holds(
    session: &Session,
    queue: &str,
    messages: Vec<Vec<u8>>,
)
    requires
        call_ensures(Session::queue, (session, queue), messages),
    ensures
        messages@.len() == held_by(session@.manager, queue@).len(),
        forall|i: int|
            0 <= i < messages@.len() ==> #[trigger] messages@[i]@ == held_by(
                session@.manager,
                queue@,
            )[i],
{
    assert(contents(messages@) == session@.manager.held(queue@));
    assert(contents(messages@).len() == messages@.len());
    assert forall|i: int| 0 <= i < messages@.len() implies #[trigger] messages@[i]@ == held_by(
        session@.manager,
        queue@,
    )[i] by {
        assert(contents(messages@)[i] == messages@[i]@);
    }
}

/// How a client that opens with `opening` is refused, if it is.
pub open spec fn opening_refused(opening: Option<SegmentView>) -> Option<Fault> {
    match opening {
        None => Some(Fault { message: "a client that sent nothing"@, retryable: false }),
        Some(segment) => if segment.kind != 0x01 {
            Some(
                Fault {
                    message: "a client that did not open with initial data"@,
                    retryable: false,
                },
            )
        } else if segment.body.len() < 96 || !opens_with(segment.body, 0x49, 0x44, 0x20, 0x20) {
            Some(
                Fault {
                    message: not_that(segment.body, seq![0x49u8, 0x44, 0x20, 0x20]),
                    retryable: false,
                },
            )
        } else {
            None
        },
    }
}

/// Whether `session` is one that `manager` has just accepted on `opening`,
/// and `answer` its initial data: its own size and name, on the channel that
/// the client named.
pub open spec fn accepts(
    manager: ManagerView,
    opening: SegmentView,
    session: SessionView,
    answer: SegmentView,
) -> bool {
    &&& session.manager == manager
    &&& forall|handle: u32| !#[trigger] session.handles.contains_key(handle)
    &&& session.next_handle == 2
    &&& session.next_id == 1
    &&& answer.kind == 0x01
    &&& answer.conversation == opening.conversation
    &&& answer.request == opening.request
    &&& is_initial_data(
        answer.body,
        manager.max_message as int,
        field_text(opening.body.subrange(23, 43)),
        manager.name,
    )
}

/// A client is accepted exactly where it opens with initial data.
pub proof fn a_client_is_accepted_by_its_places(
    manager: ManagerView,
    opening: Option<SegmentView>,
)
    ensures
        match opening_refused(opening) {
            Some(fault) => accepted(manager, opening) == Err::<(SessionView, SegmentView), Fault>(
                fault,
            ),
            None => accepted(manager, opening) matches Ok((session, answer)) && accepts(
                manager,
                opening->0,
                session,
                answer,
            ),
        },
{
    if let Some(segment) = opening {
        initial_data_is_read_by_its_places(segment.body);
        if opening_refused(opening) is None {
            initial_data_by_its_places(
                InitialDataView {
                    max_message: manager.max_message,
                    channel: field_text(segment.body.subrange(23, 43)),
                    queue_manager: manager.name,
                },
            );
        }
    }
}

/// The opening by its fields, where there is one.
pub open spec fn fields_of_any(segment: Option<Segment>) -> Option<SegmentView> {
    match segment {
        Some(segment) => Some(fields_of(segment)),
        None => None,
    }
}

/// As [`a_client_is_accepted_by_its_places`], of what `accept` gives.
pub proof fn accept_answers_by_places(
    manager: QueueManager,
    opening: Option<Segment>,
    result: Result<(Session, Segment), TransportError>,
)
    requires
        call_ensures(QueueManager::accept, (manager, opening), result),
    ensures
        match opening_refused(fields_of_any(opening)) {
            Some(fault) => fails_as(result, fault),
            None => result matches Ok((session, answer)) && accepts(
                manager@,
                fields_of(opening->0),
                session@,
                fields_of(answer),
            ) && session.wf(),
        },
{
    a_client_is_accepted_by_its_places(manager@, fields_of_any(opening));
    if let Some(segment) = opening {
        assert(segment@ == fields_of(segment));
    }
    if let Ok((_, answer)) = result {
        assert(answer@ == fields_of(answer));
    }
}

/// The Streams of two messages put in one session, at whatever calls and on
/// whatever queues, have different origins.
pub proof fn no_two_puts_share_an_origin(
    session: SessionView,
    calls: Seq<SegmentView>,
    early: int,
    late: int,
)
    requires
        a_session_of(session, calls),
        0 <= early < late < calls.len(),
        event_at(session, calls, early) is Put,
        event_at(session, calls, late) is Put,
    ensures
        event_at(session, calls, early)->Put_0.origin_uri != event_at(
            session,
            calls,
            late,
        )->Put_0.origin_uri,
{
    message_ids_are_never_shared(session, calls, early, early, late);
    let one = after(session, calls, early);
    let other = after(session, calls, late);
    lemma_after(session, calls, early);
    lemma_after(session, calls, late);
    lemma_put_origin(one, calls[early]);
    lemma_put_origin(other, calls[late]);
    let first = event_at(session, calls, early)->Put_0.origin_uri;
    let second = event_at(session, calls, late)->Put_0.origin_uri;
    if first == second {
        lemma_one_id(first.skip(first.len() - 48), one.message_id(), other.message_id());
    }
}

proof fn lemma_put_origin(session: SessionView, call: SegmentView)
    requires
        turn(session, call) is Ok,
        turn(session, call)->Ok_0.2 is Put,
    ensures
        ({
            let origin = turn(session, call)->Ok_0.2->Put_0.origin_uri;
            &&& origin.len() >= 48
            &&& is_hex(origin.skip(origin.len() - 48), session.message_id())
            &&& session.message_id().len() == 24
        }),
{
    reveal(turn);
    every_call_is_answered_by_its_places(session, call);
    a_message_id_by_its_places(session.manager.name, session.next_id);
    let (_, reply, _) = session.answer(call)->Ok_0;
    let id = reply.body.subrange(64, 88);
    lemma_same_id(id, session.message_id(), session.manager.name, session.next_id as int);
}

proof fn lemma_same_id(one: Seq<u8>, other: Seq<u8>, name: Seq<char>, number: int)
    requires
        is_message_id(one, name, number),
        is_message_id(other, name, number),
    ensures
        one == other,
{
    assert forall|i: int| 0 <= i < 24 implies one[i] == other[i] by {
        if 4 <= i < 12 {
            assert(one.subrange(4, 12)[i - 4] == one[i]);
            assert(other.subrange(4, 12)[i - 4] == other[i]);
        }
    }
    assert(one =~= other);
}

proof fn lemma_one_id(text: Seq<char>, one: Seq<u8>, other: Seq<u8>)
    requires
        is_hex(text, one),
        is_hex(text, other),
        one.len() == other.len(),
    ensures
        one == other,
{
    assert forall|i: int| 0 <= i < one.len() implies one[i] == other[i] by {
        let a = one[i];
        let b = other[i];
        assert(a / 16 == b / 16 && a % 16 == b % 16);
    }
    assert(one =~= other);
}

} // verus!
