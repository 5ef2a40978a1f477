//! What holds over calls in a row: a session answers one call after the
//! other, and what one leaves the next finds.

use vstd::prelude::*;

use crate::arrived::ArrivedView;
use crate::client::{assigned_id, get_body, got_message, put_body};
use crate::conversation::{
    a_message_takes_the_next_id, an_open_takes_the_next_handle, every_call_keeps_the_session_sound,
    getting_takes_the_oldest, ids_with_different_numbers_differ, is_call, moves_a_message,
    putting_appends,
};
use crate::error::Fault;
use crate::manager::{id_numbered, put_wait, EventView, ManagerView, PutWaitView, SessionView};
use crate::segment::{SegmentView, MQGET, MQPUT};

verus! {

/// One call, answered: what it leaves, the reply, and what it was.
#[verifier::opaque]
pub open spec fn turn(session: SessionView, call: SegmentView) -> Result<
    (SessionView, SegmentView, EventView),
    Fault,
> {
    session.answer(call)
}

/// What calls in a row leave, their replies, and what they were; or the
/// refusal of the first that a queue manager does not take.
pub open spec fn turns(session: SessionView, calls: Seq<SegmentView>) -> Result<
    (SessionView, Seq<SegmentView>, Seq<EventView>),
    Fault,
>
    decreases calls.len(),
{
    if calls.len() == 0 {
        Ok((session, Seq::empty(), Seq::empty()))
    } else {
        match turns(session, calls.drop_last()) {
            Err(fault) => Err(fault),
            Ok((between, replies, events)) => match turn(between, calls.last()) {
                Err(fault) => Err(fault),
                Ok((next, reply, event)) => Ok((next, replies.push(reply), events.push(event))),
            },
        }
    }
}

/// The session with `held` on `queue` and `used` more message ids given out.
pub open spec fn with_held(
    session: SessionView,
    queue: Seq<char>,
    held: Seq<Seq<u8>>,
    used: nat,
) -> SessionView {
    SessionView {
        manager: ManagerView {
            queues: session.manager.queues.insert(queue, held),
            ..session.manager
        },
        next_id: (session.next_id + used) as u32,
        ..session
    }
}

/// Whether `reply` says that a put was given `id`.
#[verifier::opaque]
pub open spec fn says_put(reply: SegmentView, id: Seq<u8>) -> bool {
    assigned_id(Some(reply)) == Ok::<Seq<u8>, Fault>(id)
}

/// Whether `reply` says that a get took `bytes` under `id`.
#[verifier::opaque]
pub open spec fn says_got(reply: SegmentView, id: Seq<u8>, bytes: Seq<u8>) -> bool {
    got_message(Some(reply)) == Ok::<Option<(Seq<u8>, Seq<u8>)>, Fault>(Some((id, bytes)))
}

/// Whether `reply` says that a get found nothing.
#[verifier::opaque]
pub open spec fn says_empty(reply: SegmentView) -> bool {
    got_message(Some(reply)) == Ok::<Option<(Seq<u8>, Seq<u8>)>, Fault>(None)
}

proof fn lemma_turn_puts(session: SessionView, call: SegmentView, handle: u32, bytes: Seq<u8>)
    requires
        is_call(call, MQPUT, put_body(handle, bytes)),
        session.handles.contains_key(handle),
        bytes.len() <= session.manager.max_message,
    ensures
        ({
            let queue = session.handles[handle];
            &&& turn(session, call) matches Ok((next, reply, _))
            &&& next == with_held(session, queue, session.manager.held(queue).push(bytes), 1)
            &&& says_put(reply, session.message_id())
        }),
{
    reveal(turn);
    reveal(says_put);
    putting_appends(session, call, handle, bytes);
}

proof fn lemma_turn_gets(
    session: SessionView,
    call: SegmentView,
    handle: u32,
    max_message: u32,
)
    requires
        is_call(call, MQGET, get_body(handle, max_message)),
        session.gets(handle),
        session.manager.held(session.handles[handle])[0].len() <= u32::MAX,
    ensures
        ({
            let queue = session.handles[handle];
            let held = session.manager.held(queue);
            &&& turn(session, call) matches Ok((next, reply, _))
            &&& next == with_held(session, queue, held.drop_first(), 1)
            &&& says_got(reply, session.message_id(), held[0])
        }),
{
    reveal(turn);
    reveal(says_got);
    getting_takes_the_oldest(session, call, handle, max_message);
}

proof fn lemma_turn_finds_none(
    session: SessionView,
    call: SegmentView,
    handle: u32,
    max_message: u32,
)
    requires
        is_call(call, MQGET, get_body(handle, max_message)),
        session.handles.contains_key(handle),
        session.manager.held(session.handles[handle]).len() == 0,
    ensures
        turn(session, call) matches Ok((next, reply, _)) && next == session && says_empty(reply),
{
    reveal(turn);
    reveal(says_empty);
    getting_takes_the_oldest(session, call, handle, max_message);
}

/// Puts in a row append their messages, in their order, and are given ids
/// in a row.
proof fn lemma_puts(
    session: SessionView,
    puts: Seq<SegmentView>,
    handle: u32,
    messages: Seq<Seq<u8>>,
)
    requires
        session.handles.contains_key(handle),
        session.manager.queues.contains_key(session.handles[handle]),
        puts.len() == messages.len(),
        forall|i: int|
            0 <= i < puts.len() ==> is_call(
                #[trigger] puts[i],
                MQPUT,
                put_body(handle, messages[i]),
            ),
        forall|i: int|
            0 <= i < messages.len() ==> #[trigger] messages[i].len()
                <= session.manager.max_message,
        session.next_id + messages.len() <= u32::MAX,
    ensures
        ({
            let queue = session.handles[handle];
            let held = session.manager.held(queue);
            &&& turns(session, puts) matches Ok((next, replies, _))
            &&& next == with_held(session, queue, held + messages, messages.len())
            &&& replies.len() == puts.len()
            &&& forall|i: int|
                0 <= i < replies.len() ==> says_put(
                    #[trigger] replies[i],
                    id_numbered(session.manager.name, (session.next_id + i) as u32),
                )
        }),
    decreases puts.len(),
{
    let queue = session.handles[handle];
    let held = session.manager.held(queue);
    if puts.len() == 0 {
        assert(held + messages =~= held);
        assert(session.manager.queues.insert(queue, held) =~= session.manager.queues);
    } else {
        let fewer = messages.drop_last();
        lemma_puts(session, puts.drop_last(), handle, fewer);
        let between = with_held(session, queue, held + fewer, fewer.len());
        lemma_turn_puts(between, puts.last(), handle, messages.last());
        let next = with_held(session, queue, held + messages, messages.len());
        assert((held + fewer).push(messages.last()) =~= held + messages);
        assert(between.manager.queues.insert(queue, held + messages) =~= next.manager.queues);
        assert(turn(between, puts.last())->Ok_0.0 == next);
    }
}

/// Gets in a row take what a queue holds from its front, in its order, under
/// ids in a row.
proof fn lemma_gets(
    session: SessionView,
    gets: Seq<SegmentView>,
    handle: u32,
    max_message: u32,
)
    requires
        session.handles.contains_key(handle),
        session.manager.queues.contains_key(session.handles[handle]),
        gets.len() <= session.manager.held(session.handles[handle]).len(),
        forall|i: int|
            0 <= i < gets.len() ==> is_call(
                #[trigger] gets[i],
                MQGET,
                get_body(handle, max_message),
            ),
        forall|i: int|
            0 <= i < session.manager.held(session.handles[handle]).len()
                ==> #[trigger] session.manager.held(session.handles[handle])[i].len() <= u32::MAX,
        session.next_id + gets.len() <= u32::MAX,
    ensures
        ({
            let queue = session.handles[handle];
            let held = session.manager.held(queue);
            &&& turns(session, gets) matches Ok((next, replies, _))
            &&& next == with_held(session, queue, held.skip(gets.len() as int), gets.len())
            &&& replies.len() == gets.len()
            &&& forall|i: int|
                0 <= i < replies.len() ==> says_got(
                    #[trigger] replies[i],
                    id_numbered(session.manager.name, (session.next_id + i) as u32),
                    held[i],
                )
        }),
    decreases gets.len(),
{
    let queue = session.handles[handle];
    let held = session.manager.held(queue);
    if gets.len() == 0 {
        assert(held.skip(0) =~= held);
        assert(session.manager.queues.insert(queue, held) =~= session.manager.queues);
    } else {
        let fewer = (gets.len() - 1) as nat;
        lemma_gets(session, gets.drop_last(), handle, max_message);
        let left = held.skip(fewer as int);
        let between = with_held(session, queue, left, fewer);
        assert(left[0] == held[fewer as int]);
        lemma_turn_gets(between, gets.last(), handle, max_message);
        let next = with_held(session, queue, held.skip(gets.len() as int), gets.len());
        assert(left.drop_first() =~= held.skip(gets.len() as int));
        assert(between.manager.queues.insert(queue, left.drop_first()) =~= next.manager.queues);
        assert(turn(between, gets.last())->Ok_0.0 == next);
    }
}

/// Messages put in a row on an empty queue are the messages got from it in a
/// row: the same bytes in the same order, however many they are and however
/// short, and the get after the last finds nothing. Every put and every get
/// is under an id of its own, and the queue manager holds what it held.
pub proof fn messages_put_are_the_messages_got(
    session: SessionView,
    putting: u32,
    getting: u32,
    messages: Seq<Seq<u8>>,
    puts: Seq<SegmentView>,
    gets: Seq<SegmentView>,
    max_message: u32,
)
    requires
        session.wf(),
        session.handles.contains_key(putting),
        session.handles.contains_key(getting),
        session.handles[putting] == session.handles[getting],
        session.manager.held(session.handles[putting]).len() == 0,
        puts.len() == messages.len(),
        gets.len() == messages.len() + 1,
        forall|i: int|
            0 <= i < puts.len() ==> is_call(
                #[trigger] puts[i],
                MQPUT,
                put_body(putting, messages[i]),
            ),
        forall|i: int|
            0 <= i < gets.len() ==> is_call(
                #[trigger] gets[i],
                MQGET,
                get_body(getting, max_message),
            ),
        forall|i: int|
            0 <= i < messages.len() ==> #[trigger] messages[i].len()
                <= session.manager.max_message,
        session.next_id + 2 * messages.len() <= u32::MAX,
    ensures
        ({
            let n = messages.len() as int;
            let id = |i: int| id_numbered(session.manager.name, (session.next_id + i) as u32);
            &&& turns(session, puts) matches Ok((between, given, _))
            &&& turns(between, gets) matches Ok((last, taken, _))
            &&& given.len() == n && taken.len() == n + 1
            &&& forall|i: int|
                0 <= i < n ==> assigned_id(Some(#[trigger] given[i])) == Ok::<Seq<u8>, Fault>(
                    id(i),
                )
            &&& forall|i: int|
                0 <= i < n ==> got_message(Some(#[trigger] taken[i])) == Ok::<
                    Option<(Seq<u8>, Seq<u8>)>,
                    Fault,
                >(Some((id(n + i), messages[i])))
            &&& got_message(Some(taken[n])) == Ok::<Option<(Seq<u8>, Seq<u8>)>, Fault>(None)
            &&& forall|i: int, j: int| 0 <= i < j < 2 * n ==> #[trigger] id(i) != #[trigger] id(j)
            &&& last.manager == session.manager
        }),
{
    let queue = session.handles[putting];
    let held = session.manager.held(queue);
    let n = messages.len();
    lemma_puts(session, puts, putting, messages);
    assert(held + messages =~= messages);
    let between = with_held(session, queue, messages, n);
    assert(between.manager.held(queue) == messages);
    lemma_gets(between, gets.drop_last(), getting, max_message);
    let left = messages.skip(n as int);
    let after = with_held(between, queue, left, n);
    assert(left =~= held);
    assert(after.manager.held(queue) == left);
    lemma_turn_finds_none(after, gets.last(), getting, max_message);
    assert(after.manager.queues =~= session.manager.queues);
    let given = turns(session, puts)->Ok_0.1;
    let taken = turns(between, gets)->Ok_0.1;
    let id = |i: int| id_numbered(session.manager.name, (session.next_id + i) as u32);
    assert forall|i: int| 0 <= i < n implies assigned_id(Some(#[trigger] given[i])) == Ok::<
        Seq<u8>,
        Fault,
    >(id(i)) by {
        reveal(says_put);
        assert(says_put(given[i], id(i)));
    }
    assert forall|i: int| 0 <= i < n implies got_message(Some(#[trigger] taken[i])) == Ok::<
        Option<(Seq<u8>, Seq<u8>)>,
        Fault,
    >(Some((id(n + i), messages[i]))) by {
        reveal(says_got);
        assert(says_got(taken[i], id(n + i), messages[i]));
    }
    assert(got_message(Some(taken[n as int])) == Ok::<Option<(Seq<u8>, Seq<u8>)>, Fault>(None))
        by {
        reveal(says_empty);
        assert(says_empty(taken[n as int]));
    }
    assert forall|i: int, j: int| 0 <= i < j < 2 * n implies #[trigger] id(i) != #[trigger] id(
        j,
    ) by {
        ids_with_different_numbers_differ(
            session.manager.name,
            (session.next_id + i) as u32,
            session.manager.name,
            (session.next_id + j) as u32,
        );
    }
}

/// The session after the first `n` of `calls`.
pub open spec fn after(session: SessionView, calls: Seq<SegmentView>, n: int) -> SessionView {
    turns(session, calls.take(n))->Ok_0.0
}

/// What the call numbered `n` of `calls` was.
pub open spec fn event_at(session: SessionView, calls: Seq<SegmentView>, n: int) -> EventView {
    turn(after(session, calls, n), calls[n])->Ok_0.2
}

/// Whether the counters of `session` reach past `call`.
#[verifier::opaque]
pub open spec fn turn_reaches(session: SessionView, call: SegmentView) -> bool {
    session.reaches(call)
}

/// Whether `calls` are all taken, and the counters reach past each.
pub open spec fn a_session_of(session: SessionView, calls: Seq<SegmentView>) -> bool {
    &&& session.wf()
    &&& turns(session, calls) is Ok
    &&& forall|n: int|
        0 <= n < calls.len() ==> turn_reaches(#[trigger] after(session, calls, n), calls[n])
}

proof fn lemma_turn_counts(session: SessionView, call: SegmentView)
    requires
        session.wf(),
        turn_reaches(session, call),
    ensures
        turn(session, call) matches Ok((next, _, event)) ==> {
            &&& next.wf()
            &&& next.next_id == session.next_id + (if moves_a_message(session, event) {
                1int
            } else {
                0int
            })
            &&& next.next_handle == session.next_handle + (if event is Opened {
                1int
            } else {
                0int
            })
        },
{
    reveal(turn);
    reveal(turn_reaches);
    every_call_keeps_the_session_sound(session, call);
    a_message_takes_the_next_id(session, call);
    an_open_takes_the_next_handle(session, call);
}

/// The calls before one that is taken are taken, and it goes on from what
/// they left.
pub proof fn lemma_after(session: SessionView, calls: Seq<SegmentView>, n: int)
    requires
        turns(session, calls) is Ok,
        0 <= n < calls.len(),
    ensures
        turns(session, calls.take(n)) is Ok,
        turn(after(session, calls, n), calls[n]) is Ok,
        after(session, calls, n + 1) == turn(after(session, calls, n), calls[n])->Ok_0.0,
    decreases calls.len(),
{
    let fewer = calls.drop_last();
    assert(turns(session, fewer) is Ok);
    if n < fewer.len() {
        lemma_after(session, fewer, n);
        assert(fewer.take(n) =~= calls.take(n));
        assert(fewer.take(n + 1) =~= calls.take(n + 1));
    } else {
        assert(fewer =~= calls.take(n));
        assert(calls.take(n + 1) =~= calls);
    }
}

proof fn lemma_counts_grow(session: SessionView, calls: Seq<SegmentView>, early: int, late: int)
    requires
        a_session_of(session, calls),
        0 <= early <= late <= calls.len(),
    ensures
        after(session, calls, early).wf(),
        after(session, calls, early).next_id <= after(session, calls, late).next_id,
        after(session, calls, early).next_handle <= after(session, calls, late).next_handle,
    decreases late,
{
    if late == 0 {
        assert(calls.take(0) =~= Seq::empty());
    } else if early == late {
        lemma_counts_grow(session, calls, late - 1, late - 1);
        lemma_after(session, calls, late - 1);
        lemma_turn_counts(after(session, calls, late - 1), calls[late - 1]);
    } else {
        lemma_counts_grow(session, calls, early, late - 1);
        lemma_counts_grow(session, calls, late - 1, late - 1);
        lemma_after(session, calls, late - 1);
        lemma_turn_counts(after(session, calls, late - 1), calls[late - 1]);
    }
}

/// No two messages of a session share an id: between any two states of it
/// with a put or a get of a message between them, the next id differs.
pub proof fn message_ids_are_never_shared(
    session: SessionView,
    calls: Seq<SegmentView>,
    early: int,
    moved: int,
    late: int,
)
    requires
        a_session_of(session, calls),
        0 <= early <= moved < late <= calls.len(),
        moves_a_message(after(session, calls, moved), event_at(session, calls, moved)),
    ensures
        after(session, calls, early).next_id < after(session, calls, late).next_id,
        after(session, calls, early).message_id() != after(session, calls, late).message_id(),
{
    lemma_counts_grow(session, calls, early, moved);
    lemma_counts_grow(session, calls, moved, moved);
    lemma_counts_grow(session, calls, moved + 1, late);
    lemma_after(session, calls, moved);
    lemma_turn_counts(after(session, calls, moved), calls[moved]);
    ids_with_different_numbers_differ(
        after(session, calls, early).manager.name,
        after(session, calls, early).next_id,
        after(session, calls, late).manager.name,
        after(session, calls, late).next_id,
    );
}

/// No two opens of a session share a handle: between any two states of it
/// with an open between them, the next handle differs, and the one handed
/// out was open on nothing.
pub proof fn handles_are_never_shared(
    session: SessionView,
    calls: Seq<SegmentView>,
    early: int,
    opened: int,
    late: int,
)
    requires
        a_session_of(session, calls),
        0 <= early <= opened < late <= calls.len(),
        event_at(session, calls, opened) is Opened,
    ensures
        after(session, calls, early).next_handle < after(session, calls, late).next_handle,
        !after(session, calls, opened).handles.contains_key(
            after(session, calls, opened).next_handle,
        ),
{
    lemma_counts_grow(session, calls, early, opened);
    lemma_counts_grow(session, calls, opened, opened);
    lemma_counts_grow(session, calls, opened + 1, late);
    lemma_after(session, calls, opened);
    lemma_turn_counts(after(session, calls, opened), calls[opened]);
}

/// What a wait for a message comes to: the session it leaves, the replies it
/// gave, and the message, none, or the failure it ended with.
pub struct Waited {
    pub session: SessionView,
    pub replies: Seq<SegmentView>,
    pub result: Result<Option<ArrivedView>, Fault>,
}

/// What a wait for a message comes to over the calls of a client that closes
/// after them, where `replies` were given before.
pub open spec fn waited_on(
    session: SessionView,
    replies: Seq<SegmentView>,
    calls: Seq<SegmentView>,
) -> Waited
    decreases calls.len(),
{
    if calls.len() == 0 {
        Waited { session, replies, result: Ok(None) }
    } else {
        match turn(session, calls[0]) {
            Err(fault) => Waited { session, replies, result: Err(fault) },
            Ok((next, reply, event)) => match put_wait(Some(event)) {
                PutWaitView::Arrived(arrived) => Waited {
                    session: next,
                    replies: replies.push(reply),
                    result: Ok(Some(arrived)),
                },
                PutWaitView::Over => Waited {
                    session: next,
                    replies: replies.push(reply),
                    result: Ok(None),
                },
                PutWaitView::Waiting => waited_on(
                    next,
                    replies.push(reply),
                    calls.drop_first(),
                ),
            },
        }
    }
}

/// What a wait for a message comes to over the calls of a client that closes
/// after them.
pub open spec fn waited(session: SessionView, calls: Seq<SegmentView>) -> Waited {
    waited_on(session, Seq::empty(), calls)
}

/// Whether a wait passes over `event`.
pub open spec fn passed_over(event: EventView) -> bool {
    !(event is Put) && !(event is Disconnected)
}

/// Whether a wait passes over all of `events`.
pub open spec fn all_passed_over(events: Seq<EventView>) -> bool {
    forall|i: int| 0 <= i < events.len() ==> passed_over(#[trigger] events[i])
}

/// Whether a wait stops at the call numbered `at`, or at the close after the
/// last: every call before it is answered and passed over, and it is not.
pub open spec fn stops_at(session: SessionView, calls: Seq<SegmentView>, at: nat) -> bool {
    &&& at <= calls.len()
    &&& turns(session, calls.take(at as int)) matches Ok((before, _, events))
    &&& all_passed_over(events)
    &&& at < calls.len() ==> (turn(before, calls[at as int]) matches Ok((_, _, event))
        ==> !passed_over(event))
}

proof fn lemma_turns_from_front(session: SessionView, calls: Seq<SegmentView>)
    requires
        calls.len() > 0,
    ensures
        turns(session, calls) == (match turn(session, calls[0]) {
            Err(fault) => Err::<(SessionView, Seq<SegmentView>, Seq<EventView>), Fault>(fault),
            Ok((next, reply, event)) => match turns(next, calls.drop_first()) {
                Err(fault) => Err(fault),
                Ok((last, replies, events)) => Ok(
                    (last, seq![reply] + replies, seq![event] + events),
                ),
            },
        }),
    decreases calls.len(),
{
    if calls.len() == 1 {
        assert(turns(session, calls.drop_last()) == Ok::<
            (SessionView, Seq<SegmentView>, Seq<EventView>),
            Fault,
        >((session, Seq::empty(), Seq::empty())));
        if let Ok((next, reply, event)) = turn(session, calls[0]) {
            assert(turns(next, calls.drop_first()) == Ok::<
                (SessionView, Seq<SegmentView>, Seq<EventView>),
                Fault,
            >((next, Seq::empty(), Seq::empty())));
            assert(Seq::empty().push(reply) =~= seq![reply] + Seq::empty());
            assert(Seq::empty().push(event) =~= seq![event] + Seq::empty());
        }
    } else {
        lemma_turns_from_front(session, calls.drop_last());
        assert(calls.drop_last()[0] == calls[0]);
        if let Ok((next, reply, event)) = turn(session, calls[0]) {
            assert(calls.drop_last().drop_first() =~= calls.drop_first().drop_last());
            assert(calls.drop_first().last() == calls.last());
            if let Ok((between, replies, events)) = turns(next, calls.drop_first().drop_last()) {
                if let Ok((_, more, what)) = turn(between, calls.last()) {
                    assert((seq![reply] + replies).push(more) =~= seq![reply] + replies.push(more));
                    assert((seq![event] + events).push(what) =~= seq![event] + events.push(what));
                }
            }
        }
    }
}

/// What stops a wait that starts with one more call, which it passes over,
/// is one further on.
proof fn lemma_stops_later(session: SessionView, calls: Seq<SegmentView>, at: nat)
    requires
        calls.len() > 0,
        at > 0,
    ensures
        stops_at(session, calls, at) <==> (turn(session, calls[0]) matches Ok((next, _, event))
            && passed_over(event) && stops_at(next, calls.drop_first(), (at - 1) as nat)),
{
    if at <= calls.len() {
        let taken = calls.take(at as int);
        lemma_turns_from_front(session, taken);
        assert(taken[0] == calls[0]);
        assert(taken.drop_first() =~= calls.drop_first().take(at - 1));
        if at < calls.len() {
            assert(calls.drop_first()[at - 1] == calls[at as int]);
        }
        if let Ok((next, _, event)) = turn(session, calls[0]) {
            if let Ok((_, _, events)) = turns(next, taken.drop_first()) {
                lemma_passes_over_one_more(event, events);
            }
        }
    }
}

proof fn lemma_passes_over_one_more(event: EventView, events: Seq<EventView>)
    ensures
        all_passed_over(seq![event] + events) <==> passed_over(event) && all_passed_over(events),
{
    let all = seq![event] + events;
    if all_passed_over(all) {
        assert(passed_over(all[0]));
        assert forall|i: int| 0 <= i < events.len() implies passed_over(#[trigger] events[i]) by {
            assert(all[i + 1] == events[i]);
        }
    }
}

proof fn lemma_waits(
    session: SessionView,
    given: Seq<SegmentView>,
    calls: Seq<SegmentView>,
    at: nat,
)
    requires
        stops_at(session, calls, at),
    ensures
        ({
            let (before, replies, _) = turns(session, calls.take(at as int))->Ok_0;
            waited_on(session, given, calls) == (if at == calls.len() {
                Waited { session: before, replies: given + replies, result: Ok(None) }
            } else {
                match turn(before, calls[at as int]) {
                    Err(fault) => Waited {
                        session: before,
                        replies: given + replies,
                        result: Err(fault),
                    },
                    Ok((next, reply, event)) => Waited {
                        session: next,
                        replies: given + replies.push(reply),
                        result: Ok(
                            match event {
                                EventView::Put(arrived) => Some(arrived),
                                _ => None,
                            },
                        ),
                    },
                }
            })
        }),
    decreases at,
{
    if at == 0 {
        assert(calls.take(0) =~= Seq::empty());
        assert(given + Seq::<SegmentView>::empty() =~= given);
        if calls.len() > 0 {
            if let Ok((_, reply, _)) = turn(session, calls[0]) {
                assert(given + Seq::empty().push(reply) =~= given.push(reply));
            }
        }
    } else {
        lemma_stops_later(session, calls, at);
        let taken = calls.take(at as int);
        let rest = calls.drop_first();
        lemma_turns_from_front(session, taken);
        assert(taken.drop_first() =~= rest.take(at - 1));
        let (next, reply, event) = turn(session, calls[0])->Ok_0;
        lemma_waits(next, given.push(reply), rest, (at - 1) as nat);
        let (before, replies, _) = turns(next, rest.take(at - 1))->Ok_0;
        assert(given.push(reply) + replies =~= given + (seq![reply] + replies));
        if at < calls.len() {
            assert(rest[at - 1] == calls[at as int]);
            if let Ok((_, last, _)) = turn(before, calls[at as int]) {
                assert(given.push(reply) + replies.push(last) =~= given + (seq![reply]
                    + replies).push(last));
            }
        }
    }
}

proof fn lemma_stops(session: SessionView, calls: Seq<SegmentView>) -> (at: nat)
    ensures
        stops_at(session, calls, at),
    decreases calls.len(),
{
    assert(calls.take(0) =~= Seq::empty());
    if calls.len() == 0 {
        0
    } else {
        match turn(session, calls[0]) {
            Ok((next, _, event)) => if passed_over(event) {
                let later = lemma_stops(next, calls.drop_first());
                lemma_stops_later(session, calls, later + 1);
                later + 1
            } else {
                0
            },
            Err(_) => 0,
        }
    }
}

/// A wait for a message answers the client's calls in turn up to the first
/// that puts a message, disconnects or is not taken, or to the close, and no
/// call after it. A put gives the message, a disconnect and a close give
/// none, what is not taken gives its failure; connecting, opening, getting,
/// closing a handle and being refused are passed over. There always is such
/// a first.
pub proof fn a_wait_stops_at_the_first_put(session: SessionView, calls: Seq<SegmentView>)
    ensures
        exists|at: nat| #[trigger] stops_at(session, calls, at),
        forall|at: nat| #[trigger]
            stops_at(session, calls, at) ==> {
                let (before, replies, _) = turns(session, calls.take(at as int))->Ok_0;
                waited(session, calls) == (if at == calls.len() {
                    Waited { session: before, replies, result: Ok(None) }
                } else {
                    match turn(before, calls[at as int]) {
                        Err(fault) => Waited { session: before, replies, result: Err(fault) },
                        Ok((next, reply, event)) => Waited {
                            session: next,
                            replies: replies.push(reply),
                            result: Ok(
                                match event {
                                    EventView::Put(arrived) => Some(arrived),
                                    _ => None,
                                },
                            ),
                        },
                    }
                })
            },
{
    let first = lemma_stops(session, calls);
    assert(stops_at(session, calls, first));
    assert forall|at: nat| #[trigger] stops_at(session, calls, at) implies {
        let (before, replies, _) = turns(session, calls.take(at as int))->Ok_0;
        waited(session, calls) == (if at == calls.len() {
            Waited { session: before, replies, result: Ok(None) }
        } else {
            match turn(before, calls[at as int]) {
                Err(fault) => Waited { session: before, replies, result: Err(fault) },
                Ok((next, reply, event)) => Waited {
                    session: next,
                    replies: replies.push(reply),
                    result: Ok(
                        match event {
                            EventView::Put(arrived) => Some(arrived),
                            _ => None,
                        },
                    ),
                },
            }
        })
    } by {
        lemma_waits(session, Seq::empty(), calls, at);
        let (before, replies, _) = turns(session, calls.take(at as int))->Ok_0;
        assert(Seq::empty() + replies =~= replies);
        if at < calls.len() {
            if let Ok((_, reply, _)) = turn(before, calls[at as int]) {
                assert(Seq::empty() + replies.push(reply) =~= replies.push(reply));
            }
        }
    }
}

} // verus!
