//! What a queue manager makes of a client's calls, by their places.

use vstd::prelude::*;

use crate::descriptor::{
    get_options_bytes, object_decoded, options_decoded, MessageDescriptorView, MQPMO_CATCHER,
};
use crate::error::Fault;
use crate::manager::{id_numbered, EventView, SessionView};
use crate::segment::{api_bytes, api_call, api_decoded, api_failed, be32_bytes, SegmentView};
use crate::text::{field_of, field_text, hex_byte, hex_of};

use super::calls::{lemma_shift32, lemma_shift_only, lemma_shift_part};
use super::reading::number_at;
use super::structures::{
    a_message_descriptor_by_its_places, a_message_descriptor_is_read_by_its_places,
    an_object_is_read_by_its_places, at_most_32, get_options_by_their_places, is_mqmd, opens_with,
    options_are_read_by_their_places,
};
use super::text::{a_field_is_the_text_and_then_spaces, bytes_are_two_digits_each, is_digit_of};
use super::wire::{
    a_header_is_read_by_its_places, calls_and_failures_by_their_places, holds, holds32, holds_only,
    lemma_written,
};

verus! {

/// Whether `reply` is to `call`: its type with the bit 0x10, its
/// conversation and its request.
pub open spec fn replies_to(reply: SegmentView, call: SegmentView) -> bool {
    reply.kind == call.kind | 0x10u8 && reply.conversation == call.conversation && reply.request
        == call.request
}

/// Whether `body` opens with the header of a granted call on `handle`.
pub open spec fn grants(body: Seq<u8>, handle: int) -> bool {
    body.len() >= 16 && holds_only(body, 0, 12, 0) && holds32(body, 12, handle)
}

/// Whether `body` is no more than the header of a call on `handle` that
/// failed with `reason`.
pub open spec fn refuses(body: Seq<u8>, reason: int, handle: int) -> bool {
    &&& body.len() == 16
    &&& holds32(body, 0, 0)
    &&& holds32(body, 4, 2)
    &&& holds32(body, 8, reason)
    &&& holds32(body, 12, handle)
}

/// Whether `id` is the message id of the queue manager `name` numbered
/// `number`: `AMQ `, eight bytes of the name, eight NULs and the number.
pub open spec fn is_message_id(id: Seq<u8>, name: Seq<char>, number: int) -> bool {
    &&& id.len() == 24
    &&& opens_with(id, 0x41, 0x4d, 0x51, 0x20)
    &&& id.subrange(4, 12) == field_of(name, 8)
    &&& holds_only(id, 12, 20, 0)
    &&& holds32(id, 20, number)
}

/// Whether `text` is `bytes` in hexadecimal, two lower-case digits to each.
pub open spec fn is_hex(text: Seq<char>, bytes: Seq<u8>) -> bool {
    &&& text.len() == 2 * bytes.len()
    &&& forall|i: int|
        0 <= i < bytes.len() ==> is_digit_of(text[2 * i], #[trigger] bytes[i] / 16) && is_digit_of(
            text[2 * i + 1],
            bytes[i] % 16,
        )
}

/// A message id by its places.
pub proof fn a_message_id_by_its_places(name: Seq<char>, number: u32)
    ensures
        is_message_id(id_numbered(name, number), name, number as int),
{
    let id = id_numbered(name, number);
    a_field_is_the_text_and_then_spaces(name, 8);
    assert(id.len() == 24);
    assert(id.subrange(4, 12) =~= field_of(name, 8));
    assert(id.subrange(20, 24) =~= be32_bytes(number));
    lemma_written(id, 20, number);
    assert forall|i: int| 12 <= i < 20 implies #[trigger] id[i] == 0 by {}
}

proof fn lemma_header(body: Seq<u8>)
    requires
        body.len() >= 16,
    ensures
        api_decoded(body) matches Ok((header, rest)) && header.handle == number_at(body, 12)
            && rest == body.skip(16),
{
    a_header_is_read_by_its_places(body);
    let (header, rest) = api_decoded(body)->Ok_0;
    assert(rest =~= body.skip(16));
}

proof fn lemma_refuses(reason: u32, handle: u32)
    ensures
        refuses(api_bytes(api_failed(reason, handle)), reason as int, handle as int),
{
    calls_and_failures_by_their_places(handle, reason);
    let bytes = api_bytes(api_failed(reason, handle));
    assert(bytes[0] == 0 && bytes[1] == 0 && bytes[2] == 0 && bytes[3] == 0);
}

proof fn lemma_grants(handle: u32, rest: Seq<u8>)
    ensures
        ({
            let body = api_bytes(api_call(handle)) + rest;
            &&& grants(body, handle as int)
            &&& body.skip(16) == rest
            &&& body.len() == 16 + rest.len()
        }),
{
    let header = api_bytes(api_call(handle));
    let body = header + rest;
    calls_and_failures_by_their_places(handle, 0);
    assert(body.subrange(0, 16) =~= header);
    lemma_shift_only(body, 0, header, 0, 12, 0);
    lemma_shift32(body, 0, header, 12, handle as int);
    assert(body.skip(16) =~= rest);
}

/// What a connect comes to: a client that asks for this queue manager by
/// name, or for none, is told the name and given back what it sent behind;
/// any other is refused with 2058.
pub open spec fn connects(
    before: SessionView,
    call: SegmentView,
    after: SessionView,
    reply: SegmentView,
    event: EventView,
) -> bool {
    let asked = if call.body.len() < 64 {
        Seq::empty()
    } else {
        field_text(call.body.subrange(16, 64))
    };
    &&& after == before
    &&& replies_to(reply, call)
    &&& if asked.len() == 0 || asked == before.manager.name {
        &&& event == EventView::Connected
        &&& grants(reply.body, 0)
        &&& reply.body.len() >= 64
        &&& reply.body.subrange(16, 64) == field_of(before.manager.name, 48)
        &&& reply.body.skip(64) == (if call.body.len() < 64 {
            Seq::empty()
        } else {
            call.body.skip(64)
        })
    } else {
        &&& event == EventView::Refused(2058)
        &&& refuses(reply.body, 2058, 0)
    }
}

/// A connect is answered by the name it asks for.
pub proof fn a_connect_is_answered_by_its_places(session: SessionView, call: SegmentView)
    requires
        call.kind == 0x81,
        call.body.len() >= 16,
    ensures
        session.answer(call) matches Ok((next, reply, event)) && connects(
            session,
            call,
            next,
            reply,
            event,
        ),
{
    lemma_header(call.body);
    let rest = call.body.skip(16);
    let name = field_of(session.manager.name, 48);
    a_field_is_the_text_and_then_spaces(session.manager.name, 48);
    lemma_refuses(2058, 0);
    let behind = if rest.len() < 48 {
        Seq::empty()
    } else {
        rest.skip(48)
    };
    lemma_grants(0, name + behind);
    let told = api_bytes(api_call(0)) + name + behind;
    assert(told =~= api_bytes(api_call(0)) + (name + behind));
    assert(told.skip(16) == name + behind);
    assert(told.subrange(16, 64) =~= name) by {
        assert forall|i: int| 0 <= i < 48 implies told.subrange(16, 64)[i] == name[i] by {
            assert(told.skip(16)[i] == told[16 + i]);
        }
    }
    assert(told.skip(64) =~= behind) by {
        assert forall|i: int| 0 <= i < behind.len() implies told.skip(64)[i] == behind[i] by {
            assert(told.skip(16)[48 + i] == told[64 + i]);
        }
    }
    if call.body.len() >= 64 {
        assert(rest.take(48) =~= call.body.subrange(16, 64));
        assert(rest.skip(48) =~= call.body.skip(64));
    }
}

/// The queue that an open asks for: named in an object descriptor, `OD  `,
/// that says it is a queue, type 1.
pub open spec fn queue_asked_for(body: Seq<u8>) -> Option<Seq<char>> {
    if body.len() >= 184 && opens_with(body.skip(16), 0x4f, 0x44, 0x20, 0x20) && number_at(
        body,
        24,
    ) == 1 {
        Some(field_text(body.subrange(28, 76)))
    } else {
        None
    }
}

/// What an open comes to: a queue that is defined is opened under the next
/// handle, which the reply gives with what was sent; anything else is
/// refused with 2085.
pub open spec fn opens(
    before: SessionView,
    call: SegmentView,
    after: SessionView,
    reply: SegmentView,
    event: EventView,
) -> bool {
    let asked = queue_asked_for(call.body);
    &&& replies_to(reply, call)
    &&& if asked is Some && before.manager.queues.contains_key(asked->0) {
        &&& event == EventView::Opened(asked->0)
        &&& grants(reply.body, before.next_handle as int)
        &&& reply.body.skip(16) == call.body.skip(16)
        &&& after.manager == before.manager
        &&& after.next_id == before.next_id
        &&& after.handles == before.handles.insert(before.next_handle, asked->0)
        &&& before.next_handle < u32::MAX ==> after.next_handle == before.next_handle + 1
    } else {
        &&& event == EventView::Refused(2085)
        &&& refuses(reply.body, 2085, 0)
        &&& after == before
    }
}

proof fn lemma_asked_for(body: Seq<u8>)
    requires
        body.len() >= 16,
    ensures
        match queue_asked_for(body) {
            Some(queue) => object_decoded(body.skip(16)) matches Ok((named, _)) && named == queue,
            None => object_decoded(body.skip(16)) is Err,
        },
{
    let rest = body.skip(16);
    an_object_is_read_by_its_places(rest);
    if body.len() >= 184 {
        assert(rest.subrange(12, 60) =~= body.subrange(28, 76));
        assert(rest[8] == body[24] && rest[9] == body[25] && rest[10] == body[26] && rest[11]
            == body[27]);
    }
}

/// An open is answered by the queue it names.
pub proof fn an_open_is_answered_by_its_places(session: SessionView, call: SegmentView)
    requires
        call.kind == 0x83,
        call.body.len() >= 16,
    ensures
        session.answer(call) matches Ok((next, reply, event)) && opens(
            session,
            call,
            next,
            reply,
            event,
        ),
{
    lemma_header(call.body);
    lemma_asked_for(call.body);
    lemma_refuses(2085, 0);
    lemma_grants(session.next_handle, call.body.skip(16));
}

/// Why a put is refused, if it is: 2019 where its handle is not open or what
/// it carries is no descriptor `MD  ` of 324 bytes and no options `PMO ` of
/// 128 with a length behind; 2031 where that length is over what the queue
/// manager carries, or over the bytes that follow.
pub open spec fn put_refused(session: SessionView, body: Seq<u8>) -> Option<u32> {
    if !session.handles.contains_key(number_at(body, 12)) || body.len() < 340 || !opens_with(
        body.skip(16),
        0x4d,
        0x44,
        0x20,
        0x20,
    ) || body.len() < 472 || !opens_with(body.skip(340), 0x50, 0x4d, 0x4f, 0x20) {
        Some(2019)
    } else if number_at(body, 468) > session.manager.max_message || body.len() - 472 < number_at(
        body,
        468,
    ) {
        Some(2031)
    } else {
        None
    }
}

/// What a put comes to: the bytes behind its options are the newest of the
/// queue that its handle is open on, under the next id. The reply holds the
/// descriptor that was sent with that very id in it, and the Stream's origin
/// ends in that id in hexadecimal.
pub open spec fn puts(
    before: SessionView,
    call: SegmentView,
    after: SessionView,
    reply: SegmentView,
    event: EventView,
) -> bool {
    let body = call.body;
    let handle = number_at(body, 12);
    let queue = before.handles[handle];
    let bytes = body.subrange(472, 472 + number_at(body, 468));
    &&& replies_to(reply, call)
    &&& match put_refused(before, body) {
        Some(reason) => {
            &&& event == EventView::Refused(reason)
            &&& refuses(reply.body, reason as int, handle as int)
            &&& after == before
        },
        None => {
            let id = reply.body.subrange(64, 88);
            &&& reply.body.len() == 340
            &&& grants(reply.body, handle as int)
            &&& is_message_id(id, before.manager.name, before.next_id as int)
            &&& is_mqmd(
                reply.body.skip(16),
                id,
                body.subrange(88, 112),
                field_text(body.subrange(48, 56)),
                field_text(body.subrange(292, 320)),
            )
            &&& event matches EventView::Put(arrived)
            &&& arrived.bytes == bytes
            &&& arrived.origin_uri.len() == "ibm-mq://"@.len() + before.manager.name.len() + 1
                + queue.len() + "?msgid="@.len() + 48
            &&& arrived.origin_uri.take(arrived.origin_uri.len() - 48) == "ibm-mq://"@
                + before.manager.name + "/"@ + queue + "?msgid="@
            &&& is_hex(arrived.origin_uri.skip(arrived.origin_uri.len() - 48), id)
            &&& after.handles == before.handles && after.next_handle == before.next_handle
            &&& before.next_id < u32::MAX ==> after.next_id == before.next_id + 1
            &&& after.manager.name == before.manager.name && after.manager.max_message
                == before.manager.max_message
            &&& after.manager.queues == before.manager.queues.insert(
                queue,
                (if before.manager.queues.contains_key(queue) {
                    before.manager.queues[queue]
                } else {
                    Seq::empty()
                }).push(bytes),
            )
        },
    }
}

proof fn lemma_put_read(session: SessionView, body: Seq<u8>)
    requires
        body.len() >= 16,
    ensures
        match put_refused(session, body) {
            Some(reason) => session.puts(number_at(body, 12), body.skip(16)) == Err::<
                (Seq<char>, MessageDescriptorView, Seq<u8>),
                u32,
            >(reason),
            None => session.puts(number_at(body, 12), body.skip(16)) == Ok::<
                (Seq<char>, MessageDescriptorView, Seq<u8>),
                u32,
            >(
                (
                    session.handles[number_at(body, 12)],
                    MessageDescriptorView {
                        message_id: body.subrange(64, 88),
                        correlation_id: body.subrange(88, 112),
                        format: field_text(body.subrange(48, 56)),
                        put_application: field_text(body.subrange(292, 320)),
                    },
                    body.subrange(472, 472 + number_at(body, 468)),
                ),
            ),
        },
{
    let rest = body.skip(16);
    a_message_descriptor_is_read_by_its_places(rest);
    if body.len() >= 340 {
        assert(rest.subrange(48, 72) =~= body.subrange(64, 88));
        assert(rest.subrange(72, 96) =~= body.subrange(88, 112));
        assert(rest.subrange(32, 40) =~= body.subrange(48, 56));
        assert(rest.subrange(276, 304) =~= body.subrange(292, 320));
        assert(rest.skip(324) =~= body.skip(340));
        assert(MQPMO_CATCHER@ =~= seq![0x50u8, 0x4d, 0x4f, 0x20]);
        let options = body.skip(340);
        options_are_read_by_their_places(options, MQPMO_CATCHER@, 128);
        if body.len() >= 472 {
            assert(options[128] == body[468] && options[129] == body[469] && options[130]
                == body[470] && options[131] == body[471]);
            assert(options.skip(132) =~= body.skip(472));
            if let Ok((length, data)) = options_decoded(options, MQPMO_CATCHER@, 128) {
                assert(length == number_at(body, 468));
                if data.len() >= length {
                    assert(data.take(length as int) =~= body.subrange(472, 472 + length));
                }
            }
        }
    }
}

proof fn lemma_origin(session: SessionView, queue: Seq<char>)
    ensures
        ({
            let origin = session.origin(queue);
            let front = "ibm-mq://"@ + session.manager.name + "/"@ + queue + "?msgid="@;
            &&& origin.len() == "ibm-mq://"@.len() + session.manager.name.len() + 1 + queue.len()
                + "?msgid="@.len() + 48
            &&& origin.take(origin.len() - 48) == front
            &&& is_hex(origin.skip(origin.len() - 48), session.message_id())
        }),
{
    let id = session.message_id();
    let front = "ibm-mq://"@ + session.manager.name + "/"@ + queue + "?msgid="@;
    let origin = session.origin(queue);
    reveal_strlit("/");
    a_message_id_by_its_places(session.manager.name, session.next_id);
    bytes_are_two_digits_each(id);
    assert(origin =~= front + hex_of(id));
    assert(origin.take(origin.len() - 48) =~= front);
    assert(origin.skip(origin.len() - 48) =~= hex_of(id));
}

proof fn lemma_put_reply(handle: u32, md: MessageDescriptorView)
    requires
        md.message_id.len() == 24,
        md.correlation_id.len() == 24,
    ensures
        ({
            let body = api_bytes(api_call(handle)) + md.bytes();
            &&& body.len() == 340
            &&& grants(body, handle as int)
            &&& is_mqmd(
                body.skip(16),
                md.message_id,
                md.correlation_id,
                md.format,
                md.put_application,
            )
            &&& body.subrange(64, 88) == md.message_id
        }),
{
    let body = api_bytes(api_call(handle)) + md.bytes();
    a_message_descriptor_by_its_places(md);
    assert(md.bytes().len() == 324 && holds(md.bytes(), 48, md.message_id)) by {
        reveal(is_mqmd);
    }
    lemma_grants(handle, md.bytes());
    assert(body.subrange(64, 88) =~= md.message_id) by {
        assert forall|i: int| 0 <= i < 24 implies body.subrange(64, 88)[i] == md.message_id[i] by {
            assert(body.skip(16)[48 + i] == body[64 + i]);
            assert(md.bytes()[48 + i] == md.message_id[i]);
        }
    }
}

proof fn lemma_put_kind(session: SessionView, call: SegmentView)
    requires
        call.kind == 0x86,
        call.body.len() >= 16,
    ensures
        ({
            let put = session.put(number_at(call.body, 12), call.body.skip(16));
            session.answer(call) == Ok::<(SessionView, SegmentView, EventView), Fault>(
                (put.0, call.reply(put.1), put.2),
            )
        }),
{
    lemma_header(call.body);
}

/// A put is answered by the message it carries.
pub proof fn a_put_is_answered_by_its_places(session: SessionView, call: SegmentView)
    requires
        call.kind == 0x86,
        call.body.len() >= 16,
    ensures
        session.answer(call) matches Ok((next, reply, event)) && puts(
            session,
            call,
            next,
            reply,
            event,
        ),
{
    let body = call.body;
    let handle = number_at(body, 12);
    lemma_put_kind(session, call);
    lemma_put_read(session, body);
    match put_refused(session, body) {
        Some(reason) => {
            lemma_refuses(reason, handle);
        },
        None => {
            let md = MessageDescriptorView {
                message_id: session.message_id(),
                correlation_id: body.subrange(88, 112),
                format: field_text(body.subrange(48, 56)),
                put_application: field_text(body.subrange(292, 320)),
            };
            a_message_id_by_its_places(session.manager.name, session.next_id);
            lemma_put_reply(handle, md);
            lemma_origin(session, session.handles[handle]);
        },
    }
}

/// What a get comes to: the oldest message of the queue that its handle is
/// open on, under the next id, and it is gone; an empty queue is answered
/// 2033, a handle that is not open 2019.
pub open spec fn gets(
    before: SessionView,
    call: SegmentView,
    after: SessionView,
    reply: SegmentView,
    event: EventView,
) -> bool {
    let handle = number_at(call.body, 12);
    let queue = before.handles[handle];
    &&& replies_to(reply, call)
    &&& if !before.handles.contains_key(handle) {
        &&& event == EventView::Refused(2019)
        &&& refuses(reply.body, 2019, handle as int)
        &&& after == before
    } else if !before.manager.queues.contains_key(queue) || before.manager.queues[queue].len()
        == 0 {
        &&& event == EventView::Got(queue)
        &&& refuses(reply.body, 2033, handle as int)
        &&& after == before
    } else {
        let held = before.manager.queues[queue];
        &&& event == EventView::Got(queue)
        &&& reply.body.len() == 416 + held[0].len()
        &&& grants(reply.body, handle as int)
        &&& is_message_id(
            reply.body.subrange(64, 88),
            before.manager.name,
            before.next_id as int,
        )
        &&& is_mqmd(
            reply.body.subrange(16, 340),
            reply.body.subrange(64, 88),
            Seq::new(24, |i: int| 0u8),
            Seq::empty(),
            seq!['x', 'm', 'i', 'p'],
        )
        &&& opens_with(reply.body.skip(340), 0x47, 0x4d, 0x4f, 0x20)
        &&& holds32(reply.body, 344, 1)
        &&& holds32(reply.body, 348, 0x2000)
        &&& holds_only(reply.body, 352, 364, 0)
        &&& reply.body.subrange(364, 412) == field_of(queue, 48)
        &&& holds32(reply.body, 412, at_most_32(held[0].len()))
        &&& reply.body.skip(416) == held[0]
        &&& after.handles == before.handles && after.next_handle == before.next_handle
        &&& before.next_id < u32::MAX ==> after.next_id == before.next_id + 1
        &&& after.manager.name == before.manager.name && after.manager.max_message
            == before.manager.max_message
        &&& after.manager.queues == before.manager.queues.insert(queue, held.skip(1))
    }
}

proof fn lemma_get_parts(
    body: Seq<u8>,
    header: Seq<u8>,
    md: Seq<u8>,
    options: Seq<u8>,
    bytes: Seq<u8>,
    handle: int,
    id: Seq<u8>,
    queue: Seq<char>,
)
    requires
        body == header + md + options + bytes,
        header.len() == 16 && holds_only(header, 0, 12, 0) && holds32(header, 12, handle),
        id.len() == 24,
        is_mqmd(
            md,
            id,
            Seq::new(24, |i: int| 0u8),
            Seq::empty(),
            seq!['x', 'm', 'i', 'p'],
        ),
        options.len() == 76,
        opens_with(options, 0x47, 0x4d, 0x4f, 0x20),
        holds32(options, 4, 1),
        holds32(options, 8, 0x2000),
        holds_only(options, 12, 24, 0),
        holds(options, 24, field_of(queue, 48)),
        holds32(options, 72, at_most_32(bytes.len())),
        field_of(queue, 48).len() == 48,
    ensures
        body.len() == 416 + bytes.len(),
        grants(body, handle),
        body.subrange(64, 88) == id,
        is_mqmd(
            body.subrange(16, 340),
            id,
            Seq::new(24, |i: int| 0u8),
            Seq::empty(),
            seq!['x', 'm', 'i', 'p'],
        ),
        opens_with(body.skip(340), 0x47, 0x4d, 0x4f, 0x20),
        holds32(body, 344, 1),
        holds32(body, 348, 0x2000),
        holds_only(body, 352, 364, 0),
        body.subrange(364, 412) == field_of(queue, 48),
        holds32(body, 412, at_most_32(bytes.len())),
        body.skip(416) == bytes,
{
    assert(md.len() == 324 && holds(md, 48, id)) by {
        reveal(is_mqmd);
    }
    assert(body.subrange(0, 16) =~= header);
    assert(body.subrange(16, 340) =~= md);
    assert(body.subrange(340, 416) =~= options);
    assert(body.skip(416) =~= bytes);
    lemma_shift_only(body, 0, header, 0, 12, 0);
    lemma_shift32(body, 0, header, 12, handle);
    lemma_shift_part(body, 16, md, 48, id);
    lemma_shift32(body, 340, options, 4, 1);
    lemma_shift32(body, 340, options, 8, 0x2000);
    lemma_shift_only(body, 340, options, 12, 24, 0);
    lemma_shift_part(body, 340, options, 24, field_of(queue, 48));
    lemma_shift32(body, 340, options, 72, at_most_32(bytes.len()));
    let sub = body.subrange(340, 416);
    let on = body.skip(340);
    assert(sub[0] == on[0] && sub[1] == on[1] && sub[2] == on[2] && sub[3] == on[3]);
}

proof fn lemma_got_reply(
    body: Seq<u8>,
    handle: u32,
    md: MessageDescriptorView,
    queue: Seq<char>,
    bytes: Seq<u8>,
)
    requires
        md.message_id.len() == 24,
        md.correlation_id == Seq::new(24, |i: int| 0u8),
        md.format == Seq::<char>::empty(),
        md.put_application == seq!['x', 'm', 'i', 'p'],
        body == api_bytes(api_call(handle)) + md.bytes() + get_options_bytes(queue, bytes.len())
            + bytes,
    ensures
        ({
            &&& body.len() == 416 + bytes.len()
            &&& grants(body, handle as int)
            &&& body.subrange(64, 88) == md.message_id
            &&& is_mqmd(
                body.subrange(16, 340),
                md.message_id,
                Seq::new(24, |i: int| 0u8),
                Seq::empty(),
                seq!['x', 'm', 'i', 'p'],
            )
            &&& opens_with(body.skip(340), 0x47, 0x4d, 0x4f, 0x20)
            &&& holds32(body, 344, 1)
            &&& holds32(body, 348, 0x2000)
            &&& holds_only(body, 352, 364, 0)
            &&& body.subrange(364, 412) == field_of(queue, 48)
            &&& holds32(body, 412, at_most_32(bytes.len()))
            &&& body.skip(416) == bytes
        }),
{
    let header = api_bytes(api_call(handle));
    let options = get_options_bytes(queue, bytes.len());
    calls_and_failures_by_their_places(handle, 0);
    a_message_descriptor_by_its_places(md);
    get_options_by_their_places(queue, bytes.len());
    a_field_is_the_text_and_then_spaces(queue, 48);
    lemma_get_parts(
        body,
        header,
        md.bytes(),
        options,
        bytes,
        handle as int,
        md.message_id,
        queue,
    );
}

proof fn lemma_get_kind(session: SessionView, call: SegmentView)
    requires
        call.kind == 0x85,
        call.body.len() >= 16,
    ensures
        ({
            let get = session.get(number_at(call.body, 12));
            session.answer(call) == Ok::<(SessionView, SegmentView, EventView), Fault>(
                (get.0, call.reply(get.1), get.2),
            )
        }),
{
    lemma_header(call.body);
}

/// A get is answered by what its queue holds.
pub proof fn a_get_is_answered_by_its_places(session: SessionView, call: SegmentView)
    requires
        call.kind == 0x85,
        call.body.len() >= 16,
    ensures
        session.answer(call) matches Ok((next, reply, event)) && gets(
            session,
            call,
            next,
            reply,
            event,
        ),
{
    let handle = number_at(call.body, 12);
    lemma_get_kind(session, call);
    lemma_refuses(2019, handle);
    lemma_refuses(2033, handle);
    if session.gets(handle) {
        let queue = session.handles[handle];
        let held = session.manager.held(queue);
        let md = MessageDescriptorView {
            message_id: session.message_id(),
            ..MessageDescriptorView::datagram("xmip"@)
        };
        a_message_id_by_its_places(session.manager.name, session.next_id);
        reveal_strlit("");
        reveal_strlit("xmip");
        assert(md.correlation_id =~= Seq::new(24, |i: int| 0u8));
        assert(md.format =~= Seq::<char>::empty());
        assert(md.put_application =~= seq!['x', 'm', 'i', 'p']);
        lemma_got_reply(session.get(handle).1, handle, md, queue, held[0]);
        assert(held.drop_first() =~= held.skip(1));
    }
}

/// A close takes its handle away and is granted, a disconnect is granted and
/// changes nothing.
pub proof fn a_close_and_a_disconnect_are_answered_by_their_places(
    session: SessionView,
    close: SegmentView,
    disconnect: SegmentView,
)
    requires
        close.kind == 0x84,
        close.body.len() >= 16,
        disconnect.kind == 0x82,
        disconnect.body.len() >= 16,
    ensures
        session.answer(close) matches Ok((next, reply, event)) && {
            &&& event == EventView::Closed
            &&& replies_to(reply, close)
            &&& reply.body.len() == 16 && grants(reply.body, number_at(close.body, 12) as int)
            &&& next == (SessionView {
                handles: session.handles.remove(number_at(close.body, 12)),
                ..session
            })
        },
        session.answer(disconnect) matches Ok((next, reply, event)) && {
            &&& event == EventView::Disconnected
            &&& replies_to(reply, disconnect)
            &&& reply.body.len() == 16 && grants(reply.body, 0)
            &&& next == session
        },
{
    lemma_header(close.body);
    lemma_header(disconnect.body);
    calls_and_failures_by_their_places(number_at(close.body, 12), 0);
    calls_and_failures_by_their_places(0, 0);
}

/// What is too short for a header, or of no type that a queue manager takes,
/// is refused for good.
pub proof fn what_is_not_a_call_is_refused(session: SessionView, call: SegmentView)
    requires
        call.body.len() < 16 || !(0x81 <= call.kind <= 0x86),
    ensures
        session.answer(call) matches Err(fault) && !fault.retryable && fault.message == (
        if call.body.len() < 16 {
            "a segment too short for an API header"@
        } else {
            "a 0x"@ + hex_byte(call.kind) + " segment"@
        }),
{
    a_header_is_read_by_its_places(call.body);
}

} // verus!
