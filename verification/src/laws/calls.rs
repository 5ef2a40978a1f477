//! The calls that a client makes, by their places.

use vstd::prelude::*;

use crate::client::{
    application_type, close_body, conn_body, get_body, open_body, put_body, reason_error, Client,
    ClientView,
};
use crate::descriptor::{
    get_options_bytes, object_bytes, put_options_bytes, InitialDataView, MessageDescriptorView,
    OPEN_FAIL_IF_QUIESCING, OPEN_INPUT, OPEN_OUTPUT,
};
use crate::error::TransportError;
use crate::segment::{api_bytes, api_call, be32_bytes, nuls, Segment};
use crate::text::{decimal, field_of};

use super::structures::{
    a_message_descriptor_by_its_places, an_object_by_its_places, at_most_32,
    get_options_by_their_places, initial_data_by_its_places, is_initial_data, is_mqmd, opens_with,
    put_options_by_their_places,
};
use super::text::a_field_is_the_text_and_then_spaces;
use super::wire::{calls_and_failures_by_their_places, holds, holds32, holds_only, lemma_written};

verus! {

/// Whether `body` is an `MQCONN` of 132 bytes: the queue manager, the
/// application and its type at their places, and nothing else.
pub open spec fn is_conn(
    body: Seq<u8>,
    queue_manager: Seq<char>,
    application: Seq<char>,
    kind: int,
) -> bool {
    &&& body.len() == 132
    &&& holds_only(body, 0, 16, 0)
    &&& body.subrange(16, 64) == field_of(queue_manager, 48)
    &&& body.subrange(64, 92) == field_of(application, 28)
    &&& holds32(body, 92, kind)
    &&& holds_only(body, 96, 132, 0)
}

/// Whether `body` is an `MQOPEN` of 188 bytes: the queue's name in an object
/// descriptor, and last the options.
pub open spec fn is_open(body: Seq<u8>, queue: Seq<char>, options: int) -> bool {
    &&& body.len() == 188
    &&& holds_only(body, 0, 16, 0)
    &&& opens_with(body.skip(16), 0x4f, 0x44, 0x20, 0x20)
    &&& holds32(body, 20, 1)
    &&& holds32(body, 24, 1)
    &&& body.subrange(28, 76) == field_of(queue, 48)
    &&& holds_only(body, 76, 184, 0x20)
    &&& holds32(body, 184, options)
}

/// Whether `body` is an `MQPUT` of `bytes` on `handle`: a datagram's
/// descriptor from `xmip`, the length, and the bytes.
pub open spec fn is_put(body: Seq<u8>, handle: int, bytes: Seq<u8>) -> bool {
    &&& body.len() == 472 + bytes.len()
    &&& holds_only(body, 0, 12, 0)
    &&& holds32(body, 12, handle)
    &&& is_mqmd(
        body.subrange(16, 340),
        Seq::new(24, |i: int| 0u8),
        Seq::new(24, |i: int| 0u8),
        Seq::empty(),
        seq!['x', 'm', 'i', 'p'],
    )
    &&& opens_with(body.skip(340), 0x50, 0x4d, 0x4f, 0x20)
    &&& holds32(body, 344, 1)
    &&& holds32(body, 348, 0x2000)
    &&& holds_only(body, 352, 372, 0)
    &&& holds_only(body, 372, 468, 0x20)
    &&& holds32(body, 468, at_most_32(bytes.len()))
    &&& body.skip(472) == bytes
}

/// Whether `body` is an `MQGET` on `handle` with room for `max_message`
/// bytes.
pub open spec fn is_get(body: Seq<u8>, handle: int, max_message: int) -> bool {
    &&& body.len() == 416
    &&& holds_only(body, 0, 12, 0)
    &&& holds32(body, 12, handle)
    &&& is_mqmd(
        body.subrange(16, 340),
        Seq::new(24, |i: int| 0u8),
        Seq::new(24, |i: int| 0u8),
        Seq::empty(),
        Seq::empty(),
    )
    &&& opens_with(body.skip(340), 0x47, 0x4d, 0x4f, 0x20)
    &&& holds32(body, 344, 1)
    &&& holds32(body, 348, 0x2000)
    &&& holds_only(body, 352, 364, 0)
    &&& holds_only(body, 364, 412, 0x20)
    &&& holds32(body, 412, max_message)
}

/// Whether `body` is an `MQCLOSE` of `handle`.
pub open spec fn is_close(body: Seq<u8>, handle: int) -> bool {
    &&& body.len() == 20
    &&& holds_only(body, 0, 12, 0)
    &&& holds32(body, 12, handle)
    &&& holds_only(body, 16, 20, 0)
}

/// What a part holds at a place, the whole holds as far on as the part
/// stands.
pub proof fn lemma_shift32(whole: Seq<u8>, at: int, part: Seq<u8>, place: int, n: int)
    requires
        0 <= at,
        at + part.len() <= whole.len(),
        whole.subrange(at, at + part.len()) == part,
        holds32(part, place, n),
    ensures
        holds32(whole, at + place, n),
{
    let sub = whole.subrange(at, at + part.len());
    assert(sub[place] == whole[at + place] && sub[place + 1] == whole[at + place + 1] && sub[place
        + 2] == whole[at + place + 2] && sub[place + 3] == whole[at + place + 3]);
}

/// As [`lemma_shift32`], of a run of one byte.
pub proof fn lemma_shift_only(
    whole: Seq<u8>,
    at: int,
    part: Seq<u8>,
    from: int,
    to: int,
    byte: u8,
)
    requires
        0 <= at,
        at + part.len() <= whole.len(),
        whole.subrange(at, at + part.len()) == part,
        holds_only(part, from, to, byte),
    ensures
        holds_only(whole, at + from, at + to, byte),
{
    let sub = whole.subrange(at, at + part.len());
    assert forall|i: int| at + from <= i < at + to implies #[trigger] whole[i] == byte by {
        assert(sub[i - at] == whole[i]);
    }
}

/// As [`lemma_shift32`], of a part of the part.
pub proof fn lemma_shift_part(whole: Seq<u8>, at: int, part: Seq<u8>, place: int, inner: Seq<u8>)
    requires
        0 <= at,
        at + part.len() <= whole.len(),
        whole.subrange(at, at + part.len()) == part,
        holds(part, place, inner),
    ensures
        whole.subrange(at + place, at + place + inner.len()) == inner,
{
    let sub = whole.subrange(at, at + part.len());
    assert forall|i: int| 0 <= i < inner.len() implies whole.subrange(
        at + place,
        at + place + inner.len(),
    )[i] == inner[i] by {
        assert(sub[place + i] == whole[at + place + i]);
    }
    assert(whole.subrange(at + place, at + place + inner.len()) =~= inner);
}

/// An `MQCONN` by its places.
pub proof fn a_connect_by_its_places(
    queue_manager: Seq<char>,
    application: Seq<char>,
    kind: u32,
)
    ensures
        is_conn(
            conn_body(queue_manager, application, kind),
            queue_manager,
            application,
            kind as int,
        ),
{
    let body = conn_body(queue_manager, application, kind);
    let header = api_bytes(api_call(0));
    a_field_is_the_text_and_then_spaces(queue_manager, 48);
    a_field_is_the_text_and_then_spaces(application, 28);
    calls_and_failures_by_their_places(0, 0);
    assert(body.len() == 132);
    assert(body.subrange(0, 16) =~= header);
    assert(body.subrange(16, 64) =~= field_of(queue_manager, 48));
    assert(body.subrange(64, 92) =~= field_of(application, 28));
    assert(body.subrange(92, 96) =~= be32_bytes(kind));
    lemma_written(body, 92, kind);
    lemma_shift_only(body, 0, header, 0, 12, 0);
    lemma_zero(header);
    lemma_shift_only(body, 0, header, 0, 16, 0);
    assert(body.subrange(96, 132) =~= nuls(32) + be32_bytes(0));
    assert forall|i: int| 96 <= i < 132 implies #[trigger] body[i] == 0 by {
        assert(body.subrange(96, 132)[i - 96] == body[i]);
    }
}

proof fn lemma_zero(header: Seq<u8>)
    requires
        header.len() == 16,
        holds_only(header, 0, 12, 0),
        holds32(header, 12, 0),
    ensures
        holds_only(header, 0, 16, 0),
{
    assert(header[12] == 0 && header[13] == 0 && header[14] == 0 && header[15] == 0);
}

/// An `MQOPEN` by its places: its last four bytes are the options it was
/// asked to open with, whatever they are.
pub proof fn an_open_by_its_places(queue: Seq<char>, options: u32)
    ensures
        is_open(open_body(queue, options), queue, options as int),
{
    let body = open_body(queue, options);
    let header = api_bytes(api_call(0));
    let object = object_bytes(queue);
    calls_and_failures_by_their_places(0, 0);
    lemma_zero(header);
    an_object_by_its_places(queue);
    a_field_is_the_text_and_then_spaces(queue, 48);
    assert(body.len() == 188);
    assert(body.subrange(0, 16) =~= header);
    assert(body.subrange(16, 184) =~= object);
    assert(body.subrange(184, 188) =~= be32_bytes(options));
    lemma_shift_only(body, 0, header, 0, 16, 0);
    lemma_shift32(body, 16, object, 4, 1);
    lemma_shift32(body, 16, object, 8, 1);
    lemma_shift_part(body, 16, object, 12, field_of(queue, 48));
    lemma_shift_only(body, 16, object, 60, 168, 0x20);
    lemma_written(body, 184, options);
    assert(body.subrange(16, 184)[0] == body[16] && body.subrange(16, 184)[1] == body[17]
        && body.subrange(16, 184)[2] == body[18] && body.subrange(16, 184)[3] == body[19]);
    assert(body.skip(16)[0] == body[16] && body.skip(16)[1] == body[17] && body.skip(16)[2]
        == body[18] && body.skip(16)[3] == body[19]);
}

proof fn lemma_datagram(put_application: Seq<char>)
    ensures
        is_mqmd(
            MessageDescriptorView::datagram(put_application).bytes(),
            Seq::new(24, |i: int| 0u8),
            Seq::new(24, |i: int| 0u8),
            Seq::empty(),
            put_application,
        ),
{
    reveal_strlit("");
    let md = MessageDescriptorView::datagram(put_application);
    a_message_descriptor_by_its_places(md);
    assert(md.message_id =~= Seq::new(24, |i: int| 0u8));
    assert(md.correlation_id =~= Seq::new(24, |i: int| 0u8));
    assert(md.format =~= Seq::empty());
}

proof fn lemma_blank_field()
    ensures
        field_of(""@, 48).len() == 48,
        holds_only(field_of(""@, 48), 0, 48, 0x20),
{
    reveal_strlit("");
    a_field_is_the_text_and_then_spaces(""@, 48);
}

proof fn lemma_four_parts(a: Seq<u8>, b: Seq<u8>, c: Seq<u8>, d: Seq<u8>)
    ensures
        ({
            let whole = a + b + c + d;
            &&& whole.len() == a.len() + b.len() + c.len() + d.len()
            &&& whole.subrange(0, a.len() as int) == a
            &&& whole.subrange(a.len() as int, a.len() + b.len() as int) == b
            &&& whole.subrange(a.len() + b.len() as int, a.len() + b.len() + c.len() as int) == c
            &&& whole.skip(a.len() + b.len() + c.len() as int) == d
        }),
{
    let whole = a + b + c + d;
    assert(whole.subrange(0, a.len() as int) =~= a);
    assert(whole.subrange(a.len() as int, a.len() + b.len() as int) =~= b);
    assert(whole.subrange(a.len() + b.len() as int, a.len() + b.len() + c.len() as int) =~= c);
    assert(whole.skip(a.len() + b.len() + c.len() as int) =~= d);
}

proof fn lemma_opens_at(whole: Seq<u8>, at: int, part: Seq<u8>, a: u8, b: u8, c: u8, d: u8)
    requires
        0 <= at,
        at + part.len() <= whole.len(),
        whole.subrange(at, at + part.len()) == part,
        opens_with(part, a, b, c, d),
    ensures
        opens_with(whole.skip(at), a, b, c, d),
{
    let sub = whole.subrange(at, at + part.len());
    let on = whole.skip(at);
    assert(sub[0] == on[0] && sub[1] == on[1] && sub[2] == on[2] && sub[3] == on[3]);
}

proof fn lemma_blank_held(options: Seq<u8>, at: int)
    requires
        holds(options, at, field_of(""@, 48)),
    ensures
        holds_only(options, at, at + 48, 0x20),
{
    lemma_blank_field();
    assert forall|i: int| at <= i < at + 48 implies #[trigger] options[i] == 0x20 by {
        assert(field_of(""@, 48)[i - at] == 0x20);
        assert(options[at + (i - at)] == field_of(""@, 48)[i - at]);
    }
}

proof fn lemma_put_parts(
    body: Seq<u8>,
    header: Seq<u8>,
    md: Seq<u8>,
    options: Seq<u8>,
    handle: int,
    bytes: Seq<u8>,
)
    requires
        body == header + md + options + bytes,
        header.len() == 16 && holds_only(header, 0, 12, 0) && holds32(header, 12, handle),
        is_mqmd(
            md,
            Seq::new(24, |i: int| 0u8),
            Seq::new(24, |i: int| 0u8),
            Seq::empty(),
            seq!['x', 'm', 'i', 'p'],
        ),
        options.len() == 132,
        opens_with(options, 0x50, 0x4d, 0x4f, 0x20),
        holds32(options, 4, 1),
        holds32(options, 8, 0x2000),
        holds_only(options, 12, 32, 0),
        holds_only(options, 32, 80, 0x20),
        holds_only(options, 80, 128, 0x20),
        holds32(options, 128, at_most_32(bytes.len())),
    ensures
        is_put(body, handle, bytes),
{
    assert(md.len() == 324) by {
        reveal(is_mqmd);
    }
    lemma_four_parts(header, md, options, bytes);
    assert(body.subrange(16, 340) == md);
    assert(body.subrange(340, 472) == options);
    lemma_shift_only(body, 0, header, 0, 12, 0);
    lemma_shift32(body, 0, header, 12, handle);
    lemma_opens_at(body, 340, options, 0x50, 0x4d, 0x4f, 0x20);
    lemma_shift32(body, 340, options, 4, 1);
    lemma_shift32(body, 340, options, 8, 0x2000);
    lemma_shift_only(body, 340, options, 12, 32, 0);
    lemma_shift_only(body, 340, options, 32, 80, 0x20);
    lemma_shift_only(body, 340, options, 80, 128, 0x20);
    lemma_shift32(body, 340, options, 128, at_most_32(bytes.len()));
}

/// An `MQPUT` by its places.
pub proof fn a_put_by_its_places(handle: u32, bytes: Seq<u8>)
    ensures
        is_put(put_body(handle, bytes), handle as int, bytes),
{
    let header = api_bytes(api_call(handle));
    let md = MessageDescriptorView::datagram("xmip"@).bytes();
    let options = put_options_bytes(""@, bytes.len());
    assert("xmip"@ == seq!['x', 'm', 'i', 'p']) by {
        reveal_strlit("xmip");
        assert("xmip"@ =~= seq!['x', 'm', 'i', 'p']);
    }
    calls_and_failures_by_their_places(handle, 0);
    lemma_datagram("xmip"@);
    put_options_by_their_places(""@, bytes.len());
    lemma_blank_held(options, 32);
    lemma_put_parts(put_body(handle, bytes), header, md, options, handle as int, bytes);
}

proof fn lemma_get_parts(
    body: Seq<u8>,
    header: Seq<u8>,
    md: Seq<u8>,
    options: Seq<u8>,
    handle: int,
    max_message: int,
)
    requires
        body == header + md + options,
        header.len() == 16 && holds_only(header, 0, 12, 0) && holds32(header, 12, handle),
        is_mqmd(
            md,
            Seq::new(24, |i: int| 0u8),
            Seq::new(24, |i: int| 0u8),
            Seq::empty(),
            Seq::empty(),
        ),
        options.len() == 76,
        opens_with(options, 0x47, 0x4d, 0x4f, 0x20),
        holds32(options, 4, 1),
        holds32(options, 8, 0x2000),
        holds_only(options, 12, 24, 0),
        holds_only(options, 24, 72, 0x20),
        holds32(options, 72, max_message),
    ensures
        is_get(body, handle, max_message),
{
    assert(md.len() == 324) by {
        reveal(is_mqmd);
    }
    lemma_four_parts(header, md, options, Seq::empty());
    assert(body + Seq::<u8>::empty() =~= body);
    assert(body.subrange(16, 340) == md);
    assert(body.subrange(340, 416) == options);
    lemma_shift_only(body, 0, header, 0, 12, 0);
    lemma_shift32(body, 0, header, 12, handle);
    lemma_opens_at(body, 340, options, 0x47, 0x4d, 0x4f, 0x20);
    lemma_shift32(body, 340, options, 4, 1);
    lemma_shift32(body, 340, options, 8, 0x2000);
    lemma_shift_only(body, 340, options, 12, 24, 0);
    lemma_shift_only(body, 340, options, 24, 72, 0x20);
    lemma_shift32(body, 340, options, 72, max_message);
}

/// An `MQGET` by its places.
pub proof fn a_get_by_its_places(handle: u32, max_message: u32)
    ensures
        is_get(get_body(handle, max_message), handle as int, max_message as int),
{
    let header = api_bytes(api_call(handle));
    let md = MessageDescriptorView::datagram(""@).bytes();
    let options = get_options_bytes(""@, max_message as nat);
    assert(""@ == Seq::<char>::empty()) by {
        reveal_strlit("");
        assert(""@ =~= Seq::<char>::empty());
    }
    calls_and_failures_by_their_places(handle, 0);
    lemma_datagram(""@);
    get_options_by_their_places(""@, max_message as nat);
    lemma_blank_held(options, 24);
    lemma_get_parts(
        get_body(handle, max_message),
        header,
        md,
        options,
        handle as int,
        max_message as int,
    );
}

/// An `MQCLOSE` by its places.
pub proof fn a_close_by_its_places(handle: u32)
    ensures
        is_close(close_body(handle), handle as int),
{
    let body = close_body(handle);
    let header = api_bytes(api_call(handle));
    calls_and_failures_by_their_places(handle, 0);
    assert(body.len() == 20);
    assert(body.subrange(0, 16) =~= header);
    lemma_shift_only(body, 0, header, 0, 12, 0);
    lemma_shift32(body, 0, header, 12, handle as int);
    assert(body.subrange(16, 20) =~= be32_bytes(0));
    assert forall|i: int| 16 <= i < 20 implies #[trigger] body[i] == 0 by {
        assert(body.subrange(16, 20)[i - 16] == body[i]);
    }
}

/// Whether `segment` is the call of type `kind` that follows the request
/// `before`: the next request, on the conversation 1.
pub open spec fn is_next_call(segment: Segment, kind: int, before: u32) -> bool {
    segment.kind == kind && segment.conversation == 1 && segment.request == before + 1
}

/// A client opens with initial data: type 1, request 1, a size of four
/// mebibytes, and the channel and queue manager it was given.
pub proof fn connect_opens_with_initial_data(
    queue_manager: &str,
    channel: &str,
    opening: (Client, Segment),
)
    requires
        call_ensures(Client::connect, (queue_manager, channel), opening),
    ensures
        opening.0@.request == 1,
        opening.0@.max_message == 4_194_304,
        opening.0@.queue_manager == queue_manager@,
        is_next_call(opening.1, 0x01, 0),
        is_initial_data(opening.1.body@, 4_194_304, channel@, queue_manager@),
{
    assert(opening.1@.body == opening.1.body@);
    initial_data_by_its_places(
        InitialDataView {
            max_message: 4_194_304,
            channel: channel@,
            queue_manager: queue_manager@,
        },
    );
}

/// An open asks for the queue by name and ends in exactly the options it was
/// given; the client has made one request more and is else as it was.
pub proof fn open_carries_its_queue_and_options(
    client: &mut Client,
    queue: &str,
    options: u32,
    segment: Segment,
)
    requires
        call_ensures(Client::open, (client, queue, options), segment),
        old(client)@.request < u32::MAX,
    ensures
        is_next_call(segment, 0x83, old(client)@.request),
        is_open(segment.body@, queue@, options as int),
        final(client)@ == (ClientView {
            request: (old(client)@.request + 1) as u32,
            ..old(client)@
        }),
{
    assert(segment@.body == segment.body@);
    an_open_by_its_places(queue@, options);
}

/// The options say what a queue is opened for: bit 0 for input, bit 4 for
/// output, bit 13 to fail while the queue manager quiesces.
pub proof fn the_open_options_by_their_bits()
    ensures
        OPEN_INPUT == 0x0001,
        OPEN_OUTPUT == 0x0010,
        OPEN_FAIL_IF_QUIESCING == 0x2000,
        OPEN_INPUT | OPEN_FAIL_IF_QUIESCING == 0x2001,
        OPEN_OUTPUT | OPEN_FAIL_IF_QUIESCING == 0x2010,
{
    assert(0x1u32 | 0x2000u32 == 0x2001u32) by (bit_vector);
    assert(0x10u32 | 0x2000u32 == 0x2010u32) by (bit_vector);
}

/// A put carries its bytes under its handle, unless they are more than was
/// agreed: then it is refused with `2031`, for good, and no request is made.
pub proof fn put_carries_its_bytes(
    client: &mut Client,
    handle: u32,
    bytes: &[u8],
    over: &str,
    result: Result<Segment, TransportError>,
)
    requires
        call_ensures(Client::put, (client, handle, bytes, over), result),
        old(client)@.request < u32::MAX,
    ensures
        match result {
            Ok(segment) => {
                &&& bytes@.len() <= old(client)@.max_message
                &&& is_next_call(segment, 0x86, old(client)@.request)
                &&& is_put(segment.body@, handle as int, bytes@)
                &&& final(client)@ == (ClientView {
                    request: (old(client)@.request + 1) as u32,
                    ..old(client)@
                })
            },
            Err(error) => {
                &&& bytes@.len() > old(client)@.max_message
                &&& error.message@ == over@ + ": MQRC "@ + decimal(2031)
                &&& !error.retryable
                &&& final(client)@ == old(client)@
            },
        },
{
    a_put_by_its_places(handle, bytes@);
    if let Ok(segment) = result {
        assert(segment@.body == segment.body@);
    }
}

/// A get asks on its handle with room for what was agreed, a close names its
/// handle, a disconnect names none.
pub proof fn get_carries_its_handle(client: &mut Client, handle: u32, segment: Segment)
    requires
        call_ensures(Client::get, (client, handle), segment),
        old(client)@.request < u32::MAX,
    ensures
        is_next_call(segment, 0x85, old(client)@.request),
        is_get(segment.body@, handle as int, old(client)@.max_message as int),
        final(client)@ == (ClientView {
            request: (old(client)@.request + 1) as u32,
            ..old(client)@
        }),
{
    a_get_by_its_places(handle, old(client)@.max_message);
    assert(segment@.body == segment.body@);
}

/// A close names its handle.
pub proof fn close_carries_its_handle(client: &mut Client, handle: u32, segment: Segment)
    requires
        call_ensures(Client::close, (client, handle), segment),
        old(client)@.request < u32::MAX,
    ensures
        is_next_call(segment, 0x84, old(client)@.request),
        is_close(segment.body@, handle as int),
        final(client)@ == (ClientView {
            request: (old(client)@.request + 1) as u32,
            ..old(client)@
        }),
{
    a_close_by_its_places(handle);
    assert(segment@.body == segment.body@);
}

/// A disconnect is a bare header.
pub proof fn disconnect_is_a_bare_header(client: Client, segment: Segment)
    requires
        call_ensures(Client::disconnect, (client,), segment),
        client@.request < u32::MAX,
    ensures
        is_next_call(segment, 0x82, client@.request),
        segment.body@.len() == 16,
        holds_only(segment.body@, 0, 16, 0),
{
    calls_and_failures_by_their_places(0, 0);
    lemma_zero(api_bytes(api_call(0)));
    assert(segment@.body == segment.body@);
}

/// What a client says of itself.
pub proof fn a_client_says_what_it_holds(
    client: &Client,
    request: u32,
    max_message: u32,
    queue_manager: &str,
)
    requires
        call_ensures(Client::request, (client,), request),
        call_ensures(Client::max_message, (client,), max_message),
        call_ensures(Client::queue_manager, (client,), queue_manager),
    ensures
        client@.request == request,
        client@.max_message == max_message,
        client@.queue_manager == queue_manager@,
{
}

/// A reason is said in its context, and clears where it is a queue manager
/// not available, a broken connection or a full queue.
pub proof fn a_reason_is_said_and_judged(reason: u32, context: &str, error: TransportError)
    requires
        call_ensures(reason_error, (reason, context), error),
    ensures
        error.message@ == context@ + ": MQRC "@ + decimal(reason as nat),
        error.retryable <==> (reason == 2009 || reason == 2053 || reason == 2059 || reason == 2161
            || reason == 2162 || reason == 2195),
{
}

/// An application is of type 11 on Windows and 6 elsewhere.
pub proof fn an_application_is_of_its_build(windows: bool, kind: u32)
    requires
        call_ensures(application_type, (windows,), kind),
    ensures
        kind == if windows {
            11u32
        } else {
            6u32
        },
{
}

} // verus!
