//! Numbers, API headers and transmission segments, by their places.

use vstd::prelude::*;

use crate::error::TransportError;
use crate::segment::{
    api_bytes, api_call, api_decoded, api_failed, be16_bytes, be32, be32_bytes,
    be32_value, flags_of, header_bytes, nuls, piece, pieces, transmission, wire, wire_from,
    write_segment, ApiHeader, Segment, SegmentView, API_LENGTH, ROOM,
};

verus! {

/// Whether `bytes` hold `n` in the four bytes from `at` on, the highest
/// first.
pub open spec fn holds32(bytes: Seq<u8>, at: int, n: int) -> bool {
    &&& 0 <= at
    &&& at + 4 <= bytes.len()
    &&& bytes[at] * 0x100_0000 + bytes[at + 1] * 0x1_0000 + bytes[at + 2] * 0x100 + bytes[at + 3]
        == n
}

/// Whether `bytes` hold `part` from `at` on.
pub open spec fn holds(bytes: Seq<u8>, at: int, part: Seq<u8>) -> bool {
    &&& 0 <= at
    &&& at + part.len() <= bytes.len()
    &&& forall|i: int| 0 <= i < part.len() ==> bytes[at + i] == #[trigger] part[i]
}

/// Whether `bytes` hold nothing but `byte` from `at` up to `end`.
pub open spec fn holds_only(bytes: Seq<u8>, at: int, end: int, byte: u8) -> bool {
    &&& 0 <= at <= end <= bytes.len()
    &&& forall|i: int| at <= i < end ==> #[trigger] bytes[i] == byte
}

/// A number's four bytes hold it, the highest first, and so do its two.
pub proof fn numbers_are_highest_byte_first(n: u32, m: u16)
    ensures
        be32_bytes(n).len() == 4,
        holds32(be32_bytes(n), 0, n as int),
        be16_bytes(m).len() == 2,
        be16_bytes(m)[0] * 0x100 + be16_bytes(m)[1] == m,
{
}

/// Four bytes are read as the number that they hold.
pub proof fn four_bytes_are_their_number(bytes: Seq<u8>)
    requires
        bytes.len() >= 4,
    ensures
        holds32(bytes, 0, be32_value(bytes) as int),
{
}

/// `be32` reads the number that the first four bytes hold.
pub proof fn be32_reads_what_they_hold(bytes: &[u8], n: u32)
    requires
        call_ensures(be32, (bytes,), n),
        bytes@.len() >= 4,
    ensures
        holds32(bytes@, 0, n as int),
{
}

/// Two numbers that the same four bytes hold are one.
pub proof fn four_bytes_hold_one_number(bytes: Seq<u8>, at: int, one: int, other: int)
    requires
        holds32(bytes, at, one),
        holds32(bytes, at, other),
    ensures
        one == other,
{
}

/// A number written at a place is held there.
pub proof fn lemma_written(bytes: Seq<u8>, at: int, n: u32)
    requires
        0 <= at,
        at + 4 <= bytes.len(),
        bytes.subrange(at, at + 4) == be32_bytes(n),
    ensures
        holds32(bytes, at, n as int),
{
    let four = bytes.subrange(at, at + 4);
    assert(four[0] == bytes[at] && four[1] == bytes[at + 1] && four[2] == bytes[at + 2] && four[3]
        == bytes[at + 3]);
}

/// A number read at a place is what is held there.
pub proof fn lemma_read(bytes: Seq<u8>, at: int)
    requires
        0 <= at,
        at + 4 <= bytes.len(),
    ensures
        holds32(bytes, at, be32_value(bytes.subrange(at, at + 4)) as int),
{
    let four = bytes.subrange(at, at + 4);
    assert(four[0] == bytes[at] && four[1] == bytes[at + 1] && four[2] == bytes[at + 2] && four[3]
        == bytes[at + 3]);
}

/// NULs are zero bytes, as many as were asked for.
pub proof fn nuls_are_zero(count: nat)
    ensures
        nuls(count).len() == count,
        holds_only(nuls(count), 0, count as int, 0),
{
}

/// An API header is sixteen bytes: reply length, completion, reason, handle.
pub proof fn an_api_header_by_its_places(header: ApiHeader)
    ensures
        api_bytes(header).len() == 16,
        holds32(api_bytes(header), 0, header.reply_length as int),
        holds32(api_bytes(header), 4, header.completion as int),
        holds32(api_bytes(header), 8, header.reason as int),
        holds32(api_bytes(header), 12, header.handle as int),
{
    let bytes = api_bytes(header);
    assert(bytes.subrange(0, 4) =~= be32_bytes(header.reply_length));
    assert(bytes.subrange(4, 8) =~= be32_bytes(header.completion));
    assert(bytes.subrange(8, 12) =~= be32_bytes(header.reason));
    assert(bytes.subrange(12, 16) =~= be32_bytes(header.handle));
    lemma_written(bytes, 0, header.reply_length);
    lemma_written(bytes, 4, header.completion);
    lemma_written(bytes, 8, header.reason);
    lemma_written(bytes, 12, header.handle);
}

/// A call's header is all zero but for its handle; a failed reply's has
/// completion 2, its reason and its handle.
pub proof fn calls_and_failures_by_their_places(handle: u32, reason: u32)
    ensures
        holds_only(api_bytes(api_call(handle)), 0, 12, 0),
        holds32(api_bytes(api_call(handle)), 12, handle as int),
        api_bytes(api_call(handle)).len() == 16,
        holds_only(api_bytes(api_failed(reason, handle)), 0, 4, 0),
        holds32(api_bytes(api_failed(reason, handle)), 4, 2),
        holds32(api_bytes(api_failed(reason, handle)), 8, reason as int),
        holds32(api_bytes(api_failed(reason, handle)), 12, handle as int),
        api_bytes(api_failed(reason, handle)).len() == 16,
{
    an_api_header_by_its_places(api_call(handle));
    an_api_header_by_its_places(api_failed(reason, handle));
}

/// As [`an_api_header_by_its_places`], of what `call`, `failed` and `encode`
/// give.
pub proof fn headers_are_encoded_by_their_places(
    handle: u32,
    reason: u32,
    called: ApiHeader,
    failed: ApiHeader,
    header: &ApiHeader,
    bytes: [u8; API_LENGTH],
)
    requires
        call_ensures(ApiHeader::call, (handle,), called),
        call_ensures(ApiHeader::failed, (reason, handle), failed),
        call_ensures(ApiHeader::encode, (header,), bytes),
    ensures
        called.reply_length == 0 && called.completion == 0 && called.reason == 0 && called.handle
            == handle,
        failed.reply_length == 0 && failed.completion == 2 && failed.reason == reason
            && failed.handle == handle,
        bytes@.len() == 16,
        holds32(bytes@, 0, header.reply_length as int),
        holds32(bytes@, 4, header.completion as int),
        holds32(bytes@, 8, header.reason as int),
        holds32(bytes@, 12, header.handle as int),
{
    an_api_header_by_its_places(*header);
}

/// A header is read from the first sixteen bytes, each number from its
/// place, and the rest is what follows; fewer bytes are refused.
pub proof fn a_header_is_read_by_its_places(body: Seq<u8>)
    ensures
        match api_decoded(body) {
            Ok((header, rest)) => {
                &&& body.len() >= 16
                &&& holds32(body, 0, header.reply_length as int)
                &&& holds32(body, 4, header.completion as int)
                &&& holds32(body, 8, header.reason as int)
                &&& holds32(body, 12, header.handle as int)
                &&& rest.len() == body.len() - 16
                &&& holds(body, 16, rest)
            },
            Err(fault) => {
                &&& body.len() < 16
                &&& fault.message == "a segment too short for an API header"@
                &&& !fault.retryable
            },
        },
{
    if body.len() >= 16 {
        lemma_read(body, 0);
        lemma_read(body, 4);
        lemma_read(body, 8);
        lemma_read(body, 12);
    }
}

/// As [`a_header_is_read_by_its_places`], of what `decode` gives.
pub proof fn decode_reads_a_header_by_its_places(
    body: &[u8],
    result: Result<(ApiHeader, &[u8]), TransportError>,
)
    requires
        call_ensures(ApiHeader::decode, (body,), result),
    ensures
        match result {
            Ok((header, rest)) => {
                &&& body@.len() >= 16
                &&& holds32(body@, 0, header.reply_length as int)
                &&& holds32(body@, 4, header.completion as int)
                &&& holds32(body@, 8, header.reason as int)
                &&& holds32(body@, 12, header.handle as int)
                &&& rest@.len() == body@.len() - 16
                &&& holds(body@, 16, rest@)
            },
            Err(error) => {
                &&& body@.len() < 16
                &&& error.message@ == "a segment too short for an API header"@
                &&& !error.retryable
            },
        },
{
    a_header_is_read_by_its_places(body@);
}

/// A segment is what it was made of, and its reply has its type with the bit
/// 0x10, its conversation and its request.
pub proof fn a_reply_answers_its_segment(
    kind: u8,
    conversation: u32,
    request: u32,
    body: Vec<u8>,
    segment: Segment,
    call: &Segment,
    answer: Vec<u8>,
    reply: Segment,
)
    requires
        call_ensures(Segment::new, (kind, conversation, request, body), segment),
        call_ensures(Segment::reply, (call, answer), reply),
    ensures
        segment.kind == kind && segment.conversation == conversation && segment.request == request,
        segment.body@ == body@,
        reply.kind == call.kind | 0x10u8,
        reply.conversation == call.conversation && reply.request == call.request,
        reply.body@ == answer@,
        segment@.kind == segment.kind && segment@.conversation == segment.conversation
            && segment@.request == segment.request && segment@.body == segment.body@,
{
    assert(segment@.kind == kind);
    assert(reply@.kind == call@.kind | 0x10u8);
}

proof fn lemma_wire_at(segment: SegmentView, n: nat, from: nat)
    requires
        from <= n < pieces(segment.body.len()),
    ensures
        ({
            let at = (n - from) * 32766;
            let sent = transmission(segment, n);
            &&& at + sent.len() <= wire_from(segment, from).len()
            &&& wire_from(segment, from).subrange(at, at + sent.len()) == sent
            &&& n + 1 == pieces(segment.body.len()) ==> at + sent.len() == wire_from(
                segment,
                from,
            ).len()
        }),
    decreases n - from,
{
    let first = transmission(segment, from);
    let rest = wire_from(segment, from + 1);
    let whole = wire_from(segment, from);
    let sent = transmission(segment, n);
    assert(whole == first + rest);
    if from < n {
        lemma_wire_at(segment, n, from + 1);
        lemma_head(segment, from);
        assert(first.len() == 32766);
        let at = (n - from) * 32766;
        let later = (n - from - 1) * 32766;
        assert(at == later + 32766) by (nonlinear_arith)
            requires
                at == (n - from) * 32766,
                later == (n - from - 1) * 32766,
        ;
        assert(whole.subrange(at, at + sent.len()) =~= rest.subrange(later, later + sent.len()));
    } else {
        assert(whole.subrange(0, sent.len() as int) =~= sent);
        if n + 1 == pieces(segment.body.len()) {
            assert(rest =~= Seq::<u8>::empty());
        }
    }
}

/// One transmission by its places.
proof fn lemma_head(segment: SegmentView, n: nat)
    requires
        n < pieces(segment.body.len()),
    ensures
        ({
            let sent = transmission(segment, n);
            let last = (n + 1) * 32730 >= segment.body.len();
            let carried = if last {
                segment.body.len() - n * 32730
            } else {
                32730
            };
            &&& 0 <= carried <= 32730
            &&& sent.len() == 36 + carried
            &&& sent[0] == 0x54 && sent[1] == 0x53 && sent[2] == 0x48 && sent[3] == 0x4d
            &&& holds32(sent, 4, 36 + carried)
            &&& holds32(sent, 8, segment.conversation as int)
            &&& holds32(sent, 12, segment.request as int)
            &&& sent[16] == 1
            &&& sent[17] == segment.kind
            &&& sent[18] == (if n == 0 {
                0x10int
            } else {
                0int
            }) + (if last {
                0x20int
            } else {
                0int
            })
            &&& holds_only(sent, 19, 28, 0)
            &&& holds32(sent, 28, 0x111)
            &&& sent[32] == 0x04 && sent[33] == 0xb8
            &&& holds_only(sent, 34, 36, 0)
            &&& forall|i: int|
                0 <= i < carried ==> sent[36 + i] == #[trigger] segment.body[n * 32730 + i]
        }),
{
    let carried = piece(segment.body, n);
    let count = pieces(segment.body.len());
    let flags = flags_of(n, count);
    let head = header_bytes(segment, flags, carried.len());
    let sent = transmission(segment, n);
    assert(ROOM == 32730);
    assert(sent =~= head + carried);
    assert(head.len() == 36);
    assert(sent.subrange(4, 8) =~= be32_bytes((36 + carried.len()) as u32));
    assert(sent.subrange(8, 12) =~= be32_bytes(segment.conversation));
    assert(sent.subrange(12, 16) =~= be32_bytes(segment.request));
    assert(sent.subrange(28, 32) =~= be32_bytes(0x111));
    lemma_written(sent, 4, (36 + carried.len()) as u32);
    lemma_written(sent, 8, segment.conversation);
    lemma_written(sent, 12, segment.request);
    lemma_written(sent, 28, 0x111);
    assert forall|i: int| 0 <= i < carried.len() implies sent[36 + i] == #[trigger] segment.body[n
        * 32730 + i] by {
        assert(sent[36 + i] == carried[i]);
    }
}

/// Whether `bytes` hold, from `at` on, the transmission of `segment` that
/// carries its body from `from` on: the header to the byte, flagged 0x10
/// where it is the first and 0x20 where it is the last, and then as much of
/// the body as is left, 32730 bytes at most.
pub open spec fn holds_transmission(
    bytes: Seq<u8>,
    at: int,
    segment: SegmentView,
    from: int,
) -> bool {
    let left = segment.body.len() - from;
    let carried = if left > 32730 {
        32730
    } else {
        left
    };
    &&& at + 36 + carried <= bytes.len()
    &&& bytes[at] == 0x54 && bytes[at + 1] == 0x53 && bytes[at + 2] == 0x48 && bytes[at + 3]
        == 0x4d
    &&& holds32(bytes, at + 4, 36 + carried)
    &&& holds32(bytes, at + 8, segment.conversation as int)
    &&& holds32(bytes, at + 12, segment.request as int)
    &&& bytes[at + 16] == 1
    &&& bytes[at + 17] == segment.kind
    &&& bytes[at + 18] == (if from == 0 {
        0x10int
    } else {
        0int
    }) + (if left <= 32730 {
        0x20int
    } else {
        0int
    })
    &&& holds_only(bytes, at + 19, at + 28, 0)
    &&& holds32(bytes, at + 28, 0x111)
    &&& bytes[at + 32] == 0x04 && bytes[at + 33] == 0xb8
    &&& holds_only(bytes, at + 34, at + 36, 0)
    &&& forall|i: int| 0 <= i < carried ==> bytes[at + 36 + i] == #[trigger] segment.body[from + i]
    &&& left <= 32730 ==> at + 36 + carried == bytes.len()
}

/// A segment goes on the wire as one transmission for every 32730 bytes of
/// its body, each 32766 bytes on from the one before, and for an empty body
/// one; nothing follows the last.
#[verifier::rlimit(40)]
pub proof fn the_wire_by_its_places(segment: SegmentView, n: nat)
    requires
        n == 0 || n * 32730 < segment.body.len(),
    ensures
        holds_transmission(wire(segment), n as int * 32766, segment, n as int * 32730),
{
    lemma_count(segment.body.len(), n);
    lemma_wire_at(segment, n, 0);
    lemma_head(segment, n);
    let whole = wire(segment);
    let sent = transmission(segment, n);
    let at = n as int * 32766;
    assert(whole.subrange(at, at + sent.len()) == sent);
    assert forall|i: int| 0 <= i < sent.len() implies #[trigger] whole[at + i] == sent[i] by {
        assert(whole.subrange(at, at + sent.len())[i] == whole[at + i]);
    }
    assert forall|i: int| at + 19 <= i < at + 28 implies #[trigger] whole[i] == 0 by {
        assert(whole[at + (i - at)] == sent[i - at]);
    }
    assert forall|i: int| at + 34 <= i < at + 36 implies #[trigger] whole[i] == 0 by {
        assert(whole[at + (i - at)] == sent[i - at]);
    }
    assert forall|i: int| 0 <= i < sent.len() - 36 implies whole[at + 36 + i]
        == #[trigger] segment.body[n * 32730 + i] by {
        assert(whole[at + (36 + i)] == sent[36 + i]);
    }
}

proof fn lemma_count(length: nat, n: nat)
    requires
        n == 0 || n * 32730 < length,
    ensures
        n < pieces(length),
        (n + 1 == pieces(length)) <==> (n + 1) * 32730 >= length,
{
    assert(ROOM == 32730);
}

/// `write_segment` appends the segment's transmissions, each by its places,
/// and leaves what was there.
pub proof fn write_segment_appends_every_transmission(
    out: &mut Vec<u8>,
    segment: &Segment,
    n: nat,
)
    requires
        call_ensures(write_segment, (out, segment), ()),
        n == 0 || n * 32730 < segment.body@.len(),
    ensures
        final(out)@.take(old(out)@.len() as int) == old(out)@,
        holds_transmission(
            final(out)@.skip(old(out)@.len() as int),
            n as int * 32766,
            (SegmentView {
                kind: segment.kind,
                conversation: segment.conversation,
                request: segment.request,
                body: segment.body@,
            }),
            n as int * 32730,
        ),
{
    let view = SegmentView {
        kind: segment.kind,
        conversation: segment.conversation,
        request: segment.request,
        body: segment.body@,
    };
    assert(segment@ == view);
    the_wire_by_its_places(view, n);
    assert(final(out)@.take(old(out)@.len() as int) =~= old(out)@);
    assert(final(out)@.skip(old(out)@.len() as int) =~= wire(view));
}

} // verus!
