//! The structures that calls carry, by their places.

use vstd::prelude::*;

use crate::descriptor::{
    blank, catcher_fault, decode_object, decode_options, encode_get_options, encode_object,
    encode_put_options, get_options_bytes, initial_decoded, md_decoded, object_bytes,
    object_decoded, options_decoded, put_options_bytes, InitialData, InitialDataView,
    MessageDescriptor, MessageDescriptorView, MQMD_CATCHER, MQOD_CATCHER, ID_CATCHER,
};
use crate::error::TransportError;
use crate::segment::{be32_bytes, nuls};
use crate::text::{debug_text, decimal, field_of, field_text};

use super::text::{a_field_is_the_text_and_then_spaces, decoded};
use super::wire::{holds, holds32, holds_only, lemma_read, lemma_written};

verus! {

proof fn lemma_blank(width: nat)
    ensures
        blank(width).len() == width,
        holds_only(blank(width), 0, width as int, 0x20),
{
    reveal_strlit("");
    a_field_is_the_text_and_then_spaces(""@, width);
}

/// What stands in a subrange stands in the whole.
proof fn lemma_held(bytes: Seq<u8>, at: int, part: Seq<u8>)
    requires
        0 <= at,
        at + part.len() <= bytes.len(),
        bytes.subrange(at, at + part.len()) == part,
    ensures
        holds(bytes, at, part),
{
    assert forall|i: int| 0 <= i < part.len() implies bytes[at + i] == #[trigger] part[i] by {
        assert(bytes.subrange(at, at + part.len())[i] == bytes[at + i]);
    }
}

/// Whether `bytes` are a message descriptor of 324 bytes with these ids,
/// format and putting application, each at its place.
#[verifier::opaque]
pub open spec fn is_mqmd(
    bytes: Seq<u8>,
    message_id: Seq<u8>,
    correlation_id: Seq<u8>,
    format: Seq<char>,
    put_application: Seq<char>,
) -> bool {
    &&& bytes.len() == 324
    &&& bytes[0] == 0x4d && bytes[1] == 0x44 && bytes[2] == 0x20 && bytes[3] == 0x20
    &&& holds32(bytes, 4, 1)
    &&& holds32(bytes, 8, 0)
    &&& holds32(bytes, 12, 8)
    &&& holds32(bytes, 16, 0xffff_ffff)
    &&& holds32(bytes, 20, 0)
    &&& holds32(bytes, 24, 0x111)
    &&& holds32(bytes, 28, 1208)
    &&& holds(bytes, 32, field_of(format, 8))
    &&& holds32(bytes, 40, 0xffff_ffff)
    &&& holds32(bytes, 44, 2)
    &&& holds(bytes, 48, message_id)
    &&& holds(bytes, 72, correlation_id)
    &&& holds32(bytes, 96, 0)
    &&& holds_only(bytes, 100, 208, 0x20)
    &&& holds_only(bytes, 208, 240, 0)
    &&& holds_only(bytes, 240, 272, 0x20)
    &&& holds32(bytes, 272, 0)
    &&& holds(bytes, 276, field_of(put_application, 28))
    &&& holds_only(bytes, 304, 324, 0x20)
}

#[verifier::rlimit(40)]
proof fn lemma_opening(md: MessageDescriptorView)
    ensures
        ({
            let bytes = md.opening();
            &&& bytes.len() == 48
            &&& bytes[0] == 0x4d && bytes[1] == 0x44 && bytes[2] == 0x20 && bytes[3] == 0x20
            &&& holds32(bytes, 4, 1)
            &&& holds32(bytes, 8, 0)
            &&& holds32(bytes, 12, 8)
            &&& holds32(bytes, 16, 0xffff_ffff)
            &&& holds32(bytes, 20, 0)
            &&& holds32(bytes, 24, 0x111)
            &&& holds32(bytes, 28, 1208)
            &&& holds(bytes, 32, field_of(md.format, 8))
            &&& holds32(bytes, 40, 0xffff_ffff)
            &&& holds32(bytes, 44, 2)
        }),
{
    let bytes = md.opening();
    a_field_is_the_text_and_then_spaces(md.format, 8);
    assert(bytes.len() == 48);
    assert(bytes.subrange(4, 8) =~= be32_bytes(1));
    assert(bytes.subrange(8, 12) =~= be32_bytes(0));
    assert(bytes.subrange(12, 16) =~= be32_bytes(8));
    assert(bytes.subrange(16, 20) =~= be32_bytes(u32::MAX));
    assert(bytes.subrange(20, 24) =~= be32_bytes(0));
    assert(bytes.subrange(24, 28) =~= be32_bytes(0x111));
    assert(bytes.subrange(28, 32) =~= be32_bytes(1208));
    assert(bytes.subrange(32, 40) =~= field_of(md.format, 8));
    assert(bytes.subrange(40, 44) =~= be32_bytes(u32::MAX));
    assert(bytes.subrange(44, 48) =~= be32_bytes(2));
    lemma_written(bytes, 4, 1);
    lemma_written(bytes, 8, 0);
    lemma_written(bytes, 12, 8);
    lemma_written(bytes, 16, u32::MAX);
    lemma_written(bytes, 20, 0);
    lemma_written(bytes, 24, 0x111);
    lemma_written(bytes, 28, 1208);
    lemma_held(bytes, 32, field_of(md.format, 8));
    lemma_written(bytes, 40, u32::MAX);
    lemma_written(bytes, 44, 2);
}

proof fn lemma_middle()
    ensures
        ({
            let bytes = MessageDescriptorView::middle();
            &&& bytes.len() == 180
            &&& holds_only(bytes, 0, 4, 0)
            &&& holds_only(bytes, 4, 112, 0x20)
            &&& holds_only(bytes, 112, 144, 0)
            &&& holds_only(bytes, 144, 176, 0x20)
            &&& holds_only(bytes, 176, 180, 0)
        }),
{
    lemma_blank(48);
    lemma_blank(12);
    lemma_blank(32);
}

/// A message descriptor by its places.
pub proof fn a_message_descriptor_by_its_places(md: MessageDescriptorView)
    requires
        md.message_id.len() == 24,
        md.correlation_id.len() == 24,
    ensures
        is_mqmd(md.bytes(), md.message_id, md.correlation_id, md.format, md.put_application),
{
    reveal(is_mqmd);
    let bytes = md.bytes();
    let opening = md.opening();
    let middle = MessageDescriptorView::middle();
    let field = field_of(md.put_application, 28);
    lemma_opening(md);
    lemma_middle();
    a_field_is_the_text_and_then_spaces(md.put_application, 28);
    lemma_blank(8);
    lemma_blank(4);
    assert(bytes.len() == 324);
    assert(forall|i: int| 0 <= i < 48 ==> #[trigger] bytes[i] == opening[i]);
    assert(bytes.subrange(48, 72) =~= md.message_id);
    assert(bytes.subrange(72, 96) =~= md.correlation_id);
    assert forall|i: int| 96 <= i < 276 implies #[trigger] bytes[i] == middle[i - 96] by {}
    assert(bytes.subrange(276, 304) =~= field);
    lemma_held(bytes, 48, md.message_id);
    lemma_held(bytes, 72, md.correlation_id);
    lemma_held(bytes, 276, field);
    assert(holds(bytes, 32, field_of(md.format, 8))) by {
        let format = field_of(md.format, 8);
        assert forall|i: int| 0 <= i < format.len() implies bytes[32 + i]
            == #[trigger] format[i] by {
            assert(opening[32 + i] == format[i]);
        }
    }
}

/// What `datagram` and `encode` make of a message descriptor: no ids, no
/// format and the putting application; and its fields, each at its place.
pub proof fn descriptors_are_encoded_by_their_places(
    put_application: &str,
    fresh: MessageDescriptor,
    md: &MessageDescriptor,
    bytes: Vec<u8>,
)
    requires
        call_ensures(MessageDescriptor::datagram, (put_application,), fresh),
        call_ensures(MessageDescriptor::encode, (md,), bytes),
    ensures
        holds_only(fresh.message_id@, 0, 24, 0),
        holds_only(fresh.correlation_id@, 0, 24, 0),
        fresh.format@.len() == 0,
        fresh.put_application@ == put_application@,
        is_mqmd(
            bytes@,
            md.message_id@,
            md.correlation_id@,
            md.format@,
            md.put_application@,
        ),
{
    reveal_strlit("");
    assert(fresh@.message_id == nuls(24) && fresh@.correlation_id == nuls(24));
    assert(fresh@.format == ""@);
    a_message_descriptor_by_its_places(md@);
}

/// Whether `bytes` open with these four.
pub open spec fn opens_with(bytes: Seq<u8>, a: u8, b: u8, c: u8, d: u8) -> bool {
    bytes.len() >= 4 && bytes[0] == a && bytes[1] == b && bytes[2] == c && bytes[3] == d
}

/// How a structure is refused that does not open with `expected`, or is too
/// short: what was expected and what stands there, both quoted.
pub open spec fn not_that(bytes: Seq<u8>, expected: Seq<u8>) -> Seq<char> {
    "not "@ + debug_text(decoded(expected)) + ": "@ + debug_text(
        decoded(
            if bytes.len() < 4 {
                bytes
            } else {
                bytes.take(4)
            },
        ),
    )
}

proof fn lemma_catcher(bytes: Seq<u8>, expected: Seq<u8>, length: nat)
    requires
        expected.len() == 4,
        length >= 4,
    ensures
        match catcher_fault(bytes, expected, length) {
            Some(fault) => {
                &&& bytes.len() < length || !opens_with(
                    bytes,
                    expected[0],
                    expected[1],
                    expected[2],
                    expected[3],
                )
                &&& fault.message == not_that(bytes, expected)
                &&& !fault.retryable
            },
            None => bytes.len() >= length && opens_with(
                bytes,
                expected[0],
                expected[1],
                expected[2],
                expected[3],
            ),
        },
{
    if bytes.len() >= 4 {
        let four = bytes.subrange(0, 4);
        assert(four =~= bytes.take(4));
        assert(four[0] == bytes[0] && four[1] == bytes[1] && four[2] == bytes[2] && four[3]
            == bytes[3]);
        if opens_with(bytes, expected[0], expected[1], expected[2], expected[3]) {
            assert(four =~= expected);
        }
    }
}

/// A message descriptor is read from 324 bytes that open with `MD  `, its
/// ids and texts from their places, and what follows is left; anything else
/// is refused.
pub proof fn a_message_descriptor_is_read_by_its_places(bytes: Seq<u8>)
    ensures
        match md_decoded(bytes) {
            Ok((md, rest)) => {
                &&& bytes.len() >= 324 && opens_with(bytes, 0x4d, 0x44, 0x20, 0x20)
                &&& md.message_id == bytes.subrange(48, 72)
                &&& md.correlation_id == bytes.subrange(72, 96)
                &&& md.format == field_text(bytes.subrange(32, 40))
                &&& md.put_application == field_text(bytes.subrange(276, 304))
                &&& rest == bytes.skip(324)
            },
            Err(fault) => {
                &&& bytes.len() < 324 || !opens_with(bytes, 0x4d, 0x44, 0x20, 0x20)
                &&& fault.message == not_that(bytes, seq![0x4du8, 0x44, 0x20, 0x20])
                &&& !fault.retryable
            },
        },
{
    assert(MQMD_CATCHER@ =~= seq![0x4du8, 0x44, 0x20, 0x20]);
    lemma_catcher(bytes, MQMD_CATCHER@, 324);
}

/// As [`a_message_descriptor_is_read_by_its_places`], of what `decode`
/// gives.
pub proof fn decode_reads_a_descriptor_by_its_places(
    bytes: &[u8],
    result: Result<(MessageDescriptor, &[u8]), TransportError>,
)
    requires
        call_ensures(MessageDescriptor::decode, (bytes,), result),
    ensures
        match result {
            Ok((md, rest)) => {
                &&& bytes@.len() >= 324 && opens_with(bytes@, 0x4d, 0x44, 0x20, 0x20)
                &&& md.message_id@ == bytes@.subrange(48, 72)
                &&& md.correlation_id@ == bytes@.subrange(72, 96)
                &&& md.format@ == field_text(bytes@.subrange(32, 40))
                &&& md.put_application@ == field_text(bytes@.subrange(276, 304))
                &&& rest@ == bytes@.skip(324)
            },
            Err(error) => {
                &&& bytes@.len() < 324 || !opens_with(bytes@, 0x4d, 0x44, 0x20, 0x20)
                &&& error.message@ == not_that(bytes@, seq![0x4du8, 0x44, 0x20, 0x20])
                &&& !error.retryable
            },
        },
{
    a_message_descriptor_is_read_by_its_places(bytes@);
    if let Ok((md, rest)) = result {
        assert(md@.message_id == md.message_id@ && md@.correlation_id == md.correlation_id@);
        assert(md@.format == md.format@ && md@.put_application == md.put_application@);
    }
}

/// The most that a four-byte length says.
pub open spec fn at_most_32(length: nat) -> int {
    if length > 0xffff_ffff {
        0xffff_ffff
    } else {
        length as int
    }
}

/// Put options by their places: 128 bytes, then the data length.
pub proof fn put_options_by_their_places(queue: Seq<char>, length: nat)
    ensures
        ({
            let bytes = put_options_bytes(queue, length);
            &&& bytes.len() == 132
            &&& opens_with(bytes, 0x50, 0x4d, 0x4f, 0x20)
            &&& holds32(bytes, 4, 1)
            &&& holds32(bytes, 8, 0x2000)
            &&& holds_only(bytes, 12, 32, 0)
            &&& holds(bytes, 32, field_of(queue, 48))
            &&& holds_only(bytes, 80, 128, 0x20)
            &&& holds32(bytes, 128, at_most_32(length))
        }),
{
    let bytes = put_options_bytes(queue, length);
    let field = field_of(queue, 48);
    a_field_is_the_text_and_then_spaces(queue, 48);
    lemma_blank(48);
    assert(bytes.len() == 132);
    assert(bytes.subrange(4, 8) =~= be32_bytes(1));
    assert(bytes.subrange(8, 12) =~= be32_bytes(0x2000));
    assert(bytes.subrange(32, 80) =~= field);
    assert(bytes.subrange(128, 132) =~= be32_bytes(at_most_32(length) as u32));
    lemma_written(bytes, 4, 1);
    lemma_written(bytes, 8, 0x2000);
    lemma_held(bytes, 32, field);
    lemma_written(bytes, 128, at_most_32(length) as u32);
}

/// Get options by their places: 72 bytes, then the buffer length.
pub proof fn get_options_by_their_places(queue: Seq<char>, length: nat)
    ensures
        ({
            let bytes = get_options_bytes(queue, length);
            &&& bytes.len() == 76
            &&& opens_with(bytes, 0x47, 0x4d, 0x4f, 0x20)
            &&& holds32(bytes, 4, 1)
            &&& holds32(bytes, 8, 0x2000)
            &&& holds_only(bytes, 12, 24, 0)
            &&& holds(bytes, 24, field_of(queue, 48))
            &&& holds32(bytes, 72, at_most_32(length))
        }),
{
    let bytes = get_options_bytes(queue, length);
    let field = field_of(queue, 48);
    a_field_is_the_text_and_then_spaces(queue, 48);
    assert(bytes.len() == 76);
    assert(bytes.subrange(4, 8) =~= be32_bytes(1));
    assert(bytes.subrange(8, 12) =~= be32_bytes(0x2000));
    assert(bytes.subrange(24, 72) =~= field);
    assert(bytes.subrange(72, 76) =~= be32_bytes(at_most_32(length) as u32));
    lemma_written(bytes, 4, 1);
    lemma_written(bytes, 8, 0x2000);
    lemma_held(bytes, 24, field);
    lemma_written(bytes, 72, at_most_32(length) as u32);
}

/// As [`put_options_by_their_places`] and [`get_options_by_their_places`],
/// of what is encoded.
pub proof fn options_are_encoded_by_their_places(
    queue: &str,
    length: usize,
    put: Vec<u8>,
    get: Vec<u8>,
)
    requires
        call_ensures(encode_put_options, (queue, length), put),
        call_ensures(encode_get_options, (queue, length), get),
    ensures
        put@.len() == 132,
        opens_with(put@, 0x50, 0x4d, 0x4f, 0x20),
        holds32(put@, 4, 1),
        holds32(put@, 8, 0x2000),
        holds_only(put@, 12, 32, 0),
        holds(put@, 32, field_of(queue@, 48)),
        holds_only(put@, 80, 128, 0x20),
        holds32(put@, 128, at_most_32(length as nat)),
        get@.len() == 76,
        opens_with(get@, 0x47, 0x4d, 0x4f, 0x20),
        holds32(get@, 4, 1),
        holds32(get@, 8, 0x2000),
        holds_only(get@, 12, 24, 0),
        holds(get@, 24, field_of(queue@, 48)),
        holds32(get@, 72, at_most_32(length as nat)),
{
    put_options_by_their_places(queue@, length as nat);
    get_options_by_their_places(queue@, length as nat);
}

/// The length after options is read from the four bytes behind them, and
/// what follows it is left; bytes that do not open with the eyecatcher, or
/// end before the length does, are refused.
pub proof fn options_are_read_by_their_places(bytes: Seq<u8>, catcher: Seq<u8>, length: nat)
    requires
        catcher.len() == 4,
        length >= 4,
    ensures
        match options_decoded(bytes, catcher, length) {
            Ok((said, rest)) => {
                &&& bytes.len() >= length + 4
                &&& opens_with(bytes, catcher[0], catcher[1], catcher[2], catcher[3])
                &&& holds32(bytes, length as int, said as int)
                &&& rest == bytes.skip(length as int + 4)
            },
            Err(fault) => {
                &&& !fault.retryable
                &&& bytes.len() < length || !opens_with(
                    bytes,
                    catcher[0],
                    catcher[1],
                    catcher[2],
                    catcher[3],
                ) ==> fault.message == not_that(bytes, catcher)
                &&& bytes.len() >= length && opens_with(
                    bytes,
                    catcher[0],
                    catcher[1],
                    catcher[2],
                    catcher[3],
                ) ==> bytes.len() < length + 4 && fault.message
                    == "a structure cut short at byte "@ + decimal(length)
            },
        },
{
    lemma_catcher(bytes, catcher, length);
    if bytes.len() >= length + 4 {
        lemma_read(bytes, length as int);
    }
}

/// As [`options_are_read_by_their_places`], of what `decode_options` gives.
pub proof fn decode_options_reads_by_their_places(
    bytes: &[u8],
    catcher: &[u8; 4],
    length: usize,
    result: Result<(usize, &[u8]), TransportError>,
)
    requires
        call_ensures(decode_options, (bytes, catcher, length), result),
        length >= 4,
    ensures
        match result {
            Ok((said, rest)) => {
                &&& bytes@.len() >= length + 4
                &&& opens_with(bytes@, catcher@[0], catcher@[1], catcher@[2], catcher@[3])
                &&& holds32(bytes@, length as int, said as int)
                &&& rest@ == bytes@.skip(length + 4)
            },
            Err(error) => {
                &&& !error.retryable
                &&& bytes@.len() < length || !opens_with(
                    bytes@,
                    catcher@[0],
                    catcher@[1],
                    catcher@[2],
                    catcher@[3],
                ) ==> error.message@ == not_that(bytes@, catcher@)
                &&& bytes@.len() >= length && opens_with(
                    bytes@,
                    catcher@[0],
                    catcher@[1],
                    catcher@[2],
                    catcher@[3],
                ) ==> bytes@.len() < length + 4 && error.message@
                    == "a structure cut short at byte "@ + decimal(length as nat)
            },
        },
{
    options_are_read_by_their_places(bytes@, catcher@, length as nat);
}

/// An object descriptor by its places: 168 bytes, a queue by name.
pub proof fn an_object_by_its_places(queue: Seq<char>)
    ensures
        ({
            let bytes = object_bytes(queue);
            &&& bytes.len() == 168
            &&& opens_with(bytes, 0x4f, 0x44, 0x20, 0x20)
            &&& holds32(bytes, 4, 1)
            &&& holds32(bytes, 8, 1)
            &&& holds(bytes, 12, field_of(queue, 48))
            &&& holds_only(bytes, 60, 168, 0x20)
        }),
{
    let bytes = object_bytes(queue);
    let field = field_of(queue, 48);
    a_field_is_the_text_and_then_spaces(queue, 48);
    lemma_blank(48);
    lemma_blank(12);
    assert(bytes.len() == 168);
    assert(bytes.subrange(4, 8) =~= be32_bytes(1));
    assert(bytes.subrange(8, 12) =~= be32_bytes(1));
    assert(bytes.subrange(12, 60) =~= field);
    lemma_written(bytes, 4, 1);
    lemma_written(bytes, 8, 1);
    lemma_held(bytes, 12, field);
}

/// A queue is read from 168 bytes that open with `OD  ` and say object type
/// 1, its name from its field, and what follows is left; anything else is
/// refused.
pub proof fn an_object_is_read_by_its_places(bytes: Seq<u8>)
    ensures
        match object_decoded(bytes) {
            Ok((queue, rest)) => {
                &&& bytes.len() >= 168 && opens_with(bytes, 0x4f, 0x44, 0x20, 0x20)
                &&& holds32(bytes, 8, 1)
                &&& queue == field_text(bytes.subrange(12, 60))
                &&& rest == bytes.skip(168)
            },
            Err(fault) => {
                &&& !fault.retryable
                &&& bytes.len() < 168 || !opens_with(bytes, 0x4f, 0x44, 0x20, 0x20)
                    ==> fault.message == not_that(bytes, seq![0x4fu8, 0x44, 0x20, 0x20])
                &&& bytes.len() >= 168 && opens_with(bytes, 0x4f, 0x44, 0x20, 0x20) ==> !holds32(
                    bytes,
                    8,
                    1,
                ) && fault.message == "an object that is not a queue"@
            },
        },
{
    assert(MQOD_CATCHER@ =~= seq![0x4fu8, 0x44, 0x20, 0x20]);
    lemma_catcher(bytes, MQOD_CATCHER@, 168);
    if bytes.len() >= 168 {
        lemma_read(bytes, 8);
    }
}

/// As [`an_object_by_its_places`] and [`an_object_is_read_by_its_places`], of
/// what is encoded and decoded.
pub proof fn objects_are_encoded_and_decoded_by_their_places(
    queue: &str,
    written: Vec<u8>,
    bytes: &[u8],
    result: Result<(String, &[u8]), TransportError>,
)
    requires
        call_ensures(encode_object, (queue,), written),
        call_ensures(decode_object, (bytes,), result),
    ensures
        written@.len() == 168,
        opens_with(written@, 0x4f, 0x44, 0x20, 0x20),
        holds32(written@, 4, 1),
        holds32(written@, 8, 1),
        holds(written@, 12, field_of(queue@, 48)),
        holds_only(written@, 60, 168, 0x20),
        match result {
            Ok((named, rest)) => {
                &&& bytes@.len() >= 168 && opens_with(bytes@, 0x4f, 0x44, 0x20, 0x20)
                &&& holds32(bytes@, 8, 1)
                &&& named@ == field_text(bytes@.subrange(12, 60))
                &&& rest@ == bytes@.skip(168)
            },
            Err(error) => {
                &&& !error.retryable
                &&& bytes@.len() < 168 || !opens_with(bytes@, 0x4f, 0x44, 0x20, 0x20)
                    ==> error.message@ == not_that(bytes@, seq![0x4fu8, 0x44, 0x20, 0x20])
                &&& bytes@.len() >= 168 && opens_with(bytes@, 0x4f, 0x44, 0x20, 0x20)
                    ==> !holds32(bytes@, 8, 1) && error.message@
                    == "an object that is not a queue"@
            },
        },
{
    an_object_by_its_places(queue@);
    an_object_is_read_by_its_places(bytes@);
}

/// Whether `bytes` are initial data of 96 bytes with this size, channel and
/// queue manager, each at its place.
pub open spec fn is_initial_data(
    bytes: Seq<u8>,
    max_message: int,
    channel: Seq<char>,
    queue_manager: Seq<char>,
) -> bool {
    &&& bytes.len() == 96
    &&& opens_with(bytes, 0x49, 0x44, 0x20, 0x20)
    &&& bytes[4] == 10
    &&& holds_only(bytes, 5, 10, 0)
    &&& bytes[10] == 50
    &&& holds32(bytes, 11, 32766)
    &&& holds32(bytes, 15, max_message)
    &&& holds32(bytes, 19, 999_999_999)
    &&& holds(bytes, 23, field_of(channel, 20))
    &&& bytes[43] == 0 && bytes[44] == 0 && bytes[45] == 0x04 && bytes[46] == 0xb8
    &&& holds(bytes, 47, field_of(queue_manager, 48))
    &&& bytes[95] == 0
}

/// Initial data by its places.
pub proof fn initial_data_by_its_places(data: InitialDataView)
    ensures
        is_initial_data(data.bytes(), data.max_message as int, data.channel, data.queue_manager),
{
    let bytes = data.bytes();
    let channel = field_of(data.channel, 20);
    let named = field_of(data.queue_manager, 48);
    a_field_is_the_text_and_then_spaces(data.channel, 20);
    a_field_is_the_text_and_then_spaces(data.queue_manager, 48);
    assert(bytes.len() == 96);
    assert(bytes.subrange(11, 15) =~= be32_bytes(32766));
    assert(bytes.subrange(15, 19) =~= be32_bytes(data.max_message));
    assert(bytes.subrange(19, 23) =~= be32_bytes(999_999_999));
    assert(bytes.subrange(23, 43) =~= channel);
    assert(bytes.subrange(47, 95) =~= named);
    lemma_written(bytes, 11, 32766);
    lemma_written(bytes, 15, data.max_message);
    lemma_written(bytes, 19, 999_999_999);
    lemma_held(bytes, 23, channel);
    lemma_held(bytes, 47, named);
}

/// Initial data is read from 96 bytes that open with `ID  `, the size and
/// the names from their places; anything else is refused.
pub proof fn initial_data_is_read_by_its_places(bytes: Seq<u8>)
    ensures
        match initial_decoded(bytes) {
            Ok(data) => {
                &&& bytes.len() >= 96 && opens_with(bytes, 0x49, 0x44, 0x20, 0x20)
                &&& holds32(bytes, 15, data.max_message as int)
                &&& data.channel == field_text(bytes.subrange(23, 43))
                &&& data.queue_manager == field_text(bytes.subrange(47, 95))
            },
            Err(fault) => {
                &&& bytes.len() < 96 || !opens_with(bytes, 0x49, 0x44, 0x20, 0x20)
                &&& fault.message == not_that(bytes, seq![0x49u8, 0x44, 0x20, 0x20])
                &&& !fault.retryable
            },
        },
{
    assert(ID_CATCHER@ =~= seq![0x49u8, 0x44, 0x20, 0x20]);
    lemma_catcher(bytes, ID_CATCHER@, 96);
    if bytes.len() >= 96 {
        lemma_read(bytes, 15);
    }
}

/// As [`initial_data_by_its_places`] and
/// [`initial_data_is_read_by_its_places`], of what is encoded and decoded.
pub proof fn initial_data_is_encoded_and_decoded_by_its_places(
    data: &InitialData,
    written: Vec<u8>,
    bytes: &[u8],
    result: Result<InitialData, TransportError>,
)
    requires
        call_ensures(InitialData::encode, (data,), written),
        call_ensures(InitialData::decode, (bytes,), result),
    ensures
        is_initial_data(
            written@,
            data.max_message as int,
            data.channel@,
            data.queue_manager@,
        ),
        match result {
            Ok(read) => {
                &&& bytes@.len() >= 96 && opens_with(bytes@, 0x49, 0x44, 0x20, 0x20)
                &&& holds32(bytes@, 15, read.max_message as int)
                &&& read.channel@ == field_text(bytes@.subrange(23, 43))
                &&& read.queue_manager@ == field_text(bytes@.subrange(47, 95))
            },
            Err(error) => {
                &&& bytes@.len() < 96 || !opens_with(bytes@, 0x49, 0x44, 0x20, 0x20)
                &&& error.message@ == not_that(bytes@, seq![0x49u8, 0x44, 0x20, 0x20])
                &&& !error.retryable
            },
        },
{
    initial_data_by_its_places(data@);
    initial_data_is_read_by_its_places(bytes@);
    assert(data@.channel == data.channel@ && data@.queue_manager == data.queue_manager@);
    if let Ok(read) = result {
        assert(read@.channel == read.channel@ && read@.queue_manager == read.queue_manager@);
    }
}

} // verus!
