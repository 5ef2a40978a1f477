//! How transmissions are put back together, however they were cut.

use vstd::prelude::*;

use crate::error::{Fault, TransportError};
use crate::segment::{
    after, be32_value, head_length, read_segment, reading, tshm, Assembly, Progress, Reading,
    ReadingView, SegmentView,
};
use crate::text::{debug_text, decimal};

use super::text::decoded;

verus! {

/// The number in the four bytes from `at` on, the highest first.
pub open spec fn number_at(bytes: Seq<u8>, at: int) -> u32 {
    (bytes[at] * 0x100_0000 + bytes[at + 1] * 0x1_0000 + bytes[at + 2] * 0x100 + bytes[at
        + 3]) as u32
}

/// Whether `bytes` open with `TSHM`.
pub open spec fn opens_with_tshm(bytes: Seq<u8>) -> bool {
    bytes[0] == 0x54 && bytes[1] == 0x53 && bytes[2] == 0x48 && bytes[3] == 0x4d
}

/// Whether `frame` is one whole transmission, of any size from a bare header
/// to 32766 bytes: `TSHM`, its own length, big-endian.
pub open spec fn is_transmission(frame: Seq<u8>) -> bool {
    &&& 36 <= frame.len() <= 32766
    &&& opens_with_tshm(frame)
    &&& number_at(frame, 4) == frame.len()
    &&& frame[16] == 1
}

/// Whether `frame` has the flag of a segment's last transmission.
pub open spec fn has_last_flag(frame: Seq<u8>) -> bool {
    frame[18] & 0x20u8 != 0
}

/// What transmissions carry, one after the other.
pub open spec fn carried_in(frames: Seq<Seq<u8>>) -> Seq<u8> {
    frames.map_values(|frame: Seq<u8>| frame.skip(36)).flatten()
}

/// The segment that `frame` opens, or carries on.
pub open spec fn grown(before: Option<SegmentView>, frame: Seq<u8>, body: Seq<u8>) -> SegmentView {
    match before {
        Some(segment) => SegmentView { body: segment.body + body, ..segment },
        None => SegmentView {
            kind: frame[17],
            conversation: number_at(frame, 8),
            request: number_at(frame, 12),
            body,
        },
    }
}

/// How much was carried before.
pub open spec fn so_far(before: Option<SegmentView>) -> nat {
    match before {
        Some(segment) => segment.body.len(),
        None => 0,
    }
}

proof fn lemma_numbers(head: Seq<u8>)
    requires
        head.len() >= 36,
    ensures
        be32_value(head.subrange(4, 8)) == number_at(head, 4),
        be32_value(head.subrange(8, 12)) == number_at(head, 8),
        be32_value(head.subrange(12, 16)) == number_at(head, 12),
        head.subrange(0, 4) == tshm() <==> opens_with_tshm(head),
{
    let four = head.subrange(0, 4);
    assert(four[0] == head[0] && four[1] == head[1] && four[2] == head[2] && four[3] == head[3]);
    if opens_with_tshm(head) {
        assert(four =~= tshm());
    }
    assert(tshm()[0] == 0x54 && tshm()[1] == 0x53 && tshm()[2] == 0x48 && tshm()[3] == 0x4d);
}

proof fn lemma_step(frame: Seq<u8>, tail: Seq<u8>, before: Option<SegmentView>, limit: nat)
    requires
        is_transmission(frame),
        so_far(before) + frame.len() - 36 <= limit,
    ensures
        ({
            let segment = grown(before, frame, frame.skip(36));
            reading(frame + tail, before, limit) == (if has_last_flag(frame) {
                Ok::<ReadingView, Fault>(ReadingView::Whole(segment, frame.len()))
            } else {
                after(reading(tail, Some(segment), limit), frame.len())
            })
        }),
{
    let bytes = frame + tail;
    let head = bytes.take(36);
    lemma_numbers(head);
    assert(head =~= frame.take(36));
    assert(head[16] == frame[16] && head[17] == frame[17] && head[18] == frame[18]);
    assert(number_at(head, 4) == frame.len());
    assert(bytes.subrange(36, frame.len() as int) =~= frame.skip(36));
    assert(bytes.skip(frame.len() as int) =~= tail);
    assert(Seq::<u8>::empty() + frame.skip(36) =~= frame.skip(36));
}

proof fn lemma_carried(frames: Seq<Seq<u8>>)
    requires
        frames.len() > 0,
    ensures
        carried_in(frames) == frames[0].skip(36) + carried_in(frames.drop_first()),
        frames.flatten() == frames[0] + frames.drop_first().flatten(),
{
    let skipped = frames.map_values(|frame: Seq<u8>| frame.skip(36));
    assert(skipped.drop_first() =~= frames.drop_first().map_values(
        |frame: Seq<u8>| frame.skip(36),
    ));
    assert(skipped[0] == frames[0].skip(36));
}

proof fn lemma_whole(
    frames: Seq<Seq<u8>>,
    rest: Seq<u8>,
    before: Option<SegmentView>,
    limit: nat,
)
    requires
        frames.len() > 0,
        forall|i: int| 0 <= i < frames.len() ==> is_transmission(#[trigger] frames[i]),
        forall|i: int|
            0 <= i < frames.len() ==> (has_last_flag(#[trigger] frames[i]) <==> i == frames.len()
                - 1),
        so_far(before) + carried_in(frames).len() <= limit,
    ensures
        reading(frames.flatten() + rest, before, limit) == Ok::<ReadingView, Fault>(
            ReadingView::Whole(
                grown(before, frames[0], carried_in(frames)),
                frames.flatten().len(),
            ),
        ),
    decreases frames.len(),
{
    let first = frames[0];
    let more = frames.drop_first();
    lemma_carried(frames);
    let tail = more.flatten() + rest;
    assert(frames.flatten() + rest =~= first + tail);
    lemma_step(first, tail, before, limit);
    if more.len() == 0 {
        assert(frames.flatten() =~= first);
        assert(carried_in(frames) =~= first.skip(36));
    } else {
        let segment = grown(before, first, first.skip(36));
        assert forall|i: int| 0 <= i < more.len() implies is_transmission(#[trigger] more[i]) && (
        has_last_flag(more[i]) <==> i == more.len() - 1) by {
            assert(more[i] == frames[i + 1]);
        }
        lemma_whole(more, rest, Some(segment), limit);
        assert(grown(Some(segment), more[0], carried_in(more)) =~= grown(
            before,
            first,
            carried_in(frames),
        ));
    }
}

/// However a segment was cut, into any number of transmissions of any sizes,
/// it ends with the one that has the last flag and with no other, and it is
/// put back together whole: what they all carried, in their order, under the
/// type, conversation and request of the first. What follows is left.
pub proof fn a_segment_ends_at_the_last_flag_alone(
    frames: Seq<Seq<u8>>,
    rest: Seq<u8>,
    limit: nat,
)
    requires
        frames.len() > 0,
        forall|i: int| 0 <= i < frames.len() ==> is_transmission(#[trigger] frames[i]),
        forall|i: int|
            0 <= i < frames.len() ==> (has_last_flag(#[trigger] frames[i]) <==> i == frames.len()
                - 1),
        carried_in(frames).len() <= limit,
    ensures
        reading(frames.flatten() + rest, None, limit) == Ok::<ReadingView, Fault>(
            ReadingView::Whole(
                SegmentView {
                    kind: frames[0][17],
                    conversation: number_at(frames[0], 8),
                    request: number_at(frames[0], 12),
                    body: carried_in(frames),
                },
                frames.flatten().len(),
            ),
        ),
{
    lemma_whole(frames, rest, None, limit);
}

/// As [`a_segment_ends_at_the_last_flag_alone`], of what `read_segment`
/// gives.
pub proof fn read_segment_joins_up_to_the_last_flag(
    frames: Seq<Seq<u8>>,
    rest: Seq<u8>,
    bytes: &[u8],
    limit: usize,
    result: Result<Reading, TransportError>,
)
    requires
        call_ensures(read_segment, (bytes, limit), result),
        bytes@ == frames.flatten() + rest,
        frames.len() > 0,
        forall|i: int| 0 <= i < frames.len() ==> is_transmission(#[trigger] frames[i]),
        forall|i: int|
            0 <= i < frames.len() ==> (has_last_flag(#[trigger] frames[i]) <==> i == frames.len()
                - 1),
        carried_in(frames).len() <= limit,
    ensures
        result matches Ok(Reading::Whole(segment, taken)) && segment.kind == frames[0][17]
            && segment.conversation == number_at(frames[0], 8) && segment.request == number_at(
            frames[0],
            12,
        ) && segment.body@ == carried_in(frames) && taken == frames.flatten().len(),
{
    a_segment_ends_at_the_last_flag_alone(frames, rest, limit as nat);
}

proof fn lemma_goes_on(
    frames: Seq<Seq<u8>>,
    tail: Seq<u8>,
    before: Option<SegmentView>,
    limit: nat,
)
    requires
        forall|i: int|
            0 <= i < frames.len() ==> is_transmission(#[trigger] frames[i]) && !has_last_flag(
                frames[i],
            ),
        so_far(before) + carried_in(frames).len() <= limit,
    ensures
        reading(frames.flatten() + tail, before, limit) == after(
            reading(
                tail,
                if frames.len() == 0 {
                    before
                } else {
                    Some(grown(before, frames[0], carried_in(frames)))
                },
                limit,
            ),
            frames.flatten().len(),
        ),
    decreases frames.len(),
{
    if frames.len() == 0 {
        assert(frames.flatten() + tail =~= tail);
    } else {
        let first = frames[0];
        let more = frames.drop_first();
        lemma_carried(frames);
        assert(frames.flatten() + tail =~= first + (more.flatten() + tail));
        lemma_step(first, more.flatten() + tail, before, limit);
        let segment = grown(before, first, first.skip(36));
        assert forall|i: int| 0 <= i < more.len() implies is_transmission(#[trigger] more[i])
            && !has_last_flag(more[i]) by {
            assert(more[i] == frames[i + 1]);
        }
        lemma_goes_on(more, tail, Some(segment), limit);
        if more.len() == 0 {
            assert(carried_in(frames) =~= first.skip(36));
        } else {
            assert(grown(Some(segment), more[0], carried_in(more)) =~= grown(
                before,
                first,
                carried_in(frames),
            ));
        }
    }
}

/// What is wrong with a header of 36 bytes, if anything: another eyecatcher
/// than `TSHM`, a length under 36 or over 32766, or a byte order other
/// than 1, in this order.
pub open spec fn wrong_with(head: Seq<u8>) -> Option<Seq<char>> {
    if !opens_with_tshm(head) {
        Some("not a transmission segment: "@ + debug_text(decoded(head.subrange(0, 4))))
    } else if number_at(head, 4) < 36 || number_at(head, 4) > 32766 {
        Some("a segment of "@ + decimal(number_at(head, 4) as nat) + " bytes"@)
    } else if head[16] != 1 {
        Some("a little-endian segment, which this reader does not take"@)
    } else {
        None
    }
}

/// Where the transmissions of a segment stop before its last: nothing at all
/// is a peer that closed; bytes that end early are a connection that broke;
/// a header that is not taken and a body past the limit are refused, for
/// good.
pub proof fn a_segment_that_does_not_end(frames: Seq<Seq<u8>>, tail: Seq<u8>, limit: nat)
    requires
        forall|i: int|
            0 <= i < frames.len() ==> is_transmission(#[trigger] frames[i]) && !has_last_flag(
                frames[i],
            ),
        carried_in(frames).len() <= limit,
    ensures
        ({
            let read = reading(frames.flatten() + tail, None, limit);
            &&& frames.len() == 0 && tail.len() == 0 ==> read == Ok::<ReadingView, Fault>(
                ReadingView::Closed,
            )
            &&& (frames.len() > 0 || tail.len() > 0) && tail.len() < 36 ==> read == Ok::<
                ReadingView,
                Fault,
            >(ReadingView::Broken)
            &&& tail.len() >= 36 ==> match wrong_with(tail.take(36)) {
                Some(message) => read == Err::<ReadingView, Fault>(
                    Fault { message, retryable: false },
                ),
                None => {
                    &&& tail.len() < number_at(tail, 4) ==> read == Ok::<ReadingView, Fault>(
                        ReadingView::Broken,
                    )
                    &&& tail.len() >= number_at(tail, 4) && carried_in(frames).len() + number_at(
                        tail,
                        4,
                    ) - 36 > limit ==> read == Err::<ReadingView, Fault>(
                        Fault {
                            message: "more segments than Xmip will put together"@,
                            retryable: false,
                        },
                    )
                },
            }
        }),
{
    lemma_goes_on(frames, tail, None, limit);
    if tail.len() >= 36 {
        let head = tail.take(36);
        lemma_numbers(head);
        assert(number_at(head, 4) == number_at(tail, 4));
        if frames.len() > 0 {
            let segment = grown(None, frames[0], carried_in(frames));
            assert(segment.body == carried_in(frames));
        } else {
            assert(carried_in(frames) =~= Seq::empty());
        }
    }
}

/// As [`a_segment_that_does_not_end`], of what `read_segment` gives.
pub proof fn read_segment_tells_a_close_from_a_break(
    frames: Seq<Seq<u8>>,
    tail: Seq<u8>,
    bytes: &[u8],
    limit: usize,
    result: Result<Reading, TransportError>,
)
    requires
        call_ensures(read_segment, (bytes, limit), result),
        bytes@ == frames.flatten() + tail,
        forall|i: int|
            0 <= i < frames.len() ==> is_transmission(#[trigger] frames[i]) && !has_last_flag(
                frames[i],
            ),
        carried_in(frames).len() <= limit,
    ensures
        frames.len() == 0 && tail.len() == 0 ==> result is Ok && result->Ok_0 is Closed,
        (frames.len() > 0 || tail.len() > 0) && tail.len() < 36 ==> result is Ok
            && result->Ok_0 is Broken,
        tail.len() >= 36 ==> match wrong_with(tail.take(36)) {
            Some(message) => result matches Err(error) && error.message@ == message
                && !error.retryable,
            None => {
                &&& tail.len() < number_at(tail, 4) ==> result is Ok && result->Ok_0 is Broken
                &&& tail.len() >= number_at(tail, 4) && carried_in(frames).len() + number_at(
                    tail,
                    4,
                ) - 36 > limit ==> (result matches Err(error) && error.message@
                    == "more segments than Xmip will put together"@ && !error.retryable)
            },
        },
{
    a_segment_that_does_not_end(frames, tail, limit as nat);
}

/// `head_length` refuses a header for what is wrong with it, and else gives
/// the bytes that its length leaves after the 36 of the header.
pub proof fn head_length_takes_a_right_header(
    head: &[u8],
    result: Result<usize, TransportError>,
)
    requires
        call_ensures(head_length, (head,), result),
        head@.len() == 36,
    ensures
        match wrong_with(head@) {
            Some(message) => result matches Err(error) && error.message@ == message
                && !error.retryable,
            None => result matches Ok(carried) && carried == number_at(head@, 4) - 36,
        },
{
    lemma_numbers(head@);
}

/// A fresh assembly holds nothing; a transmission that it joins opens the
/// segment or carries on its body, ends it exactly where it has the last
/// flag, and is refused where the body would pass the limit.
pub proof fn join_ends_a_segment_at_the_last_flag_alone(
    limit: usize,
    fresh: Assembly,
    assembly: Assembly,
    head: &[u8],
    carried: &[u8],
    result: Result<Progress, TransportError>,
)
    requires
        call_ensures(Assembly::new, (limit,), fresh),
        call_ensures(Assembly::join, (assembly, head, carried), result),
        head@.len() == 36,
    ensures
        fresh.segment() is None && fresh.limit() == limit,
        ({
            let grows = grown(assembly.segment(), head@, carried@);
            match result {
                Ok(Progress::Whole(segment)) => {
                    &&& so_far(assembly.segment()) + carried@.len() <= assembly.limit()
                    &&& head@[18] & 0x20u8 != 0
                    &&& segment.kind == grows.kind && segment.conversation == grows.conversation
                        && segment.request == grows.request && segment.body@ == grows.body
                },
                Ok(Progress::More(more)) => {
                    &&& so_far(assembly.segment()) + carried@.len() <= assembly.limit()
                    &&& head@[18] & 0x20u8 == 0
                    &&& more.segment() == Some(grows)
                    &&& more.limit() == assembly.limit()
                },
                Err(error) => {
                    &&& so_far(assembly.segment()) + carried@.len() > assembly.limit()
                    &&& error.message@ == "more segments than Xmip will put together"@
                    &&& !error.retryable
                },
            }
        }),
{
    lemma_numbers(head@);
    assert(Seq::<u8>::empty() + carried@ =~= carried@);
    if let Ok(Progress::Whole(segment)) = result {
        assert(segment@.body == segment.body@);
    }
}

/// An assembly is empty until a transmission joins it.
pub proof fn an_assembly_is_empty_until_it_is_joined(assembly: &Assembly, empty: bool)
    requires
        call_ensures(Assembly::is_empty, (assembly,), empty),
    ensures
        empty <==> assembly.segment() is None,
{
}

} // verus!
