//! The transmission segment: what every MQ exchange on a socket is cut
//! into.
//!
//! Every message between a client and a queue manager travels as one or
//! more segments, each opening with a transmission segment header — the
//! `TSHM` of a multiplexed conversation: eyecatcher, length, conversation
//! and request ids, byte order, segment type, control flags, the logical
//! unit of work, encoding and CCSID — thirty-six bytes before anything
//! else. An API call follows it with a sixteen-byte API header — reply
//! length, completion code, reason code, object handle — and then the
//! structures the call carries. A message longer than the transmission
//! size the two sides agreed is cut across several segments, the first
//! flagged first and the last flagged last, and the reader here puts it
//! back together before anyone above sees it.

use vstd::prelude::*;
use vstd::slice::slice_subrange;

use crate::error::{outcome, permanent, protocol_error, Fault, TransportError};
use crate::text::{debug_text, decimal, decimal_text, joined, quoted_bytes, text_in};

verus! {

/// The transmission segment header's length: `TSHM`.
pub const TSHM_LENGTH: usize = 36;

/// The API header's length.
pub const API_LENGTH: usize = 16;

/// The transmission size every segment stays under, as MQ negotiates it.
pub const MAX_TRANSMISSION: usize = 32_766;

/// What one transmission carries of a body.
pub const ROOM: usize = 32_730;

/// Initial data, the first segment each side sends.
pub const INITIAL_DATA: u8 = 0x01;

/// Connect to a queue manager.
pub const MQCONN: u8 = 0x81;

/// Disconnect.
pub const MQDISC: u8 = 0x82;

/// Open a queue.
pub const MQOPEN: u8 = 0x83;

/// Close a handle.
pub const MQCLOSE: u8 = 0x84;

/// Get a message.
pub const MQGET: u8 = 0x85;

/// Put a message.
pub const MQPUT: u8 = 0x86;

/// A reply is its call's type with the reply bit.
pub const REPLY: u8 = 0x10;

/// The flag of a segment's first transmission.
pub const FIRST: u8 = 0x10;

/// The flag of a segment's last transmission.
pub const LAST: u8 = 0x20;

/// Integers, decimals and floats as the network carries them.
pub const ENCODING: u32 = 0x0000_0111;

/// UTF-8.
pub const CCSID: u16 = 1208;

/// `n` as two bytes, the highest first.
pub open spec fn be16_bytes(n: u16) -> Seq<u8> {
    seq![(n / 0x100) as u8, (n % 0x100) as u8]
}

/// `n` as four bytes, the highest first.
pub open spec fn be32_bytes(n: u32) -> Seq<u8> {
    seq![
        (n / 0x100_0000) as u8,
        (n / 0x1_0000 % 0x100) as u8,
        (n / 0x100 % 0x100) as u8,
        (n % 0x100) as u8,
    ]
}

/// The number that the first four of `bytes` hold, the highest first.
pub open spec fn be32_value(bytes: Seq<u8>) -> u32 {
    (bytes[0] * 0x100_0000 + bytes[1] * 0x1_0000 + bytes[2] * 0x100 + bytes[3]) as u32
}

/// A number reads back from its four bytes, whatever follows them.
pub proof fn be32_reads_back(n: u32, rest: Seq<u8>)
    ensures
        be32_value(be32_bytes(n) + rest) == n,
        be32_bytes(n).len() == 4,
{
    let bytes = be32_bytes(n) + rest;
    assert(bytes[0] == n / 0x100_0000);
    assert(bytes[1] == n / 0x1_0000 % 0x100);
    assert(bytes[2] == n / 0x100 % 0x100);
    assert(bytes[3] == n % 0x100);
}

/// A big-endian integer from the first four bytes.
pub fn be32(bytes: &[u8]) -> (n: u32)
    requires
        bytes@.len() >= 4,
    ensures
        n == be32_value(bytes@),
{
    bytes[0] as u32 * 0x100_0000 + bytes[1] as u32 * 0x1_0000 + bytes[2] as u32 * 0x100
        + bytes[3] as u32
}

/// Append `bytes` to `out`.
pub(crate) fn put_bytes(out: &mut Vec<u8>, bytes: &[u8])
    ensures
        final(out)@ == old(out)@ + bytes@,
{
    out.extend_from_slice(bytes);
    assert(out@ =~= old(out)@ + bytes@);
}

/// Append the four bytes of `n` to `out`.
pub(crate) fn put32(out: &mut Vec<u8>, n: u32)
    ensures
        final(out)@ == old(out)@ + be32_bytes(n),
{
    out.push((n / 0x100_0000) as u8);
    out.push((n / 0x1_0000 % 0x100) as u8);
    out.push((n / 0x100 % 0x100) as u8);
    out.push((n % 0x100) as u8);
    assert(out@ =~= old(out)@ + be32_bytes(n));
}

/// Append the two bytes of `n` to `out`.
pub(crate) fn put16(out: &mut Vec<u8>, n: u16)
    ensures
        final(out)@ == old(out)@ + be16_bytes(n),
{
    out.push((n / 0x100) as u8);
    out.push((n % 0x100) as u8);
    assert(out@ =~= old(out)@ + be16_bytes(n));
}

/// `count` NULs.
pub open spec fn nuls(count: nat) -> Seq<u8> {
    Seq::new(count, |i: int| 0u8)
}

/// Append `count` NULs to `out`.
pub(crate) fn put_nuls(out: &mut Vec<u8>, count: usize)
    ensures
        final(out)@ == old(out)@ + nuls(count as nat),
{
    let mut done: usize = 0;
    assert(out@ =~= old(out)@ + nuls(0));
    while done < count
        invariant
            done <= count,
            out@ == old(out)@ + nuls(done as nat),
        decreases count - done,
    {
        out.push(0);
        done = done + 1;
        assert(out@ =~= old(out)@ + nuls(done as nat));
    }
}

/// One whole segment, as it left or as it was put back together.
#[derive(Clone, Debug, PartialEq, Eq)]
pub struct Segment {
    pub kind: u8,
    pub conversation: u32,
    pub request: u32,
    pub body: Vec<u8>,
}

/// What a [`Segment`] holds.
#[verifier::ext_equal]
pub struct SegmentView {
    pub kind: u8,
    pub conversation: u32,
    pub request: u32,
    pub body: Seq<u8>,
}

impl View for Segment {
    type V = SegmentView;

    open spec fn view(&self) -> SegmentView {
        SegmentView {
            kind: self.kind,
            conversation: self.conversation,
            request: self.request,
            body: self.body@,
        }
    }
}

impl SegmentView {
    /// The reply to this segment: its type with the reply bit, the same
    /// conversation and request.
    pub open spec fn reply(self, body: Seq<u8>) -> SegmentView {
        SegmentView { kind: self.kind | REPLY, body, ..self }
    }
}

impl Segment {
    pub fn new(kind: u8, conversation: u32, request: u32, body: Vec<u8>) -> (segment: Self)
        ensures
            segment@ == (SegmentView { kind, conversation, request, body: body@ }),
    {
        Segment { kind, conversation, request, body }
    }

    /// The reply to this segment, the same conversation and request.
    pub fn reply(&self, body: Vec<u8>) -> (segment: Self)
        ensures
            segment@ == self@.reply(body@),
    {
        Self::new(self.kind | REPLY, self.conversation, self.request, body)
    }
}

/// The API header an API call opens with.
#[derive(Clone, Copy, Debug, Default, PartialEq, Eq)]
pub struct ApiHeader {
    pub reply_length: u32,
    pub completion: u32,
    pub reason: u32,
    pub handle: u32,
}

impl View for ApiHeader {
    type V = ApiHeader;

    open spec fn view(&self) -> ApiHeader {
        *self
    }
}

/// The header of a call on `handle`, nothing wrong yet.
pub open spec fn api_call(handle: u32) -> ApiHeader {
    ApiHeader { reply_length: 0, completion: 0, reason: 0, handle }
}

/// The header of a failed reply with `reason`.
pub open spec fn api_failed(reason: u32, handle: u32) -> ApiHeader {
    ApiHeader { reply_length: 0, completion: 2, reason, handle }
}

/// The sixteen bytes of an API header.
pub open spec fn api_bytes(header: ApiHeader) -> Seq<u8> {
    be32_bytes(header.reply_length) + be32_bytes(header.completion) + be32_bytes(header.reason)
        + be32_bytes(header.handle)
}

/// The header at the start of `body` and what follows it, or the refusal of
/// a body shorter than a header.
pub open spec fn api_decoded(body: Seq<u8>) -> Result<(ApiHeader, Seq<u8>), Fault> {
    if body.len() < API_LENGTH {
        Err(permanent("a segment too short for an API header"@))
    } else {
        Ok(
            (
                ApiHeader {
                    reply_length: be32_value(body.subrange(0, 4)),
                    completion: be32_value(body.subrange(4, 8)),
                    reason: be32_value(body.subrange(8, 12)),
                    handle: be32_value(body.subrange(12, 16)),
                },
                body.skip(API_LENGTH as int),
            ),
        )
    }
}

/// An API header reads back from its bytes, and so does what follows it.
pub proof fn api_header_reads_back(header: ApiHeader, rest: Seq<u8>)
    ensures
        api_bytes(header).len() == API_LENGTH,
        api_decoded(api_bytes(header) + rest) == Ok::<(ApiHeader, Seq<u8>), Fault>((header, rest)),
{
    let body = api_bytes(header) + rest;
    let none = Seq::<u8>::empty();
    be32_reads_back(header.reply_length, none);
    be32_reads_back(header.completion, none);
    be32_reads_back(header.reason, none);
    be32_reads_back(header.handle, none);
    assert(body.subrange(0, 4) =~= be32_bytes(header.reply_length) + none);
    assert(body.subrange(4, 8) =~= be32_bytes(header.completion) + none);
    assert(body.subrange(8, 12) =~= be32_bytes(header.reason) + none);
    assert(body.subrange(12, 16) =~= be32_bytes(header.handle) + none);
    assert(body.skip(API_LENGTH as int) =~= rest);
}

impl ApiHeader {
    /// A call on `handle`, nothing wrong yet.
    pub fn call(handle: u32) -> (header: Self)
        ensures
            header == api_call(handle),
    {
        ApiHeader { reply_length: 0, completion: 0, reason: 0, handle }
    }

    /// A failed reply with `reason`.
    pub fn failed(reason: u32, handle: u32) -> (header: Self)
        ensures
            header == api_failed(reason, handle),
    {
        ApiHeader { reply_length: 0, completion: 2, reason, handle }
    }

    /// The header's bytes, the highest of each number first.
    pub fn encode(&self) -> (out: [u8; API_LENGTH])
        ensures
            out@ == api_bytes(*self),
    {
        let mut bytes: Vec<u8> = Vec::with_capacity(API_LENGTH);
        put32(&mut bytes, self.reply_length);
        put32(&mut bytes, self.completion);
        put32(&mut bytes, self.reason);
        put32(&mut bytes, self.handle);
        let mut out: [u8; API_LENGTH] = [0u8; API_LENGTH];
        let mut at: usize = 0;
        while at < API_LENGTH
            invariant
                at <= API_LENGTH,
                bytes@ == api_bytes(*self),
                out@.len() == API_LENGTH,
                forall|i: int| 0 <= i < at ==> out@[i] == bytes@[i],
            decreases API_LENGTH - at,
        {
            out[at] = bytes[at];
            at = at + 1;
        }
        assert(out@ =~= api_bytes(*self));
        out
    }

    /// The header at the start of `body`, and what follows it.
    pub fn decode(body: &[u8]) -> (result: Result<(Self, &[u8]), TransportError>)
        ensures
            outcome(result) == api_decoded(body@),
    {
        if body.len() < API_LENGTH {
            return Err(protocol_error("a segment too short for an API header"));
        }
        let header = ApiHeader {
            reply_length: be32(slice_subrange(body, 0, 4)),
            completion: be32(slice_subrange(body, 4, 8)),
            reason: be32(slice_subrange(body, 8, 12)),
            handle: be32(slice_subrange(body, 12, 16)),
        };
        Ok((header, slice_subrange(body, API_LENGTH, body.len())))
    }
}

/// How many transmissions a body of `length` bytes takes: at least one.
pub open spec fn pieces(length: nat) -> nat {
    if length == 0 {
        1
    } else {
        ((length + ROOM - 1) / ROOM as int) as nat
    }
}

/// What the transmission numbered `n` carries of `body`.
pub open spec fn piece(body: Seq<u8>, n: nat) -> Seq<u8> {
    if (n + 1) * ROOM < body.len() {
        body.subrange(n * ROOM, (n + 1) * ROOM)
    } else {
        body.subrange(n * ROOM, body.len() as int)
    }
}

/// The control flags of the transmission numbered `n` out of `count`.
pub open spec fn flags_of(n: nat, count: nat) -> u8 {
    if n == 0 && n + 1 == count {
        0x30
    } else if n == 0 {
        FIRST
    } else if n + 1 == count {
        LAST
    } else {
        0
    }
}

/// `TSHM`, the eyecatcher.
pub open spec fn tshm() -> Seq<u8> {
    seq![0x54u8, 0x53, 0x48, 0x4d]
}

/// The transmission segment header of a transmission of `segment` that
/// carries `carried` bytes.
pub open spec fn header_bytes(segment: SegmentView, flags: u8, carried: nat) -> Seq<u8> {
    tshm() + be32_bytes((TSHM_LENGTH + carried) as u32) + be32_bytes(segment.conversation)
        + be32_bytes(segment.request) + seq![1u8, segment.kind, flags, 0u8] + nuls(8)
        + be32_bytes(ENCODING) + be16_bytes(CCSID) + nuls(2)
}

/// The transmission numbered `n` of `segment`.
pub open spec fn transmission(segment: SegmentView, n: nat) -> Seq<u8> {
    let carried = piece(segment.body, n);
    header_bytes(segment, flags_of(n, pieces(segment.body.len())), carried.len()) + carried
}

/// The transmissions of `segment` from the one numbered `n` on.
pub open spec fn wire_from(segment: SegmentView, n: nat) -> Seq<u8>
    decreases pieces(segment.body.len()) - n,
{
    if n >= pieces(segment.body.len()) {
        Seq::empty()
    } else {
        transmission(segment, n) + wire_from(segment, n + 1)
    }
}

/// `segment` as it goes on the wire.
pub open spec fn wire(segment: SegmentView) -> Seq<u8> {
    wire_from(segment, 0)
}

fn put_header(out: &mut Vec<u8>, segment: &Segment, flags: u8, carried: usize)
    requires
        carried <= ROOM,
    ensures
        final(out)@ == old(out)@ + header_bytes(segment@, flags, carried as nat),
{
    put_bytes(out, &[0x54, 0x53, 0x48, 0x4d]);
    put32(out, (TSHM_LENGTH + carried) as u32);
    put32(out, segment.conversation);
    put32(out, segment.request);
    put_bytes(out, &[1, segment.kind, flags, 0]);
    put_nuls(out, 8);
    put32(out, ENCODING);
    put16(out, CCSID);
    put_nuls(out, 2);
    assert(out@ =~= old(out)@ + header_bytes(segment@, flags, carried as nat));
}

/// Write `segment` to `out`, cut across as many transmissions as its body
/// needs.
pub fn write_segment(out: &mut Vec<u8>, segment: &Segment)
    ensures
        final(out)@ == old(out)@ + wire(segment@),
{
    let total: usize = segment.body.len();
    let mut at: usize = 0;
    let mut done: bool = false;
    let ghost mut n: nat = 0;
    let ghost count = pieces(total as nat);
    let ghost start = out@;
    while !done
        invariant
            total == segment.body@.len(),
            count == pieces(total as nat),
            start == old(out)@,
            done ==> n == count,
            !done ==> n < count && at == n * ROOM && at <= total,
            start + wire(segment@) == out@ + wire_from(segment@, n),
        decreases count - n,
    {
        let first: bool = at == 0;
        let end: usize = if total - at > ROOM {
            at + ROOM
        } else {
            total
        };
        let last: bool = end == total;
        let flags: u8 = if first && last {
            0x30
        } else if first {
            FIRST
        } else if last {
            LAST
        } else {
            0
        };
        assert(flags == flags_of(n, count));
        let carried: &[u8] = slice_subrange(segment.body.as_slice(), at, end);
        assert(carried@ =~= piece(segment.body@, n));
        let ghost before = out@;
        put_header(out, segment, flags, end - at);
        put_bytes(out, carried);
        proof {
            assert(out@ =~= before + transmission(segment@, n));
            assert(before + (transmission(segment@, n) + wire_from(segment@, n + 1)) =~= out@
                + wire_from(segment@, n + 1));
            n = n + 1;
        }
        at = end;
        done = last;
    }
    assert(out@ + wire_from(segment@, count) =~= out@);
}

/// What is wrong with a transmission segment header, if anything: another
/// eyecatcher, a length outside what a transmission may have, or another
/// byte order.
pub open spec fn head_fault(head: Seq<u8>) -> Option<Fault> {
    let length = be32_value(head.subrange(4, 8));
    if head.subrange(0, 4) != tshm() {
        Some(
            permanent(
                "not a transmission segment: "@ + debug_text(text_in(head.subrange(0, 4))),
            ),
        )
    } else if length < TSHM_LENGTH || length > MAX_TRANSMISSION {
        Some(permanent("a segment of "@ + decimal(length as nat) + " bytes"@))
    } else if head[16] != 1 {
        Some(permanent("a little-endian segment, which this reader does not take"@))
    } else {
        None
    }
}

/// How many bytes follow the header `head` in its transmission.
pub open spec fn carried_by(head: Seq<u8>) -> nat {
    (be32_value(head.subrange(4, 8)) - TSHM_LENGTH) as nat
}

/// Whether `head` is the header of a segment's last transmission.
pub open spec fn is_last(head: Seq<u8>) -> bool {
    head[18] & LAST != 0
}

/// The segment that `head` and `carried` make with what came before them,
/// or the refusal of one longer than `limit`. The first header names the
/// segment; those that follow only carry on its body.
pub open spec fn joined_segment(
    before: Option<SegmentView>,
    head: Seq<u8>,
    carried: Seq<u8>,
    limit: nat,
) -> Result<SegmentView, Fault> {
    let segment = match before {
        Some(segment) => segment,
        None => SegmentView {
            kind: head[17],
            conversation: be32_value(head.subrange(8, 12)),
            request: be32_value(head.subrange(12, 16)),
            body: Seq::empty(),
        },
    };
    if segment.body.len() + carried.len() > limit {
        Err(permanent("more segments than Xmip will put together"@))
    } else {
        Ok(SegmentView { body: segment.body + carried, ..segment })
    }
}

/// How many bytes follow `head` in its transmission, or the refusal of a
/// header that this reader does not take.
pub fn head_length(head: &[u8]) -> (result: Result<usize, TransportError>)
    requires
        head@.len() == TSHM_LENGTH,
    ensures
        outcome(result) == (match head_fault(head@) {
            Some(fault) => Err::<usize, Fault>(fault),
            None => Ok(carried_by(head@) as usize),
        }),
        result matches Ok(carried) ==> carried == carried_by(head@) && carried <= ROOM,
{
    let catcher: &[u8] = slice_subrange(head, 0, 4);
    if !(catcher[0] == 0x54 && catcher[1] == 0x53 && catcher[2] == 0x48 && catcher[3] == 0x4d) {
        assert(head@.subrange(0, 4) != tshm()) by {
            assert(catcher@ == head@.subrange(0, 4));
            assert(tshm()[0] == 0x54 && tshm()[1] == 0x53 && tshm()[2] == 0x48 && tshm()[3]
                == 0x4d);
        }
        let mut message = "not a transmission segment: ".to_string();
        message.append(quoted_bytes(catcher).as_str());
        return Err(TransportError::permanent(message));
    }
    assert(head@.subrange(0, 4) =~= tshm());
    let length: u32 = be32(slice_subrange(head, 4, 8));
    if length < TSHM_LENGTH as u32 || length > MAX_TRANSMISSION as u32 {
        let shown = decimal_text(length as u64);
        return Err(
            TransportError::permanent(joined("a segment of ", shown.as_str(), " bytes")),
        );
    }
    if head[16] != 1 {
        return Err(protocol_error("a little-endian segment, which this reader does not take"));
    }
    Ok(length as usize - TSHM_LENGTH)
}

/// A segment being put back together from its transmissions.
pub struct Assembly {
    whole: Option<Segment>,
    limit: usize,
}

/// What a transmission made of an [`Assembly`].
pub enum Progress {
    /// The segment is whole.
    Whole(Segment),
    /// More transmissions follow.
    More(Assembly),
}

impl Assembly {
    /// What was put together so far.
    pub closed spec fn segment(&self) -> Option<SegmentView> {
        match self.whole {
            Some(segment) => Some(segment@),
            None => None,
        }
    }

    /// The most bytes that will be put together.
    pub closed spec fn limit(&self) -> nat {
        self.limit as nat
    }

    /// Nothing yet, and no more than `limit` bytes of body to come.
    pub fn new(limit: usize) -> (assembly: Self)
        ensures
            assembly.segment() is None,
            assembly.limit() == limit,
    {
        Assembly { whole: None, limit }
    }

    /// Whether no transmission has come yet. A peer that closes then, before
    /// a byte of the next header, closes between segments.
    pub fn is_empty(&self) -> (empty: bool)
        ensures
            empty == (self.segment() is None),
    {
        self.whole.is_none()
    }

    /// Take one more transmission: its header, and what it carried.
    pub fn join(self, head: &[u8], carried: &[u8]) -> (result: Result<Progress, TransportError>)
        requires
            head@.len() == TSHM_LENGTH,
        ensures
            match (result, joined_segment(self.segment(), head@, carried@, self.limit())) {
                (Ok(Progress::Whole(segment)), Ok(expected)) => is_last(head@) && segment@
                    == expected,
                (Ok(Progress::More(assembly)), Ok(expected)) => !is_last(head@)
                    && assembly.segment() == Some(expected) && assembly.limit() == self.limit(),
                (Err(error), Err(fault)) => error@ == fault,
                _ => false,
            },
    {
        let limit: usize = self.limit;
        let mut segment = match self.whole {
            Some(segment) => segment,
            None => Segment::new(
                head[17],
                be32(slice_subrange(head, 8, 12)),
                be32(slice_subrange(head, 12, 16)),
                Vec::new(),
            ),
        };
        if carried.len() > limit || segment.body.len() > limit - carried.len() {
            return Err(protocol_error("more segments than Xmip will put together"));
        }
        put_bytes(&mut segment.body, carried);
        if head[18] & LAST != 0 {
            Ok(Progress::Whole(segment))
        } else {
            Ok(Progress::More(Assembly { whole: Some(segment), limit }))
        }
    }
}

/// What reading bytes for a segment came to.
pub enum Reading {
    /// A whole segment, and how many bytes it took.
    Whole(Segment, usize),
    /// No byte came: the peer closed between segments.
    Closed,
    /// The bytes ended inside a segment, in its first header or later.
    Broken,
}

/// What a [`Reading`] holds.
pub enum ReadingView {
    Whole(SegmentView, nat),
    Closed,
    Broken,
}

impl View for Reading {
    type V = ReadingView;

    open spec fn view(&self) -> ReadingView {
        match self {
            Reading::Whole(segment, taken) => ReadingView::Whole(segment@, *taken as nat),
            Reading::Closed => ReadingView::Closed,
            Reading::Broken => ReadingView::Broken,
        }
    }
}

/// `reading`, made after `taken` bytes were already read.
pub open spec fn after(
    reading: Result<ReadingView, Fault>,
    taken: nat,
) -> Result<ReadingView, Fault> {
    match reading {
        Ok(ReadingView::Whole(segment, more)) => Ok(ReadingView::Whole(segment, taken + more)),
        _ => reading,
    }
}

/// What `bytes` hold of a segment of which `before` was already read.
pub open spec fn reading(bytes: Seq<u8>, before: Option<SegmentView>, limit: nat) -> Result<
    ReadingView,
    Fault,
>
    decreases bytes.len(),
{
    let head = bytes.take(TSHM_LENGTH as int);
    let length = TSHM_LENGTH + carried_by(head);
    if bytes.len() < TSHM_LENGTH {
        Ok(
            if before is None && bytes.len() == 0 {
                ReadingView::Closed
            } else {
                ReadingView::Broken
            },
        )
    } else if head_fault(head) is Some {
        Err(head_fault(head)->0)
    } else if bytes.len() < length {
        Ok(ReadingView::Broken)
    } else {
        match joined_segment(before, head, bytes.subrange(TSHM_LENGTH as int, length), limit) {
            Err(fault) => Err(fault),
            Ok(segment) => if is_last(head) {
                Ok(ReadingView::Whole(segment, length as nat))
            } else {
                after(reading(bytes.skip(length), Some(segment), limit), length as nat)
            },
        }
    }
}

/// Read one whole segment from the start of `bytes`, putting a cut one back
/// together from no more than `limit` bytes of body; `Closed` only where no
/// byte came.
pub fn read_segment(bytes: &[u8], limit: usize) -> (result: Result<Reading, TransportError>)
    ensures
        outcome(result) == reading(bytes@, None, limit as nat),
{
    let mut assembly = Assembly::new(limit);
    let mut at: usize = 0;
    assert(bytes@.skip(0) =~= bytes@);
    loop
        invariant
            at <= bytes@.len(),
            assembly.limit() == limit,
            reading(bytes@, None, limit as nat) == after(
                reading(bytes@.skip(at as int), assembly.segment(), limit as nat),
                at as nat,
            ),
        decreases bytes@.len() - at,
    {
        let ghost left = bytes@.skip(at as int);
        if bytes.len() - at < TSHM_LENGTH {
            return Ok(
                if assembly.is_empty() && at == bytes.len() {
                    Reading::Closed
                } else {
                    Reading::Broken
                },
            );
        }
        let head: &[u8] = slice_subrange(bytes, at, at + TSHM_LENGTH);
        assert(head@ =~= left.take(TSHM_LENGTH as int));
        let carried: usize = match head_length(head) {
            Ok(carried) => carried,
            Err(error) => {
                return Err(error);
            },
        };
        at = at + TSHM_LENGTH;
        if bytes.len() - at < carried {
            return Ok(Reading::Broken);
        }
        let body: &[u8] = slice_subrange(bytes, at, at + carried);
        assert(body@ =~= left.subrange(TSHM_LENGTH as int, TSHM_LENGTH + carried));
        at = at + carried;
        assert(left.skip(TSHM_LENGTH + carried) =~= bytes@.skip(at as int));
        match assembly.join(head, body) {
            Err(error) => {
                return Err(error);
            },
            Ok(Progress::Whole(segment)) => {
                return Ok(Reading::Whole(segment, at));
            },
            Ok(Progress::More(more)) => {
                assembly = more;
            },
        }
    }
}

/// The header of a transmission is one this reader takes, and says what it
/// was written with.
proof fn lemma_header_reads(segment: SegmentView, flags: u8, carried: nat)
    requires
        carried <= ROOM,
    ensures
        header_bytes(segment, flags, carried).len() == TSHM_LENGTH,
        head_fault(header_bytes(segment, flags, carried)) is None,
        carried_by(header_bytes(segment, flags, carried)) == carried,
        header_bytes(segment, flags, carried)[17] == segment.kind,
        header_bytes(segment, flags, carried)[18] == flags,
        be32_value(header_bytes(segment, flags, carried).subrange(8, 12)) == segment.conversation,
        be32_value(header_bytes(segment, flags, carried).subrange(12, 16)) == segment.request,
{
    let head = header_bytes(segment, flags, carried);
    let none = Seq::<u8>::empty();
    let length = (TSHM_LENGTH + carried) as u32;
    be32_reads_back(length, none);
    be32_reads_back(segment.conversation, none);
    be32_reads_back(segment.request, none);
    assert(head.subrange(0, 4) =~= tshm());
    assert(head.subrange(4, 8) =~= be32_bytes(length) + none);
    assert(head.subrange(8, 12) =~= be32_bytes(segment.conversation) + none);
    assert(head.subrange(12, 16) =~= be32_bytes(segment.request) + none);
    assert(head[16] == 1);
}

/// What the first `n` transmissions of `segment` put together.
spec fn put_together(segment: SegmentView, n: nat) -> Option<SegmentView> {
    if n == 0 {
        None
    } else {
        Some(SegmentView { body: segment.body.take(n * ROOM), ..segment })
    }
}

proof fn lemma_reads_on(segment: SegmentView, n: nat, rest: Seq<u8>, limit: nat)
    requires
        n < pieces(segment.body.len()),
        segment.body.len() <= limit,
    ensures
        reading(wire_from(segment, n) + rest, put_together(segment, n), limit) == Ok::<
            ReadingView,
            Fault,
        >(ReadingView::Whole(segment, wire_from(segment, n).len())),
    decreases pieces(segment.body.len()) - n,
{
    let count = pieces(segment.body.len());
    let carried = piece(segment.body, n);
    let flags = flags_of(n, count);
    let head = header_bytes(segment, flags, carried.len());
    let more = wire_from(segment, n + 1);
    let bytes = wire_from(segment, n) + rest;
    let length = TSHM_LENGTH + carried.len();
    let before = put_together(segment, n);
    lemma_header_reads(segment, flags, carried.len());
    assert(bytes =~= head + carried + (more + rest));
    assert(bytes.take(TSHM_LENGTH as int) =~= head);
    assert(bytes.subrange(TSHM_LENGTH as int, length as int) =~= carried);
    assert(bytes.skip(length as int) =~= more + rest);
    assert(0x30u8 & 0x20u8 != 0 && 0x20u8 & 0x20u8 != 0 && 0x10u8 & 0x20u8 == 0 && 0u8 & 0x20u8
        == 0) by (bit_vector);
    assert(is_last(head) <==> n + 1 == count);
    let joined = joined_segment(before, head, carried, limit);
    if n + 1 == count {
        assert(segment.body =~= (if n == 0 {
            Seq::<u8>::empty()
        } else {
            segment.body.take(n * ROOM)
        }) + carried);
        assert(joined->Ok_0 =~= segment);
        assert(more =~= Seq::<u8>::empty());
        assert(wire_from(segment, n).len() == length);
    } else {
        assert(segment.body.take((n + 1) * ROOM) =~= (if n == 0 {
            Seq::<u8>::empty()
        } else {
            segment.body.take(n * ROOM)
        }) + carried);
        assert(joined->Ok_0 =~= put_together(segment, n + 1)->0);
        lemma_reads_on(segment, n + 1, rest, limit);
    }
}

/// A segment written is the segment read: cut across transmissions and put
/// back together, it is what it was, it takes exactly what was written, and
/// what follows it on the wire is left for the next read.
pub proof fn a_segment_reads_back(segment: SegmentView, rest: Seq<u8>, limit: nat)
    requires
        segment.body.len() <= limit,
    ensures
        reading(wire(segment) + rest, None, limit) == Ok::<ReadingView, Fault>(
            ReadingView::Whole(segment, wire(segment).len()),
        ),
        (wire(segment) + rest).skip(wire(segment).len() as int) == rest,
{
    lemma_reads_on(segment, 0, rest, limit);
    assert((wire(segment) + rest).skip(wire(segment).len() as int) =~= rest);
}

proof fn lemma_reads_too_many(segment: SegmentView, n: nat, rest: Seq<u8>, limit: nat)
    requires
        n < pieces(segment.body.len()),
        segment.body.len() > limit,
    ensures
        reading(wire_from(segment, n) + rest, put_together(segment, n), limit) == Err::<
            ReadingView,
            Fault,
        >(permanent("more segments than Xmip will put together"@)),
    decreases pieces(segment.body.len()) - n,
{
    let count = pieces(segment.body.len());
    let carried = piece(segment.body, n);
    let flags = flags_of(n, count);
    let head = header_bytes(segment, flags, carried.len());
    let more = wire_from(segment, n + 1);
    let bytes = wire_from(segment, n) + rest;
    let length = TSHM_LENGTH + carried.len();
    lemma_header_reads(segment, flags, carried.len());
    assert(bytes =~= head + carried + (more + rest));
    assert(bytes.take(TSHM_LENGTH as int) =~= head);
    assert(bytes.subrange(TSHM_LENGTH as int, length as int) =~= carried);
    assert(bytes.skip(length as int) =~= more + rest);
    assert(0x10u8 & 0x20u8 == 0 && 0u8 & 0x20u8 == 0) by (bit_vector);
    let joined = joined_segment(put_together(segment, n), head, carried, limit);
    if joined is Ok {
        assert(n + 1 < count);
        assert(!is_last(head));
        assert(segment.body.take((n + 1) * ROOM) =~= (if n == 0 {
            Seq::<u8>::empty()
        } else {
            segment.body.take(n * ROOM)
        }) + carried);
        assert(joined->Ok_0 =~= put_together(segment, n + 1)->0);
        lemma_reads_too_many(segment, n + 1, rest, limit);
    }
}

/// A peer that closed is told from a connection that broke: nothing at all
/// is a close between segments, and any part of a segment that is not the
/// whole of it is a break, wherever the bytes end.
pub proof fn a_cut_segment_is_broken(segment: SegmentView, end: nat, limit: nat)
    requires
        segment.body.len() <= limit,
        end < wire(segment).len(),
    ensures
        reading(wire(segment).take(end as int), None, limit) == Ok::<ReadingView, Fault>(
            if end == 0 {
                ReadingView::Closed
            } else {
                ReadingView::Broken
            },
        ),
{
    if end > 0 {
        lemma_reads_cut(segment, 0, end, limit);
    }
}

proof fn lemma_reads_cut(segment: SegmentView, n: nat, end: nat, limit: nat)
    requires
        n < pieces(segment.body.len()),
        segment.body.len() <= limit,
        end < wire_from(segment, n).len(),
        n == 0 ==> end > 0,
    ensures
        reading(
            wire_from(segment, n).take(end as int),
            put_together(segment, n),
            limit,
        ) == Ok::<ReadingView, Fault>(ReadingView::Broken),
    decreases pieces(segment.body.len()) - n,
{
    let count = pieces(segment.body.len());
    let carried = piece(segment.body, n);
    let flags = flags_of(n, count);
    let head = header_bytes(segment, flags, carried.len());
    let more = wire_from(segment, n + 1);
    let bytes = wire_from(segment, n).take(end as int);
    let length = TSHM_LENGTH + carried.len();
    lemma_header_reads(segment, flags, carried.len());
    if end >= TSHM_LENGTH {
        assert(bytes.take(TSHM_LENGTH as int) =~= head);
        if end >= length {
            assert(bytes.subrange(TSHM_LENGTH as int, length as int) =~= carried);
            assert(n + 1 < count);
            assert(0x10u8 & 0x20u8 == 0 && 0u8 & 0x20u8 == 0) by (bit_vector);
            assert(!is_last(head));
            assert(bytes.skip(length as int) =~= more.take(end - length));
            let joined = joined_segment(put_together(segment, n), head, carried, limit);
            assert(segment.body.take((n + 1) * ROOM) =~= (if n == 0 {
                Seq::<u8>::empty()
            } else {
                segment.body.take(n * ROOM)
            }) + carried);
            assert(joined->Ok_0 =~= put_together(segment, n + 1)->0);
            lemma_reads_cut(segment, n + 1, (end - length) as nat, limit);
        }
    }
}

/// A segment whose body is over the limit is refused however it was cut.
pub proof fn a_segment_over_the_limit_is_refused(segment: SegmentView, rest: Seq<u8>, limit: nat)
    requires
        segment.body.len() > limit,
    ensures
        reading(wire(segment) + rest, None, limit) == Err::<ReadingView, Fault>(
            permanent("more segments than Xmip will put together"@),
        ),
{
    lemma_reads_too_many(segment, 0, rest, limit);
}

proof fn lemma_wire_length(segment: SegmentView, n: nat)
    requires
        n <= pieces(segment.body.len()),
    ensures
        wire_from(segment, n).len() == TSHM_LENGTH * (pieces(segment.body.len()) - n) + (if n
            < pieces(segment.body.len()) {
            segment.body.len() - n * ROOM
        } else {
            0
        }),
    decreases pieces(segment.body.len()) - n,
{
    if n < pieces(segment.body.len()) {
        let carried = piece(segment.body, n);
        lemma_header_reads(
            segment,
            flags_of(n, pieces(segment.body.len())),
            carried.len(),
        );
        lemma_wire_length(segment, n + 1);
    }
}

/// A segment goes on the wire as its body and one header for each
/// transmission, no transmission is over the negotiated size and all but
/// the last are of exactly that size, only the first is flagged first and
/// only the last is flagged last.
pub proof fn transmissions_stay_in_size(segment: SegmentView, n: nat)
    requires
        n < pieces(segment.body.len()),
    ensures
        wire(segment).len() == segment.body.len() + TSHM_LENGTH * pieces(segment.body.len()),
        TSHM_LENGTH <= transmission(segment, n).len() <= MAX_TRANSMISSION,
        n + 1 < pieces(segment.body.len()) ==> transmission(segment, n).len() == MAX_TRANSMISSION,
        (transmission(segment, n)[18] & FIRST != 0) <==> n == 0,
        (transmission(segment, n)[18] & LAST != 0) <==> n + 1 == pieces(segment.body.len()),
{
    let count = pieces(segment.body.len());
    lemma_wire_length(segment, 0);
    lemma_header_reads(segment, flags_of(n, count), piece(segment.body, n).len());
    assert(transmission(segment, n)[18] == flags_of(n, count));
    assert(0x30u8 & 0x20u8 != 0 && 0x20u8 & 0x20u8 != 0 && 0x10u8 & 0x20u8 == 0 && 0u8 & 0x20u8
        == 0 && 0x30u8 & 0x10u8 != 0 && 0x10u8 & 0x10u8 != 0 && 0x20u8 & 0x10u8 == 0 && 0u8 & 0x10u8
        == 0) by (bit_vector);
}

} // verus!
