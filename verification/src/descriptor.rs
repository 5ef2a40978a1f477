//! The structures an MQ call carries: the message descriptor, the put and
//! get options, the object descriptor, and the initial data two sides
//! open with.
//!
//! Each is MQ's own version-1 layout to the byte — `MQMD` is 324 bytes,
//! `MQPMO` 128, `MQGMO` 72, `MQOD` 168 — with text fields space-padded to
//! their width as the C headers declare them. What Xmip reads of each is
//! little: a name, a handle's options, a message id, a length. The rest is
//! carried so a queue manager sees what it expects.

use vstd::prelude::*;
use vstd::slice::slice_subrange;

use crate::error::{outcome, permanent, protocol_error, Fault, TransportError};
use crate::segment::{
    be16_bytes, be32, be32_bytes, be32_reads_back, be32_value, nuls, put16, put32, put_bytes,
    put_nuls, CCSID, ENCODING, MAX_TRANSMISSION,
};
use crate::text::{
    debug_text, decimal, decimal_text, field_keeps_width, field_of, field_reads_back, field_text,
    fits, quoted_bytes, text_in,
};
pub use crate::text::{fixed, text_of};

verus! {

pub const MQMD_LENGTH: usize = 324;

pub const MQPMO_LENGTH: usize = 128;

pub const MQGMO_LENGTH: usize = 72;

pub const MQOD_LENGTH: usize = 168;

pub const ID_LENGTH: usize = 96;

/// `MQOO_INPUT_AS_Q_DEF`.
pub const OPEN_INPUT: u32 = 0x0000_0001;

/// `MQOO_OUTPUT`.
pub const OPEN_OUTPUT: u32 = 0x0000_0010;

/// `MQOO_FAIL_IF_QUIESCING`.
pub const OPEN_FAIL_IF_QUIESCING: u32 = 0x0000_2000;

/// `MQMT_DATAGRAM`.
pub const DATAGRAM: u32 = 8;

/// The level of the format and protocol this crate speaks.
pub const FAP_LEVEL: u8 = 10;

/// The eyecatcher of an `MQMD`: `MD  `.
pub const MQMD_CATCHER: [u8; 4] = [0x4d, 0x44, 0x20, 0x20];

/// The eyecatcher of an `MQPMO`: `PMO `.
pub const MQPMO_CATCHER: [u8; 4] = [0x50, 0x4d, 0x4f, 0x20];

/// The eyecatcher of an `MQGMO`: `GMO `.
pub const MQGMO_CATCHER: [u8; 4] = [0x47, 0x4d, 0x4f, 0x20];

/// The eyecatcher of an `MQOD`: `OD  `.
pub const MQOD_CATCHER: [u8; 4] = [0x4f, 0x44, 0x20, 0x20];

/// The eyecatcher of initial data: `ID  `.
pub const ID_CATCHER: [u8; 4] = [0x49, 0x44, 0x20, 0x20];

/// What is wrong with `bytes` as a structure of `length` bytes that opens
/// with `expected`, if anything.
pub open spec fn catcher_fault(bytes: Seq<u8>, expected: Seq<u8>, length: nat) -> Option<Fault> {
    if bytes.len() < length || bytes.subrange(0, 4) != expected {
        let found = if bytes.len() < 4 {
            bytes
        } else {
            bytes.subrange(0, 4)
        };
        Some(
            permanent(
                "not "@ + debug_text(text_in(expected)) + ": "@ + debug_text(text_in(found)),
            ),
        )
    } else {
        None
    }
}

/// The refusal of a structure that ends before a field at `at` does.
pub open spec fn cut_short(at: nat) -> Fault {
    permanent("a structure cut short at byte "@ + decimal(at))
}

fn eyecatcher(bytes: &[u8], expected: &[u8; 4], length: usize) -> (result: Result<
    (),
    TransportError,
>)
    requires
        length <= bytes@.len() ==> bytes@.len() >= 4,
    ensures
        outcome(result) == (match catcher_fault(bytes@, expected@, length as nat) {
            Some(fault) => Err::<(), Fault>(fault),
            None => Ok(()),
        }),
{
    let good: bool = if bytes.len() < length {
        false
    } else {
        bytes[0] == expected[0] && bytes[1] == expected[1] && bytes[2] == expected[2] && bytes[3]
            == expected[3]
    };
    if good {
        assert(bytes@.subrange(0, 4) =~= expected@);
        return Ok(());
    }
    proof {
        if bytes@.len() >= length && bytes@.subrange(0, 4) == expected@ {
            assert(bytes@[0] == bytes@.subrange(0, 4)[0]);
            assert(bytes@[1] == bytes@.subrange(0, 4)[1]);
            assert(bytes@[2] == bytes@.subrange(0, 4)[2]);
            assert(bytes@[3] == bytes@.subrange(0, 4)[3]);
            assert(false);
        }
    }
    let end: usize = if bytes.len() < 4 {
        bytes.len()
    } else {
        4
    };
    let found: &[u8] = slice_subrange(bytes, 0, end);
    assert(end < 4 ==> found@ =~= bytes@);
    let mut message = "not ".to_string();
    message.append(quoted_bytes(expected).as_str());
    message.append(": ");
    message.append(quoted_bytes(found).as_str());
    Err(TransportError::permanent(message))
}

/// The length that a wire field declares for `length` bytes: the most it
/// can say where they are more.
pub open spec fn declared(length: nat) -> u32 {
    if length <= u32::MAX {
        length as u32
    } else {
        u32::MAX
    }
}

fn declared_length(length: usize) -> (n: u32)
    ensures
        n == declared(length as nat),
{
    if length as u64 <= u32::MAX as u64 {
        length as u32
    } else {
        u32::MAX
    }
}

/// An empty text field `width` wide.
pub open spec fn blank(width: nat) -> Seq<u8> {
    field_of(""@, width)
}

fn put_field(out: &mut Vec<u8>, text: &str, width: usize)
    ensures
        final(out)@ == old(out)@ + field_of(text@, width as nat),
{
    put_bytes(out, fixed(text, width).as_slice());
}

/// The message descriptor, `MQMD` version 1.
#[derive(Clone, Debug, PartialEq, Eq)]
pub struct MessageDescriptor {
    pub message_id: [u8; 24],
    pub correlation_id: [u8; 24],
    pub format: String,
    pub put_application: String,
}

/// What a [`MessageDescriptor`] holds.
#[verifier::ext_equal]
pub struct MessageDescriptorView {
    pub message_id: Seq<u8>,
    pub correlation_id: Seq<u8>,
    pub format: Seq<char>,
    pub put_application: Seq<char>,
}

impl View for MessageDescriptor {
    type V = MessageDescriptorView;

    open spec fn view(&self) -> MessageDescriptorView {
        MessageDescriptorView {
            message_id: self.message_id@,
            correlation_id: self.correlation_id@,
            format: self.format@,
            put_application: self.put_application@,
        }
    }
}

impl MessageDescriptorView {
    /// A datagram with no id yet.
    pub open spec fn datagram(put_application: Seq<char>) -> Self {
        MessageDescriptorView {
            message_id: nuls(24),
            correlation_id: nuls(24),
            format: ""@,
            put_application,
        }
    }

    /// The first 48 bytes of the descriptor, up to the message id.
    pub open spec fn opening(self) -> Seq<u8> {
        MQMD_CATCHER@ + be32_bytes(1) + be32_bytes(0) + be32_bytes(DATAGRAM) + be32_bytes(u32::MAX)
            + be32_bytes(0) + be32_bytes(ENCODING) + be32_bytes(CCSID as u32) + field_of(
            self.format,
            8,
        ) + be32_bytes(u32::MAX) + be32_bytes(2)
    }

    /// What stands between the correlation id and the putting application.
    pub open spec fn middle() -> Seq<u8> {
        be32_bytes(0) + blank(48) + blank(48) + blank(12) + nuls(32) + blank(32) + be32_bytes(0)
    }

    /// The descriptor's bytes.
    pub open spec fn bytes(self) -> Seq<u8> {
        self.opening() + self.message_id + self.correlation_id + Self::middle() + field_of(
            self.put_application,
            28,
        ) + blank(8) + blank(8) + blank(4)
    }

    /// What is left of the descriptor once its texts have been through
    /// their fields.
    pub open spec fn carried(self) -> Self {
        MessageDescriptorView {
            format: field_text(field_of(self.format, 8)),
            put_application: field_text(field_of(self.put_application, 28)),
            ..self
        }
    }
}

/// The descriptor at the start of `bytes` and what follows it, or the
/// refusal of bytes that are not an `MQMD`.
pub open spec fn md_decoded(bytes: Seq<u8>) -> Result<(MessageDescriptorView, Seq<u8>), Fault> {
    match catcher_fault(bytes, MQMD_CATCHER@, MQMD_LENGTH as nat) {
        Some(fault) => Err(fault),
        None => Ok(
            (
                MessageDescriptorView {
                    message_id: bytes.subrange(48, 72),
                    correlation_id: bytes.subrange(72, 96),
                    format: field_text(bytes.subrange(32, 40)),
                    put_application: field_text(bytes.subrange(276, 304)),
                },
                bytes.skip(MQMD_LENGTH as int),
            ),
        ),
    }
}

proof fn lemma_opening(md: MessageDescriptorView)
    ensures
        md.opening().len() == 48,
        md.opening().subrange(0, 4) == MQMD_CATCHER@,
        md.opening().subrange(32, 40) == field_of(md.format, 8),
{
    field_keeps_width(md.format, 8);
    assert(md.opening().subrange(0, 4) =~= MQMD_CATCHER@);
    assert(md.opening().subrange(32, 40) =~= field_of(md.format, 8));
}

proof fn lemma_middle()
    ensures
        MessageDescriptorView::middle().len() == 180,
{
    field_keeps_width(""@, 48);
    field_keeps_width(""@, 32);
    field_keeps_width(""@, 12);
}

/// A message descriptor is 324 bytes and reads back from them: its ids as
/// they were, its texts as their fields carry them — whole, where they fit
/// — and what follows it untouched.
pub proof fn message_descriptor_reads_back(md: MessageDescriptorView, rest: Seq<u8>)
    requires
        md.message_id.len() == 24,
        md.correlation_id.len() == 24,
    ensures
        md.bytes().len() == MQMD_LENGTH,
        md_decoded(md.bytes() + rest) == Ok::<(MessageDescriptorView, Seq<u8>), Fault>(
            (md.carried(), rest),
        ),
        fits(md.format, 8) && fits(md.put_application, 28) ==> md.carried() == md,
{
    let bytes = md.bytes() + rest;
    lemma_opening(md);
    lemma_middle();
    field_keeps_width(md.put_application, 28);
    field_keeps_width(""@, 8);
    field_keeps_width(""@, 4);
    assert(bytes.subrange(0, 4) =~= md.opening().subrange(0, 4));
    assert(bytes.subrange(32, 40) =~= md.opening().subrange(32, 40));
    assert(bytes.subrange(48, 72) =~= md.message_id);
    assert(bytes.subrange(72, 96) =~= md.correlation_id);
    assert(bytes.subrange(276, 304) =~= field_of(md.put_application, 28));
    assert(bytes.skip(MQMD_LENGTH as int) =~= rest);
    if fits(md.format, 8) && fits(md.put_application, 28) {
        field_reads_back(md.format, 8);
        field_reads_back(md.put_application, 28);
    }
}

/// Twenty-four bytes as an id.
pub(crate) fn id_of(bytes: &[u8]) -> (id: [u8; 24])
    requires
        bytes@.len() == 24,
    ensures
        id@ == bytes@,
{
    let mut id: [u8; 24] = [0u8; 24];
    let mut at: usize = 0;
    while at < 24
        invariant
            at <= 24,
            bytes@.len() == 24,
            forall|i: int| 0 <= i < at ==> id@[i] == bytes@[i],
        decreases 24 - at,
    {
        id[at] = bytes[at];
        at = at + 1;
    }
    assert(id@ =~= bytes@);
    id
}

impl MessageDescriptor {
    /// A datagram with no id yet, the queue manager assigns one.
    pub fn datagram(put_application: &str) -> (md: Self)
        ensures
            md@ == MessageDescriptorView::datagram(put_application@),
    {
        let md = MessageDescriptor {
            message_id: [0u8; 24],
            correlation_id: [0u8; 24],
            format: "".to_string(),
            put_application: put_application.to_string(),
        };
        assert(md@ =~= MessageDescriptorView::datagram(put_application@));
        md
    }

    /// The descriptor's 324 bytes.
    pub fn encode(&self) -> (out: Vec<u8>)
        ensures
            out@ == self@.bytes(),
            out@.len() == MQMD_LENGTH,
    {
        let mut out: Vec<u8> = Vec::with_capacity(MQMD_LENGTH);
        put_bytes(&mut out, &MQMD_CATCHER);
        put32(&mut out, 1);
        put32(&mut out, 0);
        put32(&mut out, DATAGRAM);
        put32(&mut out, u32::MAX);
        put32(&mut out, 0);
        put32(&mut out, ENCODING);
        put32(&mut out, CCSID as u32);
        put_field(&mut out, self.format.as_str(), 8);
        put32(&mut out, u32::MAX);
        put32(&mut out, 2);
        assert(out@ =~= self@.opening());
        put_bytes(&mut out, &self.message_id);
        put_bytes(&mut out, &self.correlation_id);
        let ghost before = out@;
        put32(&mut out, 0);
        put_field(&mut out, "", 48);
        put_field(&mut out, "", 48);
        put_field(&mut out, "", 12);
        put_nuls(&mut out, 32);
        put_field(&mut out, "", 32);
        put32(&mut out, 0);
        assert(out@ =~= before + MessageDescriptorView::middle());
        put_field(&mut out, self.put_application.as_str(), 28);
        put_field(&mut out, "", 8);
        put_field(&mut out, "", 8);
        put_field(&mut out, "", 4);
        proof {
            assert(out@ =~= self@.bytes());
            message_descriptor_reads_back(self@, Seq::empty());
        }
        out
    }

    /// The descriptor at the start of `bytes`, and what follows it.
    pub fn decode(bytes: &[u8]) -> (result: Result<(Self, &[u8]), TransportError>)
        ensures
            outcome(result) == md_decoded(bytes@),
    {
        match eyecatcher(bytes, &MQMD_CATCHER, MQMD_LENGTH) {
            Ok(()) => {},
            Err(error) => {
                return Err(error);
            },
        }
        let md = MessageDescriptor {
            message_id: id_of(slice_subrange(bytes, 48, 72)),
            correlation_id: id_of(slice_subrange(bytes, 72, 96)),
            format: text_of(slice_subrange(bytes, 32, 40)),
            put_application: text_of(slice_subrange(bytes, 276, 304)),
        };
        Ok((md, slice_subrange(bytes, MQMD_LENGTH, bytes.len())))
    }
}

/// The bytes of put options that name `resolved_queue`, and the data length
/// that follows them.
pub open spec fn put_options_bytes(resolved_queue: Seq<char>, data_length: nat) -> Seq<u8> {
    MQPMO_CATCHER@ + be32_bytes(1) + be32_bytes(0x2000) + be32_bytes(0) + be32_bytes(0)
        + be32_bytes(0) + be32_bytes(0) + be32_bytes(0) + field_of(resolved_queue, 48) + blank(48)
        + be32_bytes(declared(data_length))
}

/// The bytes of get options that name `resolved_queue`, and the buffer
/// length that follows them.
pub open spec fn get_options_bytes(resolved_queue: Seq<char>, buffer_length: nat) -> Seq<u8> {
    MQGMO_CATCHER@ + be32_bytes(1) + be32_bytes(0x2000) + be32_bytes(0) + be32_bytes(0)
        + be32_bytes(0) + field_of(resolved_queue, 48) + be32_bytes(declared(buffer_length))
}

/// The length after the options that open with `catcher` and are `length`
/// bytes, and what follows it; or the refusal of bytes that are not those
/// options, or that end before the length does.
pub open spec fn options_decoded(bytes: Seq<u8>, catcher: Seq<u8>, length: nat) -> Result<
    (usize, Seq<u8>),
    Fault,
> {
    match catcher_fault(bytes, catcher, length) {
        Some(fault) => Err(fault),
        None => if bytes.len() < length + 4 {
            Err(cut_short(length))
        } else {
            Ok(
                (
                    be32_value(bytes.subrange(length as int, length as int + 4)) as usize,
                    bytes.skip(length as int + 4),
                ),
            )
        },
    }
}

/// The put message options, `MQPMO` version 1, and the data length that
/// follows them on the wire.
pub fn encode_put_options(resolved_queue: &str, data_length: usize) -> (out: Vec<u8>)
    ensures
        out@ == put_options_bytes(resolved_queue@, data_length as nat),
        out@.len() == MQPMO_LENGTH + 4,
{
    let mut out: Vec<u8> = Vec::with_capacity(MQPMO_LENGTH + 4);
    put_bytes(&mut out, &MQPMO_CATCHER);
    put32(&mut out, 1);
    put32(&mut out, 0x2000);
    put32(&mut out, 0);
    put32(&mut out, 0);
    put32(&mut out, 0);
    put32(&mut out, 0);
    put32(&mut out, 0);
    put_field(&mut out, resolved_queue, 48);
    put_field(&mut out, "", 48);
    put32(&mut out, declared_length(data_length));
    proof {
        assert(out@ =~= put_options_bytes(resolved_queue@, data_length as nat));
        put_options_read_back(resolved_queue@, data_length as nat, Seq::empty());
    }
    out
}

/// The get message options, `MQGMO` version 1, and the buffer length that
/// follows them on the wire.
pub fn encode_get_options(resolved_queue: &str, buffer_length: usize) -> (out: Vec<u8>)
    ensures
        out@ == get_options_bytes(resolved_queue@, buffer_length as nat),
        out@.len() == MQGMO_LENGTH + 4,
{
    let mut out: Vec<u8> = Vec::with_capacity(MQGMO_LENGTH + 4);
    put_bytes(&mut out, &MQGMO_CATCHER);
    put32(&mut out, 1);
    put32(&mut out, 0x2000);
    put32(&mut out, 0);
    put32(&mut out, 0);
    put32(&mut out, 0);
    put_field(&mut out, resolved_queue, 48);
    put32(&mut out, declared_length(buffer_length));
    proof {
        assert(out@ =~= get_options_bytes(resolved_queue@, buffer_length as nat));
        get_options_read_back(resolved_queue@, buffer_length as nat, Seq::empty());
    }
    out
}

/// Past the put or get options at the start of `bytes`: the length after
/// them, and what follows.
pub fn decode_options<'a>(bytes: &'a [u8], catcher: &[u8; 4], length: usize) -> (result: Result<
    (usize, &'a [u8]),
    TransportError,
>)
    requires
        length <= bytes@.len() ==> bytes@.len() >= 4,
    ensures
        outcome(result) == options_decoded(bytes@, catcher@, length as nat),
{
    match eyecatcher(bytes, catcher, length) {
        Ok(()) => {},
        Err(error) => {
            return Err(error);
        },
    }
    if bytes.len() - length < 4 {
        let mut message = "a structure cut short at byte ".to_string();
        message.append(decimal_text(length as u64).as_str());
        return Err(TransportError::permanent(message));
    }
    let said: u32 = be32(slice_subrange(bytes, length, length + 4));
    Ok((said as usize, slice_subrange(bytes, length + 4, bytes.len())))
}

/// Put options are 128 bytes; the data length after them, as far as the
/// field can say it, and what follows read back whatever queue they name.
pub proof fn put_options_read_back(resolved_queue: Seq<char>, data_length: nat, rest: Seq<u8>)
    ensures
        put_options_bytes(resolved_queue, data_length).len() == MQPMO_LENGTH + 4,
        options_decoded(
            put_options_bytes(resolved_queue, data_length) + rest,
            MQPMO_CATCHER@,
            MQPMO_LENGTH as nat,
        ) == Ok::<(usize, Seq<u8>), Fault>((declared(data_length) as usize, rest)),
{
    let bytes = put_options_bytes(resolved_queue, data_length) + rest;
    let none = Seq::<u8>::empty();
    field_keeps_width(resolved_queue, 48);
    field_keeps_width(""@, 48);
    be32_reads_back(declared(data_length), none);
    assert(bytes.subrange(0, 4) =~= MQPMO_CATCHER@);
    assert(bytes.subrange(MQPMO_LENGTH as int, MQPMO_LENGTH + 4) =~= be32_bytes(
        declared(data_length),
    ) + none);
    assert(bytes.skip(MQPMO_LENGTH + 4) =~= rest);
}

/// Get options are 72 bytes; the length after them, as far as the field can
/// say it, and what follows read back whatever queue they name.
pub proof fn get_options_read_back(resolved_queue: Seq<char>, buffer_length: nat, rest: Seq<u8>)
    ensures
        get_options_bytes(resolved_queue, buffer_length).len() == MQGMO_LENGTH + 4,
        options_decoded(
            get_options_bytes(resolved_queue, buffer_length) + rest,
            MQGMO_CATCHER@,
            MQGMO_LENGTH as nat,
        ) == Ok::<(usize, Seq<u8>), Fault>((declared(buffer_length) as usize, rest)),
{
    let bytes = get_options_bytes(resolved_queue, buffer_length) + rest;
    let none = Seq::<u8>::empty();
    field_keeps_width(resolved_queue, 48);
    be32_reads_back(declared(buffer_length), none);
    assert(bytes.subrange(0, 4) =~= MQGMO_CATCHER@);
    assert(bytes.subrange(MQGMO_LENGTH as int, MQGMO_LENGTH + 4) =~= be32_bytes(
        declared(buffer_length),
    ) + none);
    assert(bytes.skip(MQGMO_LENGTH + 4) =~= rest);
}

/// The bytes of an object descriptor that names `queue`.
pub open spec fn object_bytes(queue: Seq<char>) -> Seq<u8> {
    MQOD_CATCHER@ + be32_bytes(1) + be32_bytes(1) + field_of(queue, 48) + blank(48) + blank(48)
        + blank(12)
}

/// The queue that the object descriptor at the start of `bytes` names, and
/// what follows it; or the refusal of bytes that are not an `MQOD`, or of
/// an object that is not a queue.
pub open spec fn object_decoded(bytes: Seq<u8>) -> Result<(Seq<char>, Seq<u8>), Fault> {
    match catcher_fault(bytes, MQOD_CATCHER@, MQOD_LENGTH as nat) {
        Some(fault) => Err(fault),
        None => if be32_value(bytes.subrange(8, 12)) != 1 {
            Err(permanent("an object that is not a queue"@))
        } else {
            Ok((field_text(bytes.subrange(12, 60)), bytes.skip(MQOD_LENGTH as int)))
        },
    }
}

/// The object descriptor, `MQOD` version 1: a queue by name.
pub fn encode_object(queue: &str) -> (out: Vec<u8>)
    ensures
        out@ == object_bytes(queue@),
        out@.len() == MQOD_LENGTH,
{
    let mut out: Vec<u8> = Vec::with_capacity(MQOD_LENGTH);
    put_bytes(&mut out, &MQOD_CATCHER);
    put32(&mut out, 1);
    put32(&mut out, 1);
    put_field(&mut out, queue, 48);
    put_field(&mut out, "", 48);
    put_field(&mut out, "", 48);
    put_field(&mut out, "", 12);
    proof {
        assert(out@ =~= object_bytes(queue@));
        object_reads_back(queue@, Seq::empty());
    }
    out
}

/// The queue an object descriptor names, and what follows it.
pub fn decode_object(bytes: &[u8]) -> (result: Result<(String, &[u8]), TransportError>)
    ensures
        outcome(result) == object_decoded(bytes@),
{
    match eyecatcher(bytes, &MQOD_CATCHER, MQOD_LENGTH) {
        Ok(()) => {},
        Err(error) => {
            return Err(error);
        },
    }
    if be32(slice_subrange(bytes, 8, 12)) != 1 {
        return Err(protocol_error("an object that is not a queue"));
    }
    Ok((text_of(slice_subrange(bytes, 12, 60)), slice_subrange(bytes, MQOD_LENGTH, bytes.len())))
}

/// An object descriptor is 168 bytes and names the queue it was made for,
/// as its field carries the name — whole, where it fits.
pub proof fn object_reads_back(queue: Seq<char>, rest: Seq<u8>)
    ensures
        object_bytes(queue).len() == MQOD_LENGTH,
        object_decoded(object_bytes(queue) + rest) == Ok::<(Seq<char>, Seq<u8>), Fault>(
            (field_text(field_of(queue, 48)), rest),
        ),
        fits(queue, 48) ==> field_text(field_of(queue, 48)) == queue,
{
    let bytes = object_bytes(queue) + rest;
    let none = Seq::<u8>::empty();
    field_keeps_width(queue, 48);
    field_keeps_width(""@, 48);
    field_keeps_width(""@, 12);
    be32_reads_back(1, none);
    assert(bytes.subrange(0, 4) =~= MQOD_CATCHER@);
    assert(bytes.subrange(8, 12) =~= be32_bytes(1) + none);
    assert(bytes.subrange(12, 60) =~= field_of(queue, 48));
    assert(bytes.skip(MQOD_LENGTH as int) =~= rest);
    if fits(queue, 48) {
        field_reads_back(queue, 48);
    }
}

/// The initial data each side opens with: level, sizes, channel and
/// queue manager.
#[derive(Clone, Debug, PartialEq, Eq)]
pub struct InitialData {
    pub max_message: u32,
    pub channel: String,
    pub queue_manager: String,
}

/// What [`InitialData`] holds.
#[verifier::ext_equal]
pub struct InitialDataView {
    pub max_message: u32,
    pub channel: Seq<char>,
    pub queue_manager: Seq<char>,
}

impl View for InitialData {
    type V = InitialDataView;

    open spec fn view(&self) -> InitialDataView {
        InitialDataView {
            max_message: self.max_message,
            channel: self.channel@,
            queue_manager: self.queue_manager@,
        }
    }
}

impl InitialDataView {
    /// The initial data's bytes.
    pub open spec fn bytes(self) -> Seq<u8> {
        ID_CATCHER@ + seq![FAP_LEVEL] + nuls(4) + be16_bytes(50) + be32_bytes(
            MAX_TRANSMISSION as u32,
        ) + be32_bytes(self.max_message) + be32_bytes(999_999_999) + field_of(self.channel, 20)
            + nuls(2) + be16_bytes(CCSID) + field_of(self.queue_manager, 48) + seq![0u8]
    }

    /// What is left of the initial data once its texts have been through
    /// their fields.
    pub open spec fn carried(self) -> Self {
        InitialDataView {
            max_message: self.max_message,
            channel: field_text(field_of(self.channel, 20)),
            queue_manager: field_text(field_of(self.queue_manager, 48)),
        }
    }
}

/// The initial data in `bytes`, or the refusal of bytes that are none.
pub open spec fn initial_decoded(bytes: Seq<u8>) -> Result<InitialDataView, Fault> {
    match catcher_fault(bytes, ID_CATCHER@, ID_LENGTH as nat) {
        Some(fault) => Err(fault),
        None => Ok(
            InitialDataView {
                max_message: be32_value(bytes.subrange(15, 19)),
                channel: field_text(bytes.subrange(23, 43)),
                queue_manager: field_text(bytes.subrange(47, 95)),
            },
        ),
    }
}

/// Initial data is 96 bytes and reads back from them: the size as it was,
/// the names as their fields carry them — whole, where they fit — whatever
/// follows it.
pub proof fn initial_data_reads_back(data: InitialDataView, rest: Seq<u8>)
    ensures
        data.bytes().len() == ID_LENGTH,
        initial_decoded(data.bytes() + rest) == Ok::<InitialDataView, Fault>(data.carried()),
        fits(data.channel, 20) && fits(data.queue_manager, 48) ==> data.carried() == data,
{
    let bytes = data.bytes() + rest;
    let none = Seq::<u8>::empty();
    field_keeps_width(data.channel, 20);
    field_keeps_width(data.queue_manager, 48);
    be32_reads_back(data.max_message, none);
    assert(bytes.subrange(0, 4) =~= ID_CATCHER@);
    assert(bytes.subrange(15, 19) =~= be32_bytes(data.max_message) + none);
    assert(bytes.subrange(23, 43) =~= field_of(data.channel, 20));
    assert(bytes.subrange(47, 95) =~= field_of(data.queue_manager, 48));
    if fits(data.channel, 20) && fits(data.queue_manager, 48) {
        field_reads_back(data.channel, 20);
        field_reads_back(data.queue_manager, 48);
    }
}

impl InitialData {
    /// The initial data's 96 bytes.
    pub fn encode(&self) -> (out: Vec<u8>)
        ensures
            out@ == self@.bytes(),
            out@.len() == ID_LENGTH,
    {
        let mut out: Vec<u8> = Vec::with_capacity(ID_LENGTH);
        put_bytes(&mut out, &ID_CATCHER);
        out.push(FAP_LEVEL);
        put_nuls(&mut out, 4);
        put16(&mut out, 50);
        put32(&mut out, MAX_TRANSMISSION as u32);
        put32(&mut out, self.max_message);
        put32(&mut out, 999_999_999);
        put_field(&mut out, self.channel.as_str(), 20);
        put_nuls(&mut out, 2);
        put16(&mut out, CCSID);
        put_field(&mut out, self.queue_manager.as_str(), 48);
        out.push(0);
        proof {
            assert(out@ =~= self@.bytes());
            initial_data_reads_back(self@, Seq::empty());
        }
        out
    }

    /// The initial data in `bytes`.
    pub fn decode(bytes: &[u8]) -> (result: Result<Self, TransportError>)
        ensures
            outcome(result) == initial_decoded(bytes@),
    {
        match eyecatcher(bytes, &ID_CATCHER, ID_LENGTH) {
            Ok(()) => {},
            Err(error) => {
                return Err(error);
            },
        }
        Ok(
            InitialData {
                max_message: be32(slice_subrange(bytes, 15, 19)),
                channel: text_of(slice_subrange(bytes, 23, 43)),
                queue_manager: text_of(slice_subrange(bytes, 47, 95)),
            },
        )
    }
}

} // verus!
