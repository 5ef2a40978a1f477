//! Fixed fields, numbers and failures.

use vstd::prelude::*;
use vstd::utf8::{decode_utf8, encode_utf8, valid_utf8};

use crate::arrived::Arrived;
use crate::error::{outcome, permanent, protocol_error, Fault, TransportError};
use crate::text::{
    decimal, field_of, field_reads_back, field_text, fits, fixed, hex, hex_byte, hex_of, is_padding,
    lossy, text_of, trimmed,
};

verus! {

/// A fixed field holds the text's bytes from its start, and spaces from
/// where they end.
pub proof fn a_field_is_the_text_and_then_spaces(text: Seq<char>, width: nat)
    ensures
        field_of(text, width).len() == width,
        forall|i: int|
            0 <= i < width && i < encode_utf8(text).len() ==> #[trigger] field_of(text, width)[i]
                == encode_utf8(text)[i],
        forall|i: int|
            encode_utf8(text).len() <= i < width ==> #[trigger] field_of(text, width)[i] == 0x20,
{
}

/// `fixed` gives as many bytes as it is asked for: the text's own, and
/// spaces after them.
pub proof fn fixed_pads_or_cuts(text: &str, width: usize, field: Vec<u8>)
    requires
        call_ensures(fixed, (text, width), field),
    ensures
        field@.len() == width,
        forall|i: int|
            0 <= i < width ==> #[trigger] field@[i] == (if i < encode_utf8(text@).len() {
                encode_utf8(text@)[i]
            } else {
                0x20
            }),
{
    a_field_is_the_text_and_then_spaces(text@, width as nat);
}

proof fn lemma_trimmed(text: Seq<char>)
    ensures
        trimmed(text).len() <= text.len(),
        trimmed(text) == text.take(trimmed(text).len() as int),
        forall|i: int|
            trimmed(text).len() <= i < text.len() ==> #[trigger] text[i] == ' ' || text[i] == '\0',
        trimmed(text).len() > 0 ==> trimmed(text).last() != ' ' && trimmed(text).last() != '\0',
    decreases text.len(),
{
    if text.len() > 0 && is_padding(text.last()) {
        lemma_trimmed(text.drop_last());
        let kept = trimmed(text);
        assert(text.drop_last().take(kept.len() as int) =~= text.take(kept.len() as int));
        assert forall|i: int| kept.len() <= i < text.len() implies #[trigger] text[i] == ' '
            || text[i] == '\0' by {
            if i < text.len() - 1 {
                assert(text.drop_last()[i] == text[i]);
            }
        }
    } else {
        assert(text.take(text.len() as int) =~= text);
    }
}

/// What bytes decode to: their text where they are UTF-8.
pub open spec fn decoded(bytes: Seq<u8>) -> Seq<char> {
    if valid_utf8(bytes) {
        decode_utf8(bytes)
    } else {
        lossy(bytes)
    }
}

/// The text of a field is what its bytes decode to, cut only at its end, and
/// there of spaces (U+0020) and NULs (U+0000) alone, until none is left.
pub proof fn a_field_loses_only_spaces_and_nuls_at_its_end(field: Seq<u8>)
    ensures
        ({
            let whole = decoded(field);
            let text = field_text(field);
            &&& text.len() <= whole.len()
            &&& forall|i: int| 0 <= i < text.len() ==> #[trigger] text[i] == whole[i]
            &&& forall|i: int|
                text.len() <= i < whole.len() ==> #[trigger] whole[i] == ' ' || whole[i] == '\0'
            &&& text.len() > 0 ==> text.last() != ' ' && text.last() != '\0'
        }),
{
    lemma_trimmed(decoded(field));
}

/// `text_of` gives a field's text without the spaces and NULs at its end,
/// and with everything else.
pub proof fn text_of_trims_spaces_and_nuls_alone(field: &[u8], text: String)
    requires
        call_ensures(text_of, (field,), text),
    ensures
        ({
            let whole = decoded(field@);
            &&& text@.len() <= whole.len()
            &&& forall|i: int| 0 <= i < text@.len() ==> #[trigger] text@[i] == whole[i]
            &&& forall|i: int|
                text@.len() <= i < whole.len() ==> #[trigger] whole[i] == ' ' || whole[i] == '\0'
            &&& text@.len() > 0 ==> text@.last() != ' ' && text@.last() != '\0'
        }),
{
    a_field_loses_only_spaces_and_nuls_at_its_end(field@);
    assert(text@ == field_text(field@));
}

/// A name fits a field where its bytes are no more than the field's and its
/// last character is neither a space nor a NUL; no other is excepted.
pub proof fn a_name_that_fits(name: Seq<char>, width: nat)
    ensures
        fits(name, width) <==> encode_utf8(name).len() <= width && (name.len() > 0 ==> name.last()
            != ' ' && name.last() != '\0'),
{
}

/// A name whose bytes are no more than its field's, and whose last character
/// is neither a space (U+0020) nor a NUL (U+0000), reads back whole.
pub proof fn a_name_reads_back_whole(name: Seq<char>, width: nat)
    requires
        encode_utf8(name).len() <= width,
        name.len() > 0 ==> name.last() != ' ' && name.last() != '\0',
    ensures
        field_text(field_of(name, width)) == name,
{
    field_reads_back(name, width);
}

/// What `fixed` writes of such a name, `text_of` reads as that name.
pub proof fn text_of_undoes_fixed(
    name: &str,
    width: usize,
    field: Vec<u8>,
    read: &[u8],
    text: String,
)
    requires
        call_ensures(fixed, (name, width), field),
        read@ == field@,
        call_ensures(text_of, (read,), text),
        encode_utf8(name@).len() <= width,
        name@.len() > 0 ==> name@.last() != ' ' && name@.last() != '\0',
    ensures
        text@ == name@,
{
    field_reads_back(name@, width as nat);
}

/// A number's decimal digits: below ten its one digit, else the digits of a
/// tenth of it and then the last.
pub proof fn decimal_digits_spell_the_number(n: nat)
    ensures
        n < 10 ==> decimal(n).len() == 1 && decimal(n)[0] as int == 0x30 + n,
        n >= 10 ==> decimal(n).len() > 1 && decimal(n).drop_last() == decimal(n / 10)
            && decimal(n).last() as int == 0x30 + n % 10,
    decreases n,
{
    reveal_strlit("0123456789abcdef");
    if n >= 10 {
        decimal_digits_spell_the_number(n / 10);
        assert(decimal(n).drop_last() =~= decimal(n / 10));
    }
}

/// Whether `c` is the lower-case hexadecimal digit of `n`.
pub open spec fn is_digit_of(c: char, n: u8) -> bool {
    c as int == (if n < 10 {
        0x30 + n
    } else {
        0x61 + n - 10
    })
}

/// A byte is two hexadecimal digits, the higher first.
pub proof fn a_byte_is_two_digits(byte: u8)
    ensures
        hex_byte(byte).len() == 2,
        is_digit_of(hex_byte(byte)[0], byte / 16),
        is_digit_of(hex_byte(byte)[1], byte % 16),
{
    reveal_strlit("0123456789abcdef");
}

/// Bytes in hexadecimal are two digits to a byte, in the bytes' order.
pub proof fn bytes_are_two_digits_each(bytes: Seq<u8>)
    ensures
        hex_of(bytes).len() == 2 * bytes.len(),
        forall|i: int|
            0 <= i < bytes.len() ==> is_digit_of(hex_of(bytes)[2 * i], #[trigger] bytes[i] / 16)
                && is_digit_of(hex_of(bytes)[2 * i + 1], bytes[i] % 16),
    decreases bytes.len(),
{
    if bytes.len() > 0 {
        let fewer = bytes.drop_last();
        bytes_are_two_digits_each(fewer);
        a_byte_is_two_digits(bytes.last());
        assert forall|i: int| 0 <= i < bytes.len() implies is_digit_of(
            hex_of(bytes)[2 * i],
            #[trigger] bytes[i] / 16,
        ) && is_digit_of(hex_of(bytes)[2 * i + 1], bytes[i] % 16) by {
            if i < fewer.len() {
                assert(fewer[i] == bytes[i]);
            }
        }
    }
}

/// `hex` writes every byte as its two digits.
pub proof fn hex_writes_every_byte(bytes: &[u8], text: String)
    requires
        call_ensures(hex, (bytes,), text),
    ensures
        text@.len() == 2 * bytes@.len(),
        forall|i: int|
            0 <= i < bytes@.len() ==> is_digit_of(text@[2 * i], #[trigger] bytes@[i] / 16)
                && is_digit_of(text@[2 * i + 1], bytes@[i] % 16),
{
    bytes_are_two_digits_each(bytes@);
}

/// Different bytes, of one length, are different in hexadecimal.
pub proof fn hexadecimal_tells_bytes_apart(one: Seq<u8>, other: Seq<u8>)
    requires
        one.len() == other.len(),
        one != other,
    ensures
        hex_of(one) != hex_of(other),
{
    bytes_are_two_digits_each(one);
    bytes_are_two_digits_each(other);
    if hex_of(one) == hex_of(other) {
        assert forall|i: int| 0 <= i < one.len() implies one[i] == other[i] by {
            let high = hex_of(one)[2 * i];
            let low = hex_of(one)[2 * i + 1];
            assert(is_digit_of(high, one[i] / 16) && is_digit_of(high, other[i] / 16));
            assert(is_digit_of(low, one[i] % 16) && is_digit_of(low, other[i] % 16));
        }
        assert(one =~= other);
    }
}

/// A permanent failure says what it was told, and trying again does not mend
/// it.
pub proof fn a_permanent_failure_is_not_retryable(message: Seq<char>)
    ensures
        permanent(message).message == message,
        !permanent(message).retryable,
{
}

/// As [`a_permanent_failure_is_not_retryable`], of the failures themselves.
pub proof fn failures_say_what_they_were_told(
    message: String,
    told: TransportError,
    words: &str,
    broken: TransportError,
)
    requires
        call_ensures(TransportError::permanent, (message,), told),
        call_ensures(protocol_error, (words,), broken),
    ensures
        told.message@ == message@,
        !told.retryable,
        broken.message@ == words@,
        !broken.retryable,
{
}

/// An outcome is a success with its value, or a failure with its message and
/// whether it may clear.
pub proof fn an_outcome_keeps_both_sides<T: View>(result: Result<T, TransportError>)
    ensures
        match result {
            Ok(value) => outcome(result) == Ok::<T::V, Fault>(value@),
            Err(error) => outcome(result) == Err::<T::V, Fault>(
                Fault { message: error.message@, retryable: error.retryable },
            ),
        },
{
}

/// A Stream is its origin and its bytes.
pub proof fn a_stream_is_its_origin_and_bytes(origin_uri: String, bytes: Vec<u8>, arrived: Arrived)
    requires
        call_ensures(Arrived::new, (origin_uri, bytes), arrived),
    ensures
        arrived.origin_uri@ == origin_uri@,
        arrived.bytes@ == bytes@,
        arrived@.origin_uri == arrived.origin_uri@,
        arrived@.bytes == arrived.bytes@,
{
}

} // verus!
