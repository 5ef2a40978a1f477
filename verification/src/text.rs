//! Text on the wire and in messages: fixed fields, decimal and hexadecimal
//! numbers, quoted strings.

use vstd::prelude::*;
use vstd::utf8::{
    decode_utf8, encode_utf8, encode_utf8_decode_utf8, encode_utf8_valid_utf8, is_ascii_chars,
    is_ascii_chars_encode_utf8, valid_utf8,
};

verus! {

/// What `String::from_utf8_lossy` makes of bytes that are not UTF-8.
pub uninterp spec fn lossy(bytes: Seq<u8>) -> Seq<char>;

/// What `{:?}` makes of a string: its quoted, escaped form.
pub uninterp spec fn debug_text(text: Seq<char>) -> Seq<char>;

/// The text of `bytes`: decoded where they are UTF-8, and as `lossy` reads
/// them where they are not.
pub open spec fn text_in(bytes: Seq<u8>) -> Seq<char> {
    if valid_utf8(bytes) {
        decode_utf8(bytes)
    } else {
        lossy(bytes)
    }
}

/// Calls `String::from_utf8_lossy`: bytes that are UTF-8 decode to their
/// text. What replaces invalid bytes is left to the name `lossy`.
#[verifier::external_body]
fn from_utf8_lossy(bytes: &[u8]) -> (text: String)
    ensures
        text@ == (if valid_utf8(bytes@) {
            decode_utf8(bytes@)
        } else {
            lossy(bytes@)
        }),
{
    String::from_utf8_lossy(bytes).into_owned()
}

/// Calls `format!` with `{:?}` on a string: the quoted, escaped form of
/// `text` under the name `debug_text`.
#[verifier::external_body]
fn debug(text: &str) -> (quoted: String)
    ensures
        quoted@ == debug_text(text@),
{
    format!("{:?}", text)
}

/// The text of `bytes`, quoted for a message.
pub(crate) fn quoted_bytes(bytes: &[u8]) -> (quoted: String)
    ensures
        quoted@ == debug_text(text_in(bytes@)),
{
    let text = from_utf8_lossy(bytes);
    debug(text.as_str())
}

/// `text`, quoted for a message.
pub(crate) fn quoted(text: &str) -> (quoted: String)
    ensures
        quoted@ == debug_text(text@),
{
    debug(text)
}

/// Three texts, one after the other.
pub(crate) fn joined(first: &str, second: &str, third: &str) -> (text: String)
    ensures
        text@ == first@ + second@ + third@,
{
    let mut text = first.to_string();
    text.append(second);
    text.append(third);
    text
}

/// What pads a fixed field: a space or a NUL.
pub open spec fn is_padding(c: char) -> bool {
    c == ' ' || c == '\0'
}

/// `text` without the padding at its end.
pub open spec fn trimmed(text: Seq<char>) -> Seq<char>
    decreases text.len(),
{
    if text.len() > 0 && is_padding(text.last()) {
        trimmed(text.drop_last())
    } else {
        text
    }
}

/// `bytes` in a field `width` wide, space-padded or cut.
pub open spec fn padded(bytes: Seq<u8>, width: nat) -> Seq<u8> {
    if bytes.len() >= width {
        bytes.take(width as int)
    } else {
        bytes + Seq::new((width - bytes.len()) as nat, |i: int| 0x20u8)
    }
}

/// `text` in a fixed field `width` wide.
pub open spec fn field_of(text: Seq<char>, width: nat) -> Seq<u8> {
    padded(encode_utf8(text), width)
}

/// The text a fixed field holds.
pub open spec fn field_text(field: Seq<u8>) -> Seq<char> {
    trimmed(text_in(field))
}

/// Whether `text` comes back whole from a field `width` wide: it fits, and
/// none of it looks like padding.
pub open spec fn fits(text: Seq<char>, width: nat) -> bool {
    &&& encode_utf8(text).len() <= width
    &&& (text.len() > 0 ==> !is_padding(text.last()))
}

/// `text` in a field `width` wide, space-padded or cut.
pub fn fixed(text: &str, width: usize) -> (field: Vec<u8>)
    ensures
        field@ == field_of(text@, width as nat),
        field@.len() == width,
{
    let mut out = vstd::slice::slice_to_vec(text.as_bytes());
    out.resize(width, 0x20);
    assert(out@ =~= field_of(text@, width as nat));
    out
}

proof fn lemma_trimmed_take(text: Seq<char>, keep: int)
    requires
        0 <= keep <= text.len(),
        keep > 0 ==> !is_padding(text[keep - 1]),
        forall|i: int| keep <= i < text.len() ==> is_padding(#[trigger] text[i]),
    ensures
        trimmed(text) == text.take(keep),
    decreases text.len(),
{
    if keep < text.len() {
        assert(is_padding(text[text.len() - 1]));
        lemma_trimmed_take(text.drop_last(), keep);
        assert(text.drop_last().take(keep) =~= text.take(keep));
    } else {
        assert(text.take(keep) =~= text);
    }
}

/// The text of a fixed field, without the spaces and NULs at its end.
pub fn text_of(field: &[u8]) -> (text: String)
    ensures
        text@ == field_text(field@),
{
    let text = from_utf8_lossy(field);
    let mut keep: usize = 0;
    let mut at: usize = 0;
    let total: usize = text.as_str().unicode_len();
    for c in it: text.as_str().chars()
        invariant
            it.seq() == text@,
            total == text@.len(),
            at == it.index(),
            keep <= at,
            keep > 0 ==> !is_padding(text@[keep - 1]),
            forall|i: int| keep <= i < at ==> is_padding(#[trigger] text@[i]),
    {
        at = at + 1;
        if !(c == ' ' || c == '\0') {
            keep = at;
        }
    }
    proof {
        lemma_trimmed_take(text@, keep as int);
    }
    text.as_str().substring_char(0, keep).to_string()
}

/// The digit that stands for `n`, decimal or hexadecimal.
pub open spec fn digit(n: int) -> char {
    "0123456789abcdef"@[n]
}

/// `n` in decimal.
pub open spec fn decimal(n: nat) -> Seq<char>
    decreases n,
{
    if n < 10 {
        seq![digit(n as int)]
    } else {
        decimal(n / 10).push(digit((n % 10) as int))
    }
}

/// One byte as two hexadecimal digits.
pub open spec fn hex_byte(byte: u8) -> Seq<char> {
    seq![digit(byte as int / 16), digit(byte as int % 16)]
}

/// `bytes` in hexadecimal, two digits to a byte.
pub open spec fn hex_of(bytes: Seq<u8>) -> Seq<char>
    decreases bytes.len(),
{
    if bytes.len() == 0 {
        seq![]
    } else {
        hex_of(bytes.drop_last()) + hex_byte(bytes.last())
    }
}

fn digit_text(n: u8) -> (text: &'static str)
    requires
        n < 16,
    ensures
        text@ == seq![digit(n as int)],
{
    proof {
        reveal_strlit("0123456789abcdef");
    }
    let at: usize = n as usize;
    "0123456789abcdef".substring_char(at, at + 1)
}

/// `n` in decimal.
pub(crate) fn decimal_text(n: u64) -> (text: String)
    ensures
        text@ == decimal(n as nat),
    decreases n,
{
    let low: u8 = (n % 10) as u8;
    if n < 10 {
        digit_text(low).to_string()
    } else {
        let mut text = decimal_text(n / 10);
        text.append(digit_text(low));
        assert(text@ =~= decimal(n as nat));
        text
    }
}

/// `bytes` in hexadecimal, two lower-case digits to a byte.
pub fn hex(bytes: &[u8]) -> (text: String)
    ensures
        text@ == hex_of(bytes@),
{
    let mut text = String::new();
    let mut at: usize = 0;
    assert(bytes@.take(0) =~= Seq::<u8>::empty());
    while at < bytes.len()
        invariant
            at <= bytes@.len(),
            text@ == hex_of(bytes@.take(at as int)),
        decreases bytes@.len() - at,
    {
        text.append(hex_byte_text(bytes[at]).as_str());
        proof {
            let more = bytes@.take(at + 1);
            assert(more.drop_last() =~= bytes@.take(at as int));
            assert(text@ =~= hex_of(more));
        }
        at = at + 1;
    }
    assert(bytes@.take(at as int) =~= bytes@);
    text
}

/// One byte as two lower-case hexadecimal digits.
pub(crate) fn hex_byte_text(byte: u8) -> (text: String)
    ensures
        text@ == hex_byte(byte),
{
    let mut text = digit_text(byte / 16).to_string();
    text.append(digit_text(byte % 16));
    assert(text@ =~= hex_byte(byte));
    text
}

proof fn lemma_encode_append(chars: Seq<char>, more: Seq<char>)
    ensures
        encode_utf8(chars + more) == encode_utf8(chars) + encode_utf8(more),
    decreases chars.len(),
{
    if chars.len() == 0 {
        assert(chars + more =~= more);
        assert(encode_utf8(chars) + encode_utf8(more) =~= encode_utf8(more));
    } else {
        lemma_encode_append(chars.drop_first(), more);
        assert((chars + more).drop_first() =~= chars.drop_first() + more);
        assert(encode_utf8(chars + more) =~= encode_utf8(chars) + encode_utf8(more));
    }
}

proof fn lemma_encode_spaces(n: nat)
    ensures
        encode_utf8(Seq::new(n, |i: int| ' ')) == Seq::new(n, |i: int| 0x20u8),
{
    let spaces = Seq::new(n, |i: int| ' ');
    assert(is_ascii_chars(spaces));
    is_ascii_chars_encode_utf8(spaces);
    assert(encode_utf8(spaces) =~= Seq::new(n, |i: int| 0x20u8));
}

/// A text that fits its fixed field, and does not end in what looks like
/// padding, is read back from it whole.
pub proof fn field_reads_back(text: Seq<char>, width: nat)
    requires
        fits(text, width),
    ensures
        field_text(field_of(text, width)) == text,
{
    let n = (width - encode_utf8(text).len()) as nat;
    let spaces = Seq::new(n, |i: int| ' ');
    let whole = text + spaces;
    lemma_encode_append(text, spaces);
    lemma_encode_spaces(n);
    assert(field_of(text, width) =~= encode_utf8(whole));
    encode_utf8_valid_utf8(whole);
    encode_utf8_decode_utf8(whole);
    lemma_trimmed_take(whole, text.len() as int);
    assert(whole.take(text.len() as int) =~= text);
}

/// A fixed field is exactly as wide as it is declared, whatever the text.
pub proof fn field_keeps_width(text: Seq<char>, width: nat)
    ensures
        field_of(text, width).len() == width,
{
}

} // verus!
