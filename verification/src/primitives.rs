//! Contracts for the outside hashing and hex routines the library relies on,
//! and for the few std string operations that vstd does not specify.

use vstd::prelude::*;
use vstd::utf8::{decode_utf8, valid_utf8};

verus! {

// ---------------------------------------------------------------------------
// std: String::push
// ---------------------------------------------------------------------------

/// `String::push` appends one character to the end of the string.
pub assume_specification[ String::push ](s: &mut String, ch: char)
    ensures
        final(s)@ == old(s)@.push(ch),
;

/// The text `String::from_utf8_lossy` makes of a byte sequence (invalid UTF-8
/// sequences become U+FFFD).
pub uninterp spec fn utf8_lossy_chars(bytes: Seq<u8>) -> Seq<char>;

/// Calls `String::from_utf8_lossy` and takes ownership of the result. Valid UTF-8
/// comes back as the text it encodes.
#[verifier::external_body]
pub(crate) fn utf8_lossy(bytes: &[u8]) -> (s: String)
    ensures
        s@ == utf8_lossy_chars(bytes@),
        valid_utf8(bytes@) ==> s@ == decode_utf8(bytes@),
{
    String::from_utf8_lossy(bytes).into_owned()
}

// ---------------------------------------------------------------------------
// md5
// ---------------------------------------------------------------------------

/// `md5::Context`, the incremental MD5 hasher of the `md5` crate.
#[verifier::external_type_specification]
#[verifier::external_body]
pub struct ExMd5Context(md5::Context);

/// The MD5 digest (16 bytes) of a byte sequence, as `md5::compute` returns it.
pub uninterp spec fn md5_digest(data: Seq<u8>) -> Seq<u8>;

/// Calls `md5::Context::new`. Nothing is promised of the context's value.
#[verifier::external_body]
fn md5_context_new() -> md5::Context {
    md5::Context::new()
}

/// Calls `md5::Context::consume`. Nothing is promised of the context's value.
#[verifier::external_body]
fn md5_context_consume(ctx: &mut md5::Context, data: &[u8]) {
    ctx.consume(data);
}

/// An incremental MD5 hasher: an `md5::Context` with the bytes it has been fed.
///
/// The fields are private to this module, and only `new` and `consume` change the
/// context, each together with `fed`; so `fed` is always exactly what the
/// context has consumed since it was made.
pub struct Md5Hasher {
    ctx: md5::Context,
    fed: Ghost<Seq<u8>>,
}

impl Md5Hasher {
    /// The bytes fed so far.
    pub closed spec fn fed(&self) -> Seq<u8> {
        self.fed@
    }

    /// A hasher that has been fed nothing.
    pub fn new() -> (h: Self)
        ensures
            h.fed() == Seq::<u8>::empty(),
    {
        Md5Hasher { ctx: md5_context_new(), fed: Ghost(Seq::empty()) }
    }

    /// Feeds bytes.
    pub fn consume(&mut self, data: &[u8])
        ensures
            final(self).fed() == old(self).fed() + data@,
    {
        md5_context_consume(&mut self.ctx, data);
        self.fed = Ghost(self.fed@ + data@);
    }

    /// Calls `md5::Context::finalize`: the MD5 digest of everything the context
    /// consumed, which is `fed` (`md5::compute` runs the same `new`, `consume`,
    /// `finalize`).
    #[verifier::external_body]
    pub fn finalize(self) -> (digest: [u8; 16])
        ensures
            digest@ == md5_digest(self.fed()),
    {
        self.ctx.finalize().0
    }
}

/// Calls `md5::compute`.
#[verifier::external_body]
pub(crate) fn md5_compute(data: &[u8]) -> (digest: [u8; 16])
    ensures
        digest@ == md5_digest(data@),
{
    md5::compute(data).0
}


// ---------------------------------------------------------------------------
// sha1
// ---------------------------------------------------------------------------

/// The SHA-1 digest (20 bytes) of a byte sequence, as `sha1::Sha1::digest` returns it.
pub uninterp spec fn sha1_digest(data: Seq<u8>) -> Seq<u8>;

/// Calls `<sha1::Sha1 as sha1::Digest>::digest` and converts the result to an array.
#[verifier::external_body]
pub(crate) fn sha1_compute(data: &[u8]) -> (digest: [u8; 20])
    ensures
        digest@ == sha1_digest(data@),
{
    <sha1::Sha1 as sha1::Digest>::digest(data).into()
}

// ---------------------------------------------------------------------------
// hex
// ---------------------------------------------------------------------------

/// The uppercase hex digit for a value below 16.
pub open spec fn upper_hex_digit(n: int) -> char {
    if n < 10 {
        (n + 48) as char
    } else {
        (n + 55) as char
    }
}

/// Uppercase hex text of a byte sequence: two digits per byte, high nibble first.
pub open spec fn hex_upper_chars(data: Seq<u8>) -> Seq<char> {
    Seq::new(
        2 * data.len(),
        |i: int|
            if i % 2 == 0 {
                upper_hex_digit(data[i / 2] as int / 16)
            } else {
                upper_hex_digit(data[i / 2] as int % 16)
            },
    )
}

/// A hex digit in either case.
pub open spec fn is_hex_char(c: char) -> bool {
    ('0' <= c && c <= '9') || ('a' <= c && c <= 'f') || ('A' <= c && c <= 'F')
}

/// The value of a hex digit.
pub open spec fn hex_char_value(c: char) -> int {
    if '0' <= c && c <= '9' {
        c as int - 48
    } else if 'a' <= c && c <= 'f' {
        c as int - 87
    } else {
        c as int - 55
    }
}

/// The bytes a string of hex digits stands for, two digits per byte.
pub open spec fn hex_decode_chars(s: Seq<char>) -> Seq<u8> {
    Seq::new(
        s.len() / 2,
        |i: int| (hex_char_value(s[2 * i]) * 16 + hex_char_value(s[2 * i + 1])) as u8,
    )
}

/// `hex::FromHexError`, the error `hex::decode_to_slice` reports.
#[verifier::external_type_specification]
#[verifier::external_body]
pub struct ExFromHexError(hex::FromHexError);

/// Calls `hex::encode_upper`: two uppercase hex digits per byte, in order.
#[verifier::external_body]
pub(crate) fn hex_encode_upper(data: &[u8]) -> (s: String)
    ensures
        s@ == hex_upper_chars(data@),
{
    hex::encode_upper(data)
}

/// Calls `hex::decode_to_slice` into a 16-byte buffer. It succeeds exactly when the
/// text is 32 hex digits (either case), and then yields the bytes they stand for.
#[verifier::external_body]
pub(crate) fn hex_decode_16(s: &str) -> (r: Result<[u8; 16], hex::FromHexError>)
    ensures
        r is Ok <==> (s@.len() == 32 && forall|i: int| 0 <= i < 32 ==> is_hex_char(#[trigger] s@[i])),
        r matches Ok(b) ==> b@ == hex_decode_chars(s@),
{
    let mut buf = [0u8; 16];
    match hex::decode_to_slice(s, &mut buf) {
        Ok(()) => Ok(buf),
        Err(e) => Err(e),
    }
}

} // verus!
