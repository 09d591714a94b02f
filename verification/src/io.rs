//! What reading and writing Swifty artifacts decides: the UTF-8 BOM that readers
//! accept, and the repo image fields filled from the images' bytes.
//!
//! The JSON mapping itself and the file system belong to the program around the
//! library.

use vstd::prelude::*;
use crate::model::RepoSpec;
use crate::primitives::{hex_encode_upper, hex_upper_chars, sha1_compute, sha1_digest};
use crate::text::owned;

verus! {

/// Whether bytes start with the UTF-8 byte order mark `EF BB BF`.
pub open spec fn has_utf8_bom(bytes: Seq<u8>) -> bool {
    bytes.len() >= 3 && bytes[0] == 0xEF && bytes[1] == 0xBB && bytes[2] == 0xBF
}

/// The bytes without a leading UTF-8 byte order mark.
pub fn strip_utf8_bom(bytes: &[u8]) -> (r: &[u8])
    ensures
        r@ == (if has_utf8_bom(bytes@) {
            bytes@.skip(3)
        } else {
            bytes@
        }),
{
    if bytes.len() >= 3 && bytes[0] == 0xEF && bytes[1] == 0xBB && bytes[2] == 0xBF {
        let r = &bytes[3..bytes.len()];
        assert(r@ =~= bytes@.skip(3));
        r
    } else {
        bytes
    }
}

/// Uppercase hex SHA-1 of a file's bytes.
pub fn file_sha1_hex(bytes: &[u8]) -> (s: String)
    ensures
        s@ == hex_upper_chars(sha1_digest(bytes@)),
{
    let digest = sha1_compute(bytes);
    hex_encode_upper(digest.as_slice())
}

/// The image fields of `repo.json` for an image file that exists (`Some` of its
/// bytes) or not: its name and the uppercase hex SHA-1 of its bytes.
pub open spec fn image_fields(name: Seq<char>, bytes: Option<Seq<u8>>) -> (Option<Seq<char>>, Option<Seq<char>>) {
    match bytes {
        Some(b) => (Some(name), Some(hex_upper_chars(sha1_digest(b)))),
        None => (None, None),
    }
}

/// A string option as an option of its characters.
pub open spec fn opt_chars(s: Option<String>) -> Option<Seq<char>> {
    match s {
        Some(x) => Some(x@),
        None => None,
    }
}

/// A byte slice option as an option of its bytes.
pub open spec fn opt_bytes(b: Option<&[u8]>) -> Option<Seq<u8>> {
    match b {
        Some(x) => Some(x@),
        None => None,
    }
}

/// The image fields for one image.
fn image_entry(name: &str, bytes: Option<&[u8]>) -> (r: (Option<String>, Option<String>))
    ensures
        (opt_chars(r.0), opt_chars(r.1)) == image_fields(name@, opt_bytes(bytes)),
{
    match bytes {
        Some(b) => (Some(owned(name)), Some(file_sha1_hex(b))),
        None => (None, None),
    }
}

/// Sets `icon.png` and `repo.png` with their SHA-1 checksums when the images
/// exist (their bytes are given), and clears the fields of those that do not.
pub fn apply_repo_images(repo: &mut RepoSpec, icon_png: Option<&[u8]>, repo_png: Option<&[u8]>)
    ensures
        (opt_chars(final(repo).icon_image_path), opt_chars(final(repo).icon_image_checksum)) == image_fields(
            "icon.png"@,
            opt_bytes(icon_png),
        ),
        (opt_chars(final(repo).repo_image_path), opt_chars(final(repo).repo_image_checksum)) == image_fields(
            "repo.png"@,
            opt_bytes(repo_png),
        ),
        final(repo).repo_name == old(repo).repo_name,
        final(repo).checksum == old(repo).checksum,
        final(repo).required_mods == old(repo).required_mods,
        final(repo).optional_mods == old(repo).optional_mods,
        final(repo).required_dlcs == old(repo).required_dlcs,
        final(repo).client_parameters == old(repo).client_parameters,
        final(repo).repo_basic_authentication == old(repo).repo_basic_authentication,
        final(repo).version == old(repo).version,
        final(repo).servers == old(repo).servers,
{
    let (icon_path, icon_sum) = image_entry("icon.png", icon_png);
    let (repo_path, repo_sum) = image_entry("repo.png", repo_png);
    repo.icon_image_path = icon_path;
    repo.icon_image_checksum = icon_sum;
    repo.repo_image_path = repo_path;
    repo.repo_image_checksum = repo_sum;
}


// ---------------------------------------------------------------------------
// Server ports written as text
// ---------------------------------------------------------------------------

/// Why text is not a `u16`, in the terms of `u16::from_str`.
#[derive(Debug, Clone, Copy, PartialEq, Eq, Structural)]
pub enum U16TextError {
    /// The text is empty.
    Empty,
    /// A character is not a decimal digit (or a lone sign).
    InvalidDigit,
    /// The number is above 65535.
    PosOverflow,
}

/// Reads decimal digits from position `i` onto `acc`, left to right: a non-digit
/// fails before the value grows past 65535.
pub open spec fn u16_digits_spec(d: Seq<char>, i: int, acc: int) -> Result<u16, U16TextError>
    decreases d.len() - i,
{
    if i >= d.len() {
        Ok(acc as u16)
    } else if !('0' <= d[i] <= '9') {
        Err(U16TextError::InvalidDigit)
    } else if acc * 10 + (d[i] as int - 48) > 65535 {
        Err(U16TextError::PosOverflow)
    } else {
        u16_digits_spec(d, i + 1, acc * 10 + (d[i] as int - 48))
    }
}

/// What `u16::from_str` makes of a text: an optional `+` and decimal digits.
pub open spec fn u16_text_spec(s: Seq<char>) -> Result<u16, U16TextError> {
    if s.len() == 0 {
        Err(U16TextError::Empty)
    } else if (s[0] == '+' || s[0] == '-') && s.len() == 1 {
        Err(U16TextError::InvalidDigit)
    } else if s[0] == '+' {
        u16_digits_spec(s, 1, 0)
    } else {
        u16_digits_spec(s, 0, 0)
    }
}

/// Parses a server port given as text in `repo.json`, as `u16::from_str` does.
pub fn parse_u16_text(s: &str) -> (r: Result<u16, U16TextError>)
    ensures
        r == u16_text_spec(s@),
{
    let cs = crate::text::chars_of(s);
    if cs.len() == 0 {
        return Err(U16TextError::Empty);
    }
    if (cs[0] == '+' || cs[0] == '-') && cs.len() == 1 {
        return Err(U16TextError::InvalidDigit);
    }
    let mut i: usize = if cs[0] == '+' { 1 } else { 0 };
    let mut acc: u32 = 0;
    while i < cs.len()
        invariant
            i <= cs@.len(),
            cs@ == s@,
            acc <= 65535,
            u16_text_spec(s@) == u16_digits_spec(s@, i as int, acc as int),
        decreases cs@.len() - i,
    {
        let c = cs[i];
        if !('0' <= c && c <= '9') {
            return Err(U16TextError::InvalidDigit);
        }
        let digit = (c as u32) - 48;
        if acc * 10 + digit > 65535 {
            return Err(U16TextError::PosOverflow);
        }
        acc = acc * 10 + digit;
        i = i + 1;
    }
    Ok(acc as u16)
}

/// The text `u16::from_str` gives for each failure.
pub fn u16_text_error_message(e: U16TextError) -> (m: String)
    ensures
        m@ == match e {
            U16TextError::Empty => "cannot parse integer from empty string"@,
            U16TextError::InvalidDigit => "invalid digit found in string"@,
            U16TextError::PosOverflow => "number too large to fit in target type"@,
        },
{
    match e {
        U16TextError::Empty => owned("cannot parse integer from empty string"),
        U16TextError::InvalidDigit => owned("invalid digit found in string"),
        U16TextError::PosOverflow => owned("number too large to fit in target type"),
    }
}

} // verus!
