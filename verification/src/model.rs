//! Wire models for Swifty artifacts (`repo.json` and `mod.srf`) and the MD5 digest type.
//!
//! `repo.json` uses camelCase keys and `mod.srf` PascalCase keys; the JSON mapping
//! itself lives with the program around the library, which owns the serde derives.

use vstd::prelude::*;
use crate::primitives::{hex_decode_16, hex_decode_chars, hex_encode_upper, hex_upper_chars, is_hex_char, upper_hex_digit, hex_char_value};

verus! {

/// Error for text that is not a 32-digit hex MD5 digest.
#[derive(Debug, Clone)]
pub enum DigestError {
    InvalidHex(String),
}

/// MD5 digest held as raw bytes and rendered as uppercase hex.
#[derive(Clone, Copy, Debug, PartialEq, Eq, Hash)]
pub struct Md5Digest {
    inner: [u8; 16],
}

impl View for Md5Digest {
    type V = Seq<u8>;

    closed spec fn view(&self) -> Seq<u8> {
        self.inner@
    }
}

/// Every digest holds exactly 16 bytes.
pub broadcast proof fn lemma_md5_digest_len(d: Md5Digest)
    ensures
        #[trigger] d@.len() == 16,
{
}

impl Md5Digest {
    pub fn from_bytes(inner: [u8; 16]) -> (d: Self)
        ensures
            d@ == inner@,
    {
        Self { inner }
    }

    pub fn as_bytes(&self) -> (b: &[u8; 16])
        ensures
            b@ == self@,
    {
        &self.inner
    }

    /// Uppercase hex encoding (Swifty format).
    pub fn to_hex_upper(&self) -> (s: String)
        ensures
            s@ == hex_upper_chars(self@),
            s@.len() == 32,
    {
        hex_encode_upper(self.inner.as_slice())
    }

    /// Parses 32 hex digits (either case) into a digest.
    pub fn parse_hex(s: &str) -> (r: Result<Self, DigestError>)
        ensures
            r is Ok <==> is_hex_digest_text(s@),
            r matches Ok(d) ==> d@ == hex_decode_chars(s@),
            r matches Err(DigestError::InvalidHex(m)) ==> m@ == s@,
    {
        match hex_decode_16(s) {
            Ok(buf) => Ok(Self { inner: buf }),
            Err(_) => Err(DigestError::InvalidHex(s.to_owned())),
        }
    }

    /// Byte-wise equality of two digests.
    pub fn same_as(&self, other: &Self) -> (b: bool)
        ensures
            b <==> self@ == other@,
    {
        let mut i: usize = 0;
        while i < 16
            invariant
                0 <= i <= 16,
                forall|j: int| 0 <= j < i ==> self.inner@[j] == other.inner@[j],
            decreases 16 - i,
        {
            if self.inner[i] != other.inner[i] {
                return false;
            }
            i = i + 1;
        }
        assert(self.inner@ =~= other.inner@);
        true
    }
}

impl Default for Md5Digest {
    /// The all-zero digest.
    fn default() -> (d: Self)
        ensures
            d@ == Seq::new(16, |i: int| 0u8),
    {
        let d = Self { inner: [0u8; 16] };
        assert(d@ =~= Seq::new(16, |i: int| 0u8));
        d
    }
}

/// Text that `Md5Digest::parse_hex` accepts: exactly 32 hex digits.
pub open spec fn is_hex_digest_text(s: Seq<char>) -> bool {
    s.len() == 32 && forall|i: int| 0 <= i < 32 ==> is_hex_char(#[trigger] s[i])
}

/// Decoding the uppercase hex text of a byte sequence gives the bytes back.
pub proof fn lemma_hex_roundtrip(data: Seq<u8>)
    ensures
        hex_decode_chars(hex_upper_chars(data)) == data,
        forall|i: int| 0 <= i < 2 * data.len() ==> is_hex_char(#[trigger] hex_upper_chars(data)[i]),
{
    let h = hex_upper_chars(data);
    assert forall|i: int| 0 <= i < 2 * data.len() implies is_hex_char(#[trigger] h[i]) by {
        let b = data[i / 2] as int;
        assert(0 <= b / 16 < 16 && 0 <= b % 16 < 16);
    }
    assert forall|k: int| 0 <= k < data.len() implies #[trigger] hex_decode_chars(h)[k] == data[k] by {
        let b = data[k] as int;
        assert((2 * k) / 2 == k && (2 * k + 1) / 2 == k);
        assert((2 * k) % 2 == 0 && (2 * k + 1) % 2 == 1);
        assert(hex_char_value(upper_hex_digit(b / 16)) == b / 16);
        assert(hex_char_value(upper_hex_digit(b % 16)) == b % 16);
        assert((b / 16) * 16 + b % 16 == b);
    }
    assert(hex_decode_chars(h) =~= data);
}

/// A digest printed as uppercase hex parses back to the same digest.
pub proof fn law_digest_hex_roundtrip(d: Md5Digest)
    ensures
        is_hex_digest_text(hex_upper_chars(d@)),
        hex_decode_chars(hex_upper_chars(d@)) == d@,
{
    lemma_md5_digest_len(d);
    lemma_hex_roundtrip(d@);
}


// ----------------------------
// repo.json
// ----------------------------

/// The `repo.json` document.
#[derive(Debug, Clone)]
pub struct RepoSpec {
    pub repo_name: String,
    pub checksum: String,
    pub required_mods: Vec<RepoMod>,
    pub optional_mods: Vec<RepoMod>,
    pub icon_image_path: Option<String>,
    pub icon_image_checksum: Option<String>,
    pub repo_image_path: Option<String>,
    pub repo_image_checksum: Option<String>,
    pub required_dlcs: Vec<String>,
    pub client_parameters: String,
    pub repo_basic_authentication: Option<RepoBasicAuth>,
    pub version: String,
    pub servers: Vec<RepoServer>,
}

/// One mod entry of `repo.json`.
#[derive(Debug, Clone)]
pub struct RepoMod {
    pub mod_name: String,
    pub checksum: Md5Digest,
    pub enabled: bool,
}

/// Basic authentication block of `repo.json`.
#[derive(Debug, Clone)]
pub struct RepoBasicAuth {
    pub username: String,
    pub password: String,
}

/// One server entry of `repo.json`.
#[derive(Debug, Clone)]
pub struct RepoServer {
    pub name: String,
    pub address: String,
    pub port: u16,
    pub password: String,
    pub battle_eye: bool,
}

// ----------------------------
// mod.srf
// ----------------------------

/// The `mod.srf` document of one mod.
#[derive(Debug, Clone)]
pub struct SrfMod {
    pub name: String,
    pub checksum: Md5Digest,
    pub files: Vec<SrfFile>,
}

/// One file of a mod: its path, length, Swifty checksum, kind and parts.
#[derive(Debug, Clone)]
pub struct SrfFile {
    pub path: String,
    pub length: u64,
    pub checksum: Md5Digest,
    /// The `Type` key of `mod.srf`.
    pub file_type: Option<String>,
    pub parts: Vec<SrfPart>,
}

/// One part (byte range) of a file with the MD5 of its bytes.
#[derive(Debug, Clone)]
pub struct SrfPart {
    pub path: String,
    pub length: u64,
    pub start: u64,
    pub checksum: Md5Digest,
}

/// What a part says, as mathematical values.
pub struct PartView {
    pub path: Seq<char>,
    pub start: u64,
    pub length: u64,
    pub checksum: Seq<u8>,
}

impl View for SrfPart {
    type V = PartView;

    open spec fn view(&self) -> PartView {
        PartView { path: self.path@, start: self.start, length: self.length, checksum: self.checksum@ }
    }
}

/// The views of a sequence of parts.
pub open spec fn parts_view(parts: Seq<SrfPart>) -> Seq<PartView> {
    parts.map_values(|p: SrfPart| p@)
}


/// What a file entry says, as mathematical values.
pub struct FileView {
    pub path: Seq<char>,
    pub length: u64,
    pub checksum: Seq<u8>,
    pub file_type: Option<Seq<char>>,
    pub parts: Seq<PartView>,
}

impl View for SrfFile {
    type V = FileView;

    open spec fn view(&self) -> FileView {
        FileView {
            path: self.path@,
            length: self.length,
            checksum: self.checksum@,
            file_type: match self.file_type {
                Some(t) => Some(t@),
                None => None,
            },
            parts: parts_view(self.parts@),
        }
    }
}

/// The views of a sequence of files.
pub open spec fn files_view(files: Seq<SrfFile>) -> Seq<FileView> {
    files.map_values(|f: SrfFile| f@)
}

/// A copy of a part.
pub fn copy_part(p: &SrfPart) -> (c: SrfPart)
    ensures
        c@ == p@,
{
    SrfPart { path: p.path.clone(), length: p.length, start: p.start, checksum: p.checksum }
}

/// A copy of an optional string.
pub fn copy_opt_string(s: &Option<String>) -> (c: Option<String>)
    ensures
        match s {
            Some(x) => c matches Some(y) && y@ == x@,
            None => c is None,
        },
{
    match s {
        Some(x) => Some(x.clone()),
        None => None,
    }
}

/// A copy of a file entry.
pub fn copy_file(f: &SrfFile) -> (c: SrfFile)
    ensures
        c@ == f@,
{
    let mut parts: Vec<SrfPart> = Vec::new();
    let mut i: usize = 0;
    while i < f.parts.len()
        invariant
            0 <= i <= f.parts@.len(),
            parts_view(parts@) == parts_view(f.parts@).take(i as int),
        decreases f.parts@.len() - i,
    {
        let ghost before = parts@;
        parts.push(copy_part(&f.parts[i]));
        assert(parts_view(parts@) =~= parts_view(before).push(f.parts@[i as int]@));
        assert(parts_view(f.parts@).take(i + 1) =~= parts_view(f.parts@).take(i as int).push(f.parts@[i as int]@));
        i = i + 1;
    }
    assert(parts_view(f.parts@).take(f.parts@.len() as int) =~= parts_view(f.parts@));
    SrfFile {
        path: f.path.clone(),
        length: f.length,
        checksum: f.checksum,
        file_type: copy_opt_string(&f.file_type),
        parts,
    }
}


/// What a `repo.json` mod entry says, as mathematical values.
pub struct RepoModView {
    pub mod_name: Seq<char>,
    pub checksum: Seq<u8>,
    pub enabled: bool,
}

impl View for RepoMod {
    type V = RepoModView;

    open spec fn view(&self) -> RepoModView {
        RepoModView { mod_name: self.mod_name@, checksum: self.checksum@, enabled: self.enabled }
    }
}

/// The views of a sequence of mod entries.
pub open spec fn repo_mods_view(ms: Seq<RepoMod>) -> Seq<RepoModView> {
    ms.map_values(|m: RepoMod| m@)
}

} // verus!
