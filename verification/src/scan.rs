//! Swifty file metadata for one file of a mod: raw chunking or PBO parts, with the
//! part checksums the configured signature mode asks for.
//!
//! The program reads the file and the `SWIFTY_*` settings; everything it decides
//! from them is here.

use vstd::prelude::*;
use vstd::utf8::{encode_utf8, is_ascii_chars};
use vstd::string::StringSliceAdditionalSpecFns;
use crate::checksum::{
    RAW_PART_SIZE, SwiftyError, SwiftyErrorView, file_md5_from_parts, law_raw_layout_covers_file, file_md5_spec, hex_text_bytes,
    is_raw_layout, lemma_raw_count_exact, lemma_raw_count_partial, part_digests, part_md5_zeroes,
    parts_hash_bytes, raw_part_count, raw_part_len, raw_part_name, raw_part_name_chars, salted_md5_hex,
    swifty_file_info_from_bytes,
};
use crate::model::{Md5Digest, PartView, SrfFile, SrfPart, parts_view};
use crate::builder::{file_check_error, lemma_srf_path_keeps_ascii};
use crate::path::{
    after_last, ensure_ascii_path, file_name_of, file_type_chars, file_type_for, has_pbo_extension, is_pbo_path,
    last_index, lemma_last_index, non_ascii_message, normalize_srf_path, path_file_name, srf_path_chars,
};
use crate::pbo::{
    PlanView, parts_follow_plan, parts_hash_zeroes, pbo_parts_spec, swifty_pbo_parts_from_bytes,
    swifty_pbo_parts_zero_md5_from_reader, decoded_meta, lemma_meta_header_len, lemma_partition_covers,
    lemma_plan_parts_cover, spec_meta,
};
use crate::primitives::{Md5Hasher, md5_digest};
use crate::text::{chars_of, decimal_chars, decimal_string, owned, str_eq, string_from_chars};

verus! {

// ---------------------------------------------------------------------------
// Settings
// ---------------------------------------------------------------------------

/// How part checksums are made.
#[derive(Clone, Copy, Debug, PartialEq, Eq, Structural)]
pub enum SignatureMode {
    /// MD5 of the part's bytes.
    Real,
    /// MD5 of as many zero bytes as the part is long.
    ZeroMd5,
    /// MD5 of the salt followed by the uppercase hex MD5 of the part's bytes.
    SaltedMd5,
    /// MD5 of `{salt}{rel_path}:{start}:{length}`.
    PathMd5,
}

/// How `.pbo` files are scanned.
#[derive(Clone, Copy, Debug, PartialEq, Eq, Structural)]
pub enum PboMode {
    /// PBO parts when the header parses, raw chunks otherwise.
    Auto,
    /// Always raw chunks.
    Raw,
}

/// Everything a scan depends on besides the file itself.
pub struct ScanSettings {
    pub signature: SignatureMode,
    /// The salt of the salted and positional modes (empty when unset).
    pub salt: String,
    pub pbo: PboMode,
}

/// The signature mode a value of `SWIFTY_SIGNATURE_MODE` selects.
pub open spec fn signature_mode_of(value: Option<Seq<char>>) -> SignatureMode {
    match value {
        Some(v) => if v == "zero-md5"@ {
            SignatureMode::ZeroMd5
        } else if v == "salted-md5"@ {
            SignatureMode::SaltedMd5
        } else if v == "path-md5"@ {
            SignatureMode::PathMd5
        } else {
            SignatureMode::Real
        },
        None => SignatureMode::Real,
    }
}

/// Reads `SWIFTY_SIGNATURE_MODE`: `zero-md5`, `salted-md5`, `path-md5`; anything
/// else, or no value, is `Real`.
pub fn signature_mode(value: Option<&str>) -> (m: SignatureMode)
    ensures
        m == signature_mode_of(
            match value {
                Some(v) => Some(v@),
                None => None,
            },
        ),
{
    match value {
        Some(v) => {
            if str_eq(v, "zero-md5") {
                SignatureMode::ZeroMd5
            } else if str_eq(v, "salted-md5") {
                SignatureMode::SaltedMd5
            } else if str_eq(v, "path-md5") {
                SignatureMode::PathMd5
            } else {
                SignatureMode::Real
            }
        },
        None => SignatureMode::Real,
    }
}

/// Reads `SWIFTY_SIGNATURE_SALT`: an empty value counts as unset.
pub fn signature_salt(value: Option<String>) -> (r: Option<String>)
    ensures
        match value {
            Some(v) => if v@.len() == 0 {
                r is None
            } else {
                r matches Some(x) && x@ == v@
            },
            None => r is None,
        },
{
    match value {
        Some(v) => {
            if v.as_str().is_empty() {
                None
            } else {
                Some(v)
            }
        },
        None => None,
    }
}

/// Reads `SWIFTY_PBO_MODE`: `raw`, or `Auto` for anything else.
pub fn pbo_mode(value: Option<&str>) -> (m: PboMode)
    ensures
        m == (match value {
            Some(v) => if v@ == "raw"@ {
                PboMode::Raw
            } else {
                PboMode::Auto
            },
            None => PboMode::Auto,
        }),
{
    match value {
        Some(v) => {
            if str_eq(v, "raw") {
                PboMode::Raw
            } else {
                PboMode::Auto
            }
        },
        None => PboMode::Auto,
    }
}

// ---------------------------------------------------------------------------
// Part checksums
// ---------------------------------------------------------------------------

/// The bytes the positional mode hashes: `{salt}{rel_path}:{start}:{length}`.
pub open spec fn positional_input(salt: Seq<char>, rel: Seq<char>, start: nat, len: nat) -> Seq<u8> {
    encode_utf8(salt) + encode_utf8(rel) + seq![58u8] + encode_utf8(decimal_chars(start)) + seq![58u8]
        + encode_utf8(decimal_chars(len))
}

/// The salted checksum of a digest: MD5 of the salt and the digest's uppercase hex.
pub open spec fn salted_digest(salt: Seq<char>, d: Seq<u8>) -> Seq<u8> {
    md5_digest(encode_utf8(salt) + hex_text_bytes(d))
}

/// The bytes of a part of `contents`.
pub open spec fn part_bytes(contents: Seq<u8>, p: PartView) -> Seq<u8> {
    contents.subrange(p.start as int, p.start + p.length)
}

/// The checksum a signature mode gives a part of `contents`.
pub open spec fn mode_part_digest(
    mode: SignatureMode,
    salt: Seq<char>,
    rel: Seq<char>,
    contents: Seq<u8>,
    p: PartView,
) -> Seq<u8> {
    match mode {
        SignatureMode::Real => md5_digest(part_bytes(contents, p)),
        SignatureMode::ZeroMd5 => md5_digest(Seq::new(p.length as nat, |i: int| 0u8)),
        SignatureMode::SaltedMd5 => salted_digest(salt, md5_digest(part_bytes(contents, p))),
        SignatureMode::PathMd5 => md5_digest(positional_input(salt, rel, p.start as nat, p.length as nat)),
    }
}

/// Every part carries the checksum the signature mode gives it.
pub open spec fn parts_follow_mode(
    parts: Seq<PartView>,
    mode: SignatureMode,
    salt: Seq<char>,
    rel: Seq<char>,
    contents: Seq<u8>,
) -> bool {
    forall|k: int|
        0 <= k < parts.len() ==> (#[trigger] parts[k]).checksum == mode_part_digest(
            mode,
            salt,
            rel,
            contents,
            parts[k],
        )
}

/// Positional checksum: MD5 of `{salt}{rel_path}:{start}:{len}`.
pub fn positional_md5(salt: &str, rel_path: &str, start: u64, len: u64) -> (d: Md5Digest)
    ensures
        d@ == md5_digest(positional_input(salt@, rel_path@, start as nat, len as nat)),
{
    let colon: [u8; 1] = [58u8];
    let start_text = decimal_string(start);
    let len_text = decimal_string(len);
    let mut ctx = Md5Hasher::new();
    ctx.consume(salt.as_bytes());
    ctx.consume(rel_path.as_bytes());
    ctx.consume(colon.as_slice());
    ctx.consume(start_text.as_str().as_bytes());
    ctx.consume(colon.as_slice());
    ctx.consume(len_text.as_str().as_bytes());
    assert(colon@ =~= seq![58u8]);
    assert(ctx.fed() =~= positional_input(salt@, rel_path@, start as nat, len as nat));
    Md5Digest::from_bytes(ctx.finalize())
}

/// Raw parts of a file of `total_len` bytes, whose checksums need only each part's
/// place: the positional checksum when `positional`, else the MD5 of zero bytes.
fn raw_parts_by_length(total_len: u64, file_name: &str, salt: &str, rel_path: &str, positional: bool) -> (out: Vec<
    SrfPart,
>)
    ensures
        is_raw_layout(parts_view(out@), file_name@, total_len as int),
        forall|k: int|
            0 <= k < out@.len() ==> (#[trigger] out@[k]).checksum@ == (if positional {
                md5_digest(positional_input(salt@, rel_path@, out@[k].start as nat, out@[k].length as nat))
            } else {
                md5_digest(Seq::new(out@[k].length as nat, |i: int| 0u8))
            }),
{
    let total = total_len;
    let mut parts: Vec<SrfPart> = Vec::new();
    let mut offset: u64 = 0;
    while offset < total
        invariant
            offset <= total,
            offset == parts@.len() * RAW_PART_SIZE || (offset == total && parts@.len() == raw_part_count(
                total as int,
            )),
            offset < total ==> offset == parts@.len() * RAW_PART_SIZE,
            forall|k: int|
                0 <= k < parts@.len() ==> {
                    &&& (#[trigger] parts@[k]).start == k * RAW_PART_SIZE
                    &&& parts@[k].length == raw_part_len(total as int, k)
                    &&& parts@[k].path@ == raw_part_name_chars(
                        file_name@,
                        (k * RAW_PART_SIZE + raw_part_len(total as int, k)) as nat,
                    )
                    &&& parts@[k].checksum@ == (if positional {
                        md5_digest(
                            positional_input(salt@, rel_path@, parts@[k].start as nat, parts@[k].length as nat),
                        )
                    } else {
                        md5_digest(Seq::new(parts@[k].length as nat, |i: int| 0u8))
                    })
                },
        decreases total - offset,
    {
        let len: u64 = if total - offset < RAW_PART_SIZE { total - offset } else { RAW_PART_SIZE };
        let end = offset + len;
        let digest = if positional {
            positional_md5(salt, rel_path, offset, len)
        } else {
            part_md5_zeroes(len)
        };
        let name = raw_part_name(file_name, end);
        parts.push(SrfPart { path: name, start: offset, length: len, checksum: digest });
        proof {
            if end < total {
                assert(len == RAW_PART_SIZE);
            } else if len == RAW_PART_SIZE {
                lemma_raw_count_exact(parts@.len() as int);
            } else {
                lemma_raw_count_partial(parts@.len() as int, total as int);
            }
        }
        offset = end;
    }
    proof {
        if total == 0 {
            assert(raw_part_count(0) == 0);
        }
    }
    parts
}

// ---------------------------------------------------------------------------
// Scan results
// ---------------------------------------------------------------------------

/// The name raw part names start with: the path's file name, or `file`.
pub open spec fn scan_file_name(rel: Seq<char>) -> Seq<char> {
    match file_name_of(rel) {
        Some(n) => n,
        None => "file"@,
    }
}

/// A scanned file's own fields: its `mod.srf` path, length, type and the Swifty
/// checksum of its parts.
pub open spec fn is_scanned_file(f: SrfFile, rel: Seq<char>, total: int) -> bool {
    &&& f.path@ == srf_path_chars(rel)
    &&& f.length == total
    &&& f.file_type matches Some(t) && t@ == file_type_chars(rel)
    &&& f.checksum@ == file_md5_spec(part_digests(f.parts@))
}

/// The result of scanning a file in raw chunks.
pub open spec fn is_raw_scan(
    r: Result<SrfFile, SwiftyError>,
    rel: Seq<char>,
    total: int,
    mode: SignatureMode,
    salt: Seq<char>,
    contents: Seq<u8>,
) -> bool {
    let name = scan_file_name(rel);
    if is_ascii_chars(name) {
        &&& r matches Ok(f)
        &&& is_scanned_file(f, rel, total)
        &&& is_raw_layout(parts_view(f.parts@), name, total)
        &&& parts_follow_mode(parts_view(f.parts@), mode, salt, rel, contents)
    } else {
        r matches Err(e) && e@ == SwiftyErrorView::NonAsciiPath(non_ascii_message("file_name"@, name))
    }
}

/// The file name raw part names start with.
fn raw_file_name(rel_path: &str) -> (n: String)
    ensures
        n@ == scan_file_name(rel_path@),
{
    match path_file_name(rel_path) {
        Some(n) => n,
        None => owned("file"),
    }
}

/// The `SrfFile` of a scanned file with the given parts.
fn scanned_file(rel_path: &str, total_len: u64, parts: Vec<SrfPart>) -> (f: SrfFile)
    ensures
        is_scanned_file(f, rel_path@, total_len as int),
        f.parts@ == parts@,
{
    let checksum = file_md5_from_parts(parts.as_slice());
    SrfFile {
        path: normalize_srf_path(rel_path),
        length: total_len,
        checksum,
        file_type: Some(file_type_for(rel_path)),
        parts,
    }
}

/// Raw chunking of a file of `total_len` bytes with zero-MD5 part checksums.
pub fn scan_raw_len_zero(total_len: u64, rel_path: &str) -> (r: Result<SrfFile, SwiftyError>)
    ensures
        is_raw_scan(r, rel_path@, total_len as int, SignatureMode::ZeroMd5, Seq::empty(), Seq::empty()),
{
    let file_name = raw_file_name(rel_path);
    match ensure_ascii_path("file_name", file_name.as_str()) {
        Ok(()) => {},
        Err(e) => {
            return Err(e);
        },
    }
    let parts = raw_parts_by_length(total_len, file_name.as_str(), "", rel_path, false);
    let f = scanned_file(rel_path, total_len, parts);
    assert(parts_follow_mode(parts_view(f.parts@), SignatureMode::ZeroMd5, Seq::empty(), rel_path@, Seq::empty()))
        by {
        assert forall|k: int| 0 <= k < parts_view(f.parts@).len() implies (#[trigger] parts_view(f.parts@)[k]).checksum
            == mode_part_digest(SignatureMode::ZeroMd5, Seq::empty(), rel_path@, Seq::empty(), parts_view(f.parts@)[k])
            by {
            assert(parts_view(f.parts@)[k] == f.parts@[k]@);
        }
    }
    Ok(f)
}

/// Raw chunking of a file of `total_len` bytes with positional part checksums.
pub fn scan_raw_len_positional(total_len: u64, rel_path: &str, salt: &str) -> (r: Result<SrfFile, SwiftyError>)
    ensures
        is_raw_scan(r, rel_path@, total_len as int, SignatureMode::PathMd5, salt@, Seq::empty()),
{
    let file_name = raw_file_name(rel_path);
    match ensure_ascii_path("file_name", file_name.as_str()) {
        Ok(()) => {},
        Err(e) => {
            return Err(e);
        },
    }
    let parts = raw_parts_by_length(total_len, file_name.as_str(), salt, rel_path, true);
    let f = scanned_file(rel_path, total_len, parts);
    assert(parts_follow_mode(parts_view(f.parts@), SignatureMode::PathMd5, salt@, rel_path@, Seq::empty())) by {
        assert forall|k: int| 0 <= k < parts_view(f.parts@).len() implies (#[trigger] parts_view(f.parts@)[k]).checksum
            == mode_part_digest(SignatureMode::PathMd5, salt@, rel_path@, Seq::empty(), parts_view(f.parts@)[k]) by {
            assert(parts_view(f.parts@)[k] == f.parts@[k]@);
        }
    }
    Ok(f)
}


/// Parts in the same places: same names, starts and lengths.
pub open spec fn same_places(a: Seq<PartView>, b: Seq<PartView>) -> bool {
    &&& a.len() == b.len()
    &&& forall|k: int|
        0 <= k < a.len() ==> {
            &&& (#[trigger] a[k]).path == b[k].path
            &&& a[k].start == b[k].start
            &&& a[k].length == b[k].length
        }
}

/// The parts with each checksum replaced by its salted checksum.
fn salt_parts(parts: &[SrfPart], salt: &str) -> (out: Vec<SrfPart>)
    ensures
        same_places(parts_view(out@), parts_view(parts@)),
        forall|k: int|
            0 <= k < out@.len() ==> (#[trigger] out@[k]).checksum@ == salted_digest(salt@, parts@[k].checksum@),
{
    let mut out: Vec<SrfPart> = Vec::new();
    let mut k: usize = 0;
    while k < parts.len()
        invariant
            0 <= k <= parts@.len(),
            out@.len() == k,
            forall|j: int|
                0 <= j < k ==> {
                    &&& (#[trigger] out@[j]).path@ == parts@[j].path@
                    &&& out@[j].start == parts@[j].start
                    &&& out@[j].length == parts@[j].length
                    &&& out@[j].checksum@ == salted_digest(salt@, parts@[j].checksum@)
                },
        decreases parts@.len() - k,
    {
        let p = &parts[k];
        let hex = p.checksum.to_hex_upper();
        let digest = salted_md5_hex(salt, hex.as_str());
        out.push(SrfPart { path: p.path.clone(), start: p.start, length: p.length, checksum: digest });
        k = k + 1;
    }
    proof {
        assert forall|k: int| 0 <= k < out@.len() implies (#[trigger] parts_view(out@)[k]).path == parts_view(
            parts@,
        )[k].path && parts_view(out@)[k].start == parts_view(parts@)[k].start && parts_view(out@)[k].length
            == parts_view(parts@)[k].length by {
            assert(out@[k].path@ == parts@[k].path@);
        }
    }
    out
}

/// The parts with each checksum replaced by its positional checksum.
fn positional_parts(parts: &[SrfPart], salt: &str, rel_path: &str) -> (out: Vec<SrfPart>)
    ensures
        same_places(parts_view(out@), parts_view(parts@)),
        forall|k: int|
            0 <= k < out@.len() ==> (#[trigger] out@[k]).checksum@ == md5_digest(
                positional_input(salt@, rel_path@, out@[k].start as nat, out@[k].length as nat),
            ),
{
    let mut out: Vec<SrfPart> = Vec::new();
    let mut k: usize = 0;
    while k < parts.len()
        invariant
            0 <= k <= parts@.len(),
            out@.len() == k,
            forall|j: int|
                0 <= j < k ==> {
                    &&& (#[trigger] out@[j]).path@ == parts@[j].path@
                    &&& out@[j].start == parts@[j].start
                    &&& out@[j].length == parts@[j].length
                    &&& out@[j].checksum@ == md5_digest(
                        positional_input(salt@, rel_path@, out@[j].start as nat, out@[j].length as nat),
                    )
                },
        decreases parts@.len() - k,
    {
        let p = &parts[k];
        let digest = positional_md5(salt, rel_path, p.start, p.length);
        out.push(SrfPart { path: p.path.clone(), start: p.start, length: p.length, checksum: digest });
        k = k + 1;
    }
    proof {
        assert forall|k: int| 0 <= k < out@.len() implies (#[trigger] parts_view(out@)[k]).path == parts_view(
            parts@,
        )[k].path && parts_view(out@)[k].start == parts_view(parts@)[k].start && parts_view(out@)[k].length
            == parts_view(parts@)[k].length by {
            assert(out@[k].path@ == parts@[k].path@);
        }
    }
    out
}

/// Raw layouts and planned layouts depend only on where parts are.
pub proof fn lemma_same_places_keep_layout(a: Seq<PartView>, b: Seq<PartView>, name: Seq<char>, total: int)
    requires
        same_places(a, b),
    ensures
        is_raw_layout(b, name, total) ==> is_raw_layout(a, name, total),
        forall|plan| #[trigger] parts_follow_plan(b, plan) ==> parts_follow_plan(a, plan),
{
}

/// Zero checksums depend on nothing but lengths, positional ones not on the bytes.
pub proof fn lemma_mode_inputs(
    parts: Seq<PartView>,
    mode: SignatureMode,
    salt1: Seq<char>,
    salt2: Seq<char>,
    rel: Seq<char>,
    c1: Seq<u8>,
    c2: Seq<u8>,
)
    requires
        mode == SignatureMode::ZeroMd5 || (mode == SignatureMode::PathMd5 && salt1 == salt2),
    ensures
        parts_follow_mode(parts, mode, salt1, rel, c1) == parts_follow_mode(parts, mode, salt2, rel, c2),
{
    assert forall|k: int| 0 <= k < parts.len() implies mode_part_digest(mode, salt1, rel, c1, parts[k])
        == mode_part_digest(mode, salt2, rel, c2, parts[k]) by {}
}

/// The mode a raw scan of the bytes uses: salted when asked, the plain MD5 otherwise.
pub open spec fn reader_mode(mode: SignatureMode) -> SignatureMode {
    if mode == SignatureMode::SaltedMd5 {
        SignatureMode::SaltedMd5
    } else {
        SignatureMode::Real
    }
}

/// Raw chunking of a file's bytes with MD5 part checksums, salted in the salted mode.
pub fn scan_raw_reader(contents: &[u8], rel_path: &str, settings: &ScanSettings) -> (r: Result<SrfFile, SwiftyError>)
    ensures
        is_raw_scan(
            r,
            rel_path@,
            contents@.len() as int,
            reader_mode(settings.signature),
            settings.salt@,
            contents@,
        ),
{
    let salted = match settings.signature {
        SignatureMode::SaltedMd5 => true,
        _ => false,
    };
    let file_name = raw_file_name(rel_path);
    match ensure_ascii_path("file_name", file_name.as_str()) {
        Ok(()) => {},
        Err(e) => {
            return Err(e);
        },
    }
    let (_, plain) = swifty_file_info_from_bytes(file_name.as_str(), contents);
    let ghost pv = parts_view(plain@);
    let parts = if salted {
        salt_parts(plain.as_slice(), settings.salt.as_str())
    } else {
        plain
    };
    let total = contents.len() as u64;
    let f = scanned_file(rel_path, total, parts);
    proof {
        let fv = parts_view(f.parts@);
        let mode = reader_mode(settings.signature);
        lemma_same_places_keep_layout(fv, pv, file_name@, total as int);
        assert forall|k: int| 0 <= k < fv.len() implies (#[trigger] fv[k]).checksum == mode_part_digest(
            mode,
            settings.salt@,
            rel_path@,
            contents@,
            fv[k],
        ) by {
            assert(fv[k] == f.parts@[k]@);
            assert(pv[k].checksum == md5_digest(part_bytes(contents@, pv[k])));
        }
    }
    Ok(f)
}

/// The result of scanning a `.pbo`: its PBO parts, or raw chunks when the header
/// is not a valid PBO header.
pub open spec fn is_pbo_scan(
    r: Result<SrfFile, SwiftyError>,
    rel: Seq<char>,
    contents: Seq<u8>,
    mode: SignatureMode,
    salt: Seq<char>,
) -> bool {
    let total = contents.len() as int;
    match pbo_parts_spec(rel, contents, total) {
        Ok(plan) => {
            &&& r matches Ok(f)
            &&& is_scanned_file(f, rel, total)
            &&& parts_follow_plan(parts_view(f.parts@), plan)
            &&& parts_follow_mode(parts_view(f.parts@), mode, salt, rel, contents)
        },
        Err(SwiftyErrorView::InvalidPbo { .. }) => is_raw_scan(
            r,
            rel,
            total,
            if mode == SignatureMode::ZeroMd5 || mode == SignatureMode::PathMd5 {
                mode
            } else {
                reader_mode(mode)
            },
            salt,
            contents,
        ),
        Err(e) => r matches Err(x) && x@ == e,
    }
}

/// Scans the bytes of a `.pbo`: PBO parts with the mode's checksums; a header that
/// is not a valid PBO header falls back to raw chunking.
pub fn scan_pbo_reader(contents: &[u8], rel_path: &str, settings: &ScanSettings) -> (r: Result<SrfFile, SwiftyError>)
    ensures
        is_pbo_scan(r, rel_path@, contents@, settings.signature, settings.salt@),
{
    let total = contents.len() as u64;
    let mode = settings.signature;
    let salt = settings.salt.as_str();
    let parts = match mode {
        SignatureMode::ZeroMd5 => {
            match swifty_pbo_parts_zero_md5_from_reader(rel_path, contents, total) {
                Ok(parts) => {
                    proof {
                        let pv = parts_view(parts@);
                        assert forall|k: int| 0 <= k < pv.len() implies (#[trigger] pv[k]).checksum
                            == mode_part_digest(mode, settings.salt@, rel_path@, contents@, pv[k]) by {}
                    }
                    parts
                },
                Err(SwiftyError::InvalidPbo { file, reason }) => {
                    let r = scan_raw_len_zero(total, rel_path);
                    proof {
                        if r is Ok {
                            lemma_mode_inputs(
                                parts_view(r->Ok_0.parts@),
                                mode,
                                Seq::empty(),
                                settings.salt@,
                                rel_path@,
                                Seq::empty(),
                                contents@,
                            );
                        }
                    }
                    return r;
                },
                Err(e) => {
                    return Err(e);
                },
            }
        },
        SignatureMode::PathMd5 => {
            match swifty_pbo_parts_zero_md5_from_reader(rel_path, contents, total) {
                Ok(zeroed) => {
                    let parts = positional_parts(zeroed.as_slice(), salt, rel_path);
                    proof {
                        let pv = parts_view(parts@);
                        assert(forall|plan| #[trigger]
                            parts_follow_plan(parts_view(zeroed@), plan) ==> parts_follow_plan(pv, plan)) by {
                            lemma_same_places_keep_layout(pv, parts_view(zeroed@), Seq::empty(), 0);
                        }
                        assert forall|k: int| 0 <= k < pv.len() implies (#[trigger] pv[k]).checksum
                            == mode_part_digest(mode, settings.salt@, rel_path@, contents@, pv[k]) by {
                            assert(pv[k] == parts@[k]@);
                        }
                    }
                    parts
                },
                Err(SwiftyError::InvalidPbo { file, reason }) => {
                    let r = scan_raw_len_positional(total, rel_path, salt);
                    proof {
                        if r is Ok {
                            lemma_mode_inputs(
                                parts_view(r->Ok_0.parts@),
                                mode,
                                settings.salt@,
                                settings.salt@,
                                rel_path@,
                                Seq::empty(),
                                contents@,
                            );
                        }
                    }
                    return r;
                },
                Err(e) => {
                    return Err(e);
                },
            }
        },
        _ => {
            match swifty_pbo_parts_from_bytes(rel_path, contents) {
                Ok(plain) => {
                    let salted = match mode {
                        SignatureMode::SaltedMd5 => true,
                        _ => false,
                    };
                    let ghost pv0 = parts_view(plain@);
                    let parts = if salted {
                        salt_parts(plain.as_slice(), salt)
                    } else {
                        plain
                    };
                    proof {
                        let pv = parts_view(parts@);
                        assert(forall|plan| #[trigger] parts_follow_plan(pv0, plan) ==> parts_follow_plan(pv, plan))
                            by {
                            lemma_same_places_keep_layout(pv, pv0, Seq::empty(), 0);
                        }
                        assert forall|k: int| 0 <= k < pv.len() implies (#[trigger] pv[k]).checksum
                            == mode_part_digest(mode, settings.salt@, rel_path@, contents@, pv[k]) by {
                            assert(pv[k] == parts@[k]@);
                            assert(pv0[k].checksum == md5_digest(part_bytes(contents@, pv0[k])));
                        }
                    }
                    parts
                },
                Err(SwiftyError::InvalidPbo { file, reason }) => {
                    return scan_raw_reader(contents, rel_path, settings);
                },
                Err(e) => {
                    return Err(e);
                },
            }
        },
    };
    Ok(scanned_file(rel_path, total, parts))
}

/// Raw chunking with the mode's part checksums.
pub fn scan_raw_file_entry(contents: &[u8], rel_path: &str, settings: &ScanSettings) -> (r: Result<
    SrfFile,
    SwiftyError,
>)
    ensures
        is_raw_scan(r, rel_path@, contents@.len() as int, settings.signature, settings.salt@, contents@),
{
    let total = contents.len() as u64;
    match settings.signature {
        SignatureMode::ZeroMd5 => {
            let r = scan_raw_len_zero(total, rel_path);
            proof {
                if r is Ok {
                    lemma_mode_inputs(
                        parts_view(r->Ok_0.parts@),
                        settings.signature,
                        Seq::empty(),
                        settings.salt@,
                        rel_path@,
                        Seq::empty(),
                        contents@,
                    );
                }
            }
            r
        },
        SignatureMode::PathMd5 => {
            let r = scan_raw_len_positional(total, rel_path, settings.salt.as_str());
            proof {
                if r is Ok {
                    lemma_mode_inputs(
                        parts_view(r->Ok_0.parts@),
                        settings.signature,
                        settings.salt@,
                        settings.salt@,
                        rel_path@,
                        Seq::empty(),
                        contents@,
                    );
                }
            }
            r
        },
        _ => scan_raw_reader(contents, rel_path, settings),
    }
}

/// Scans one file of a mod from its bytes.
///
/// `rel_path` is the repo-relative path that ends up in `mod.srf` (serialized with
/// `\` separators); it must be ASCII. A `.pbo` is split into its PBO parts unless
/// the settings ask for raw chunks or its header is not a valid PBO header.
pub fn scan_file(rel_path: &str, contents: &[u8], settings: &ScanSettings) -> (r: Result<SrfFile, SwiftyError>)
    ensures
        !is_ascii_chars(rel_path@) ==> (r matches Err(e) && e@ == SwiftyErrorView::NonAsciiPath(
            non_ascii_message("rel_path"@, rel_path@),
        )),
        is_ascii_chars(rel_path@) && has_pbo_extension(rel_path@) && settings.pbo == PboMode::Auto ==> is_pbo_scan(
            r,
            rel_path@,
            contents@,
            settings.signature,
            settings.salt@,
        ),
        is_ascii_chars(rel_path@) && !(has_pbo_extension(rel_path@) && settings.pbo == PboMode::Auto) ==> is_raw_scan(
            r,
            rel_path@,
            contents@.len() as int,
            settings.signature,
            settings.salt@,
            contents@,
        ),
{
    match ensure_ascii_path("rel_path", rel_path) {
        Ok(()) => {},
        Err(e) => {
            return Err(e);
        },
    }
    let auto = match settings.pbo {
        PboMode::Auto => true,
        PboMode::Raw => false,
    };
    if is_pbo_path(rel_path) && auto {
        scan_pbo_reader(contents, rel_path, settings)
    } else {
        scan_raw_file_entry(contents, rel_path, settings)
    }
}


/// The last segment of a path whose separators are `/` or `\`.
pub open spec fn last_segment(rel: Seq<char>) -> Seq<char> {
    let i = if last_index(rel, '/') > last_index(rel, '\\') {
        last_index(rel, '/')
    } else {
        last_index(rel, '\\')
    };
    rel.subrange(i + 1, rel.len() as int)
}

/// Whether a scan skips a repo-relative path: macOS `.DS_Store` files, in any folder.
pub open spec fn is_ignored_path(rel: Seq<char>) -> bool {
    last_segment(rel) == ".DS_Store"@
}

/// Skips `.DS_Store` files, in any folder.
pub fn should_ignore_rel_path(rel_path: &str) -> (b: bool)
    ensures
        b == is_ignored_path(rel_path@),
{
    let cs = chars_of(rel_path);
    let n = cs.len();
    let a = after_last(&cs, '/', n);
    let b = after_last(&cs, '\\', n);
    let j = if a > b { a } else { b };
    proof {
        assert(cs@.take(n as int) =~= rel_path@);
        lemma_last_index(rel_path@, '/');
        lemma_last_index(rel_path@, '\\');
    }
    let last = string_from_chars(&cs.as_slice()[j..n]);
    assert(last@ =~= last_segment(rel_path@));
    str_eq(last.as_str(), ".DS_Store")
}


/// The file name of an ASCII path is ASCII.
pub proof fn lemma_file_name_ascii(rel: Seq<char>)
    requires
        is_ascii_chars(rel),
    ensures
        is_ascii_chars(scan_file_name(rel)),
    decreases rel.len(),
{
    lemma_file_name_of_ascii(rel);
    reveal_strlit("file");
}

proof fn lemma_file_name_of_ascii(s: Seq<char>)
    requires
        is_ascii_chars(s),
    ensures
        file_name_of(s) matches Some(n) ==> is_ascii_chars(n),
    decreases s.len(),
{
    lemma_last_index(s, '/');
    let i = last_index(s, '/');
    let seg = s.subrange(i + 1, s.len() as int);
    if seg.len() == 0 || seg == seq!['.'] {
        if i >= 0 {
            lemma_file_name_of_ascii(s.subrange(0, i));
        }
    } else {
        assert forall|j: int| 0 <= j < seg.len() implies '\0' <= #[trigger] seg[j] <= '\u{7f}' by {
            assert(seg[j] == s[i + 1 + j]);
        }
    }
}

/// Two raw layouts of the same file with the plain MD5 of their bytes are the same parts.
pub proof fn lemma_raw_parts_unique(a: Seq<PartView>, b: Seq<PartView>, name: Seq<char>, contents: Seq<u8>)
    requires
        is_raw_layout(a, name, contents.len() as int),
        is_raw_layout(b, name, contents.len() as int),
        parts_hash_bytes(a, contents),
        parts_follow_mode(b, SignatureMode::Real, Seq::empty(), Seq::empty(), contents),
    ensures
        a == b,
{
    assert forall|k: int| 0 <= k < a.len() implies #[trigger] a[k] == b[k] by {
        assert(a[k].start == b[k].start && a[k].length == b[k].length && a[k].path == b[k].path);
        assert(b[k].checksum == mode_part_digest(SignatureMode::Real, Seq::empty(), Seq::empty(), contents, b[k]));
    }
    assert(a =~= b);
}

/// Two part lists that follow the same plan with the plain MD5 of their bytes are the same.
pub proof fn lemma_plan_parts_unique(a: Seq<PartView>, b: Seq<PartView>, plan: Seq<PlanView>, contents: Seq<u8>)
    requires
        parts_follow_plan(a, plan),
        parts_follow_plan(b, plan),
        parts_hash_bytes(a, contents),
        parts_follow_mode(b, SignatureMode::Real, Seq::empty(), Seq::empty(), contents),
    ensures
        a == b,
{
    assert forall|k: int| 0 <= k < a.len() implies #[trigger] a[k] == b[k] by {
        assert(a[k].start == b[k].start && a[k].length == b[k].length && a[k].path == b[k].path);
        assert(b[k].checksum == mode_part_digest(SignatureMode::Real, Seq::empty(), Seq::empty(), contents, b[k]));
    }
    assert(a =~= b);
}

/// The real mode's checksums depend on neither the salt nor the path.
pub proof fn lemma_real_mode_inputs(parts: Seq<PartView>, salt: Seq<char>, rel: Seq<char>, contents: Seq<u8>)
    ensures
        parts_follow_mode(parts, SignatureMode::Real, salt, rel, contents) == parts_follow_mode(
            parts,
            SignatureMode::Real,
            Seq::empty(),
            Seq::empty(),
            contents,
        ),
{
    assert forall|k: int| 0 <= k < parts.len() implies mode_part_digest(SignatureMode::Real, salt, rel, contents, parts[k])
        == mode_part_digest(SignatureMode::Real, Seq::empty(), Seq::empty(), contents, parts[k]) by {}
}


/// A raw scan of an ASCII path passes the builder's file checks.
proof fn lemma_raw_scan_passes_checks(
    r: Result<SrfFile, SwiftyError>,
    rel: Seq<char>,
    total: int,
    mode: SignatureMode,
    salt: Seq<char>,
    contents: Seq<u8>,
)
    requires
        is_ascii_chars(rel),
        total >= 0,
        is_raw_scan(r, rel, total, mode, salt, contents),
    ensures
        r matches Ok(f) && file_check_error(f) is None,
{
    lemma_file_name_ascii(rel);
    let f = r->Ok_0;
    let pv = parts_view(f.parts@);
    lemma_srf_path_keeps_ascii(rel);
    law_raw_layout_covers_file(pv, scan_file_name(rel), total);
    reveal_strlit("_");
    assert forall|i: int| 0 <= i < pv.len() implies (#[trigger] pv[i]).path.len() > 0 by {
        assert(pv[i].path.len() >= "_"@.len());
    }
}

/// A file scanned from an ASCII path passes the builder's file checks (its
/// `mod.srf` path is ASCII, its parts cover it and are named, and its checksum is
/// the Swifty checksum of its parts), except for a PBO one of whose entries has
/// an empty name.
pub proof fn law_scanned_file_passes_builder_checks(
    rel: Seq<char>,
    contents: Seq<u8>,
    mode: SignatureMode,
    salt: Seq<char>,
    pbo: PboMode,
    r: Result<SrfFile, SwiftyError>,
)
    requires
        is_ascii_chars(rel),
        has_pbo_extension(rel) && pbo == PboMode::Auto ==> is_pbo_scan(r, rel, contents, mode, salt),
        !(has_pbo_extension(rel) && pbo == PboMode::Auto) ==> is_raw_scan(
            r,
            rel,
            contents.len() as int,
            mode,
            salt,
            contents,
        ),
        has_pbo_extension(rel) && pbo == PboMode::Auto ==> (pbo_parts_spec(rel, contents, contents.len() as int) matches Ok(
            plan,
        ) ==> forall|k: int| 0 <= k < plan.len() ==> (#[trigger] plan[k]).path.len() > 0),
    ensures
        r matches Ok(f) && file_check_error(f) is None,
{
    let total = contents.len() as int;
    if has_pbo_extension(rel) && pbo == PboMode::Auto {
        match pbo_parts_spec(rel, contents, total) {
            Ok(plan) => {
                let m = spec_meta(contents).unwrap();
                lemma_meta_header_len(contents);
                lemma_partition_covers(decoded_meta(m), total);
                let f = r->Ok_0;
                let pv = parts_view(f.parts@);
                lemma_srf_path_keeps_ascii(rel);
                lemma_plan_parts_cover(pv, plan, total);
                assert forall|i: int| 0 <= i < pv.len() implies (#[trigger] pv[i]).path.len() > 0 by {
                    assert(pv[i].path == plan[i].path);
                }
            },
            Err(e) => {
                let alt = if mode == SignatureMode::ZeroMd5 || mode == SignatureMode::PathMd5 {
                    mode
                } else {
                    reader_mode(mode)
                };
                lemma_raw_scan_passes_checks(r, rel, total, alt, salt, contents);
            },
        }
    } else {
        lemma_raw_scan_passes_checks(r, rel, total, mode, salt, contents);
    }
}

} // verus!
