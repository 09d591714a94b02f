//! Swifty hashing rules.
//!
//! - Part MD5 is MD5(raw bytes).
//! - File MD5 is MD5(concat(part_md5_hex_upper ... as UTF-8 bytes)).
//! - Mod checksum sorts files by cleaned path key (remove `/`, `\`, `;`, uppercase)
//!   and feeds file_md5_hex_upper + normalized path for each.
//! - Repo checksum is SHA1(ticks_decimal + required_mod_checksums + optional_mod_checksums).

use vstd::prelude::*;
use vstd::utf8::{encode_utf8, is_ascii_chars};
use vstd::string::StringSliceAdditionalSpecFns;
use crate::model::{Md5Digest, PartView, RepoMod, SrfFile, SrfPart, parts_view};
use crate::path::{checksum_path_chars, ensure_ascii_path, mod_sort_key, non_ascii_message, path_for_checksum, sort_key_for_mod};
use crate::primitives::{
    hex_encode_upper, hex_upper_chars, md5_compute, Md5Hasher, md5_digest, sha1_compute, sha1_digest,
};
use crate::sort::{is_stable_sort_order, key_index_lt, stable_sort_order};
use crate::text::{
    all_ascii_digits, ascii_decimal_value, concat_str, decimal_chars, decimal_string, lemma_decimal_chars_injective,
    lemma_decimal_text_bytes,
};

verus! {

/// Errors for inputs that cannot be represented as Swifty-perfect output.
#[derive(Debug, Clone)]
pub enum SwiftyError {
    NonAsciiPath(String),
    MissingParts(String),
    MissingPartName(String),
    InvalidPartCoverage(String),
    InvalidPbo { file: String, reason: String },
    FileChecksumMismatch(String),
    InvalidPartLength { expected: u64, actual: u64 },
    PartChecksumMismatch,
    Io(String),
}

/// What an error says, as mathematical values.
pub enum SwiftyErrorView {
    NonAsciiPath(Seq<char>),
    MissingParts(Seq<char>),
    MissingPartName(Seq<char>),
    InvalidPartCoverage(Seq<char>),
    InvalidPbo { file: Seq<char>, reason: Seq<char> },
    FileChecksumMismatch(Seq<char>),
    InvalidPartLength { expected: u64, actual: u64 },
    PartChecksumMismatch,
    Io(Seq<char>),
}

impl View for SwiftyError {
    type V = SwiftyErrorView;

    open spec fn view(&self) -> SwiftyErrorView {
        match self {
            SwiftyError::NonAsciiPath(m) => SwiftyErrorView::NonAsciiPath(m@),
            SwiftyError::MissingParts(m) => SwiftyErrorView::MissingParts(m@),
            SwiftyError::MissingPartName(m) => SwiftyErrorView::MissingPartName(m@),
            SwiftyError::InvalidPartCoverage(m) => SwiftyErrorView::InvalidPartCoverage(m@),
            SwiftyError::InvalidPbo { file, reason } => SwiftyErrorView::InvalidPbo { file: file@, reason: reason@ },
            SwiftyError::FileChecksumMismatch(m) => SwiftyErrorView::FileChecksumMismatch(m@),
            SwiftyError::InvalidPartLength { expected, actual } => SwiftyErrorView::InvalidPartLength {
                expected: *expected,
                actual: *actual,
            },
            SwiftyError::PartChecksumMismatch => SwiftyErrorView::PartChecksumMismatch,
            SwiftyError::Io(m) => SwiftyErrorView::Io(m@),
        }
    }
}


/// Size of a raw (non-PBO) part.
pub const RAW_PART_SIZE: u64 = 5_000_000;

// ---------------------------------------------------------------------------
// Specifications
// ---------------------------------------------------------------------------

/// Name of a raw part: `{file_name}_{end_offset}`.
pub open spec fn raw_part_name_chars(file_name: Seq<char>, end_offset: nat) -> Seq<char> {
    file_name + "_"@ + decimal_chars(end_offset)
}

/// The UTF-8 bytes of a digest's uppercase hex text.
pub open spec fn hex_text_bytes(digest: Seq<u8>) -> Seq<u8> {
    encode_utf8(hex_upper_chars(digest))
}

/// Concatenated hex texts of a list of digests.
pub open spec fn digests_hex_input(ds: Seq<Seq<u8>>) -> Seq<u8>
    decreases ds.len(),
{
    if ds.len() == 0 {
        Seq::empty()
    } else {
        digests_hex_input(ds.drop_last()) + hex_text_bytes(ds.last())
    }
}

/// The checksums of a list of parts.
pub open spec fn part_digests(parts: Seq<SrfPart>) -> Seq<Seq<u8>> {
    parts.map_values(|p: SrfPart| p.checksum@)
}

/// The checksums of a list of part views.
pub open spec fn view_digests(parts: Seq<PartView>) -> Seq<Seq<u8>> {
    parts.map_values(|p: PartView| p.checksum)
}

/// The checksums of a list of repo mods.
pub open spec fn mod_digests(mods: Seq<RepoMod>) -> Seq<Seq<u8>> {
    mods.map_values(|m: RepoMod| m.checksum@)
}

/// Swifty file checksum: MD5 of the concatenated uppercase hex part checksums.
pub open spec fn file_md5_spec(ds: Seq<Seq<u8>>) -> Seq<u8> {
    md5_digest(digests_hex_input(ds))
}

/// Number of raw parts of a file of `total` bytes.
pub open spec fn raw_part_count(total: int) -> int {
    (total + RAW_PART_SIZE - 1) / (RAW_PART_SIZE as int)
}

/// Length of raw part `k` of a file of `total` bytes.
pub open spec fn raw_part_len(total: int, k: int) -> int {
    if total - k * RAW_PART_SIZE < RAW_PART_SIZE {
        total - k * RAW_PART_SIZE
    } else {
        RAW_PART_SIZE as int
    }
}

/// The layout of raw chunking: consecutive parts of `RAW_PART_SIZE` bytes (the last
/// one shorter), named `{file_name}_{end_offset}`.
pub open spec fn is_raw_layout(parts: Seq<PartView>, file_name: Seq<char>, total: int) -> bool {
    &&& parts.len() == raw_part_count(total)
    &&& forall|k: int|
        0 <= k < parts.len() ==> {
            &&& (#[trigger] parts[k]).start == k * RAW_PART_SIZE
            &&& parts[k].length == raw_part_len(total, k)
            &&& parts[k].path == raw_part_name_chars(file_name, (k * RAW_PART_SIZE + raw_part_len(total, k)) as nat)
        }
}

/// Each part's checksum is the MD5 of its byte range of `bytes`.
pub open spec fn parts_hash_bytes(parts: Seq<PartView>, bytes: Seq<u8>) -> bool {
    forall|k: int|
        0 <= k < parts.len() ==> (#[trigger] parts[k]).checksum == md5_digest(
            bytes.subrange(parts[k].start as int, parts[k].start + parts[k].length),
        )
}

/// Where a part ends.
pub open spec fn part_end(p: PartView) -> int {
    p.start + p.length
}

/// Parts follow each other without gap or overlap, the first starting at 0.
pub open spec fn parts_contiguous(parts: Seq<PartView>) -> bool {
    &&& parts.len() > 0 ==> parts[0].start == 0
    &&& forall|i: int| 0 < i < parts.len() ==> (#[trigger] parts[i]).start == part_end(parts[i - 1])
}

/// What `validate_part_coverage` accepts: an empty file, or contiguous parts from 0
/// whose last one ends at the file length.
pub open spec fn parts_cover_file(parts: Seq<PartView>, file_len: int) -> bool {
    file_len == 0 || (parts.len() > 0 && parts_contiguous(parts) && part_end(parts.last()) == file_len)
}

/// Parts that cover a non-empty file are laid end to end: there is at least one,
/// the first starts at 0, each later one starts exactly where the one before it
/// ends, and the last ends at the file length; and parts laid out so are accepted.
pub proof fn law_coverage_is_end_to_end(parts: Seq<PartView>, file_len: int)
    requires
        file_len != 0,
    ensures
        parts_cover_file(parts, file_len) <==> {
            &&& parts.len() > 0
            &&& parts[0].start == 0
            &&& forall|i: int| 0 < i < parts.len() ==> #[trigger] parts[i].start == parts[i - 1].start + parts[i - 1].length
            &&& parts[parts.len() - 1].start + parts[parts.len() - 1].length == file_len
        },
{
    if parts_cover_file(parts, file_len) {
        assert forall|i: int| 0 < i < parts.len() implies #[trigger] parts[i].start == parts[i - 1].start
            + parts[i - 1].length by {
            assert(parts[i].start == part_end(parts[i - 1]));
        }
    }
    if parts.len() > 0 && parts[0].start == 0 && (forall|i: int|
        0 < i < parts.len() ==> #[trigger] parts[i].start == parts[i - 1].start + parts[i - 1].length) {
        assert forall|i: int| 0 < i < parts.len() implies (#[trigger] parts[i]).start == part_end(parts[i - 1]) by {
            assert(parts[i].start == parts[i - 1].start + parts[i - 1].length);
        }
    }
}

/// A gap or an overlap between two neighbouring parts of a non-empty file is never
/// accepted.
pub proof fn law_gap_or_overlap_rejected(parts: Seq<PartView>, file_len: int, i: int)
    requires
        file_len != 0,
        0 < i < parts.len(),
        parts[i].start != parts[i - 1].start + parts[i - 1].length,
    ensures
        !parts_cover_file(parts, file_len),
{
    law_coverage_is_end_to_end(parts, file_len);
}

/// Sort keys of the mod checksum for a list of files.
pub open spec fn file_sort_keys(files: Seq<SrfFile>) -> Seq<Seq<u8>> {
    files.map_values(|f: SrfFile| mod_sort_key(encode_utf8(f.path@)))
}

/// Bytes the mod checksum hashes, for files taken in `order`: for each file its
/// hex checksum then its normalized path.
pub open spec fn mod_digest_input(files: Seq<SrfFile>, order: Seq<usize>) -> Seq<u8>
    decreases order.len(),
{
    if order.len() == 0 {
        Seq::empty()
    } else {
        let f = files[order.last() as int];
        mod_digest_input(files, order.drop_last()) + hex_text_bytes(f.checksum@) + encode_utf8(
            checksum_path_chars(f.path@),
        )
    }
}

/// `d` is the Swifty mod checksum of `files`: the MD5 of the files' hex checksums and
/// normalized paths, taken in stable order of their sort keys.
pub open spec fn is_mod_checksum(files: Seq<SrfFile>, d: Seq<u8>) -> bool {
    exists|order: Seq<usize>|
        is_stable_sort_order(file_sort_keys(files), order) && d == md5_digest(#[trigger] mod_digest_input(files, order))
}

/// All file paths are ASCII.
pub open spec fn all_paths_ascii(files: Seq<SrfFile>) -> bool {
    forall|i: int| 0 <= i < files.len() ==> is_ascii_chars(#[trigger] files[i].path@)
}

/// The bytes the repo checksum hashes: the decimal text of the ticks, then the hex
/// checksums of the required mods, then those of the optional mods.
pub open spec fn repo_checksum_input(required: Seq<RepoMod>, optional: Seq<RepoMod>, ticks: nat) -> Seq<u8> {
    encode_utf8(decimal_chars(ticks)) + digests_hex_input(mod_digests(required)) + digests_hex_input(
        mod_digests(optional),
    )
}

/// Swifty repo checksum text for the given mods and ticks.
pub open spec fn repo_checksum_chars(required: Seq<RepoMod>, optional: Seq<RepoMod>, ticks: nat) -> Seq<char> {
    hex_upper_chars(sha1_digest(repo_checksum_input(required, optional, ticks)))
}

/// The repo checksum hashes the full tick value: its input begins with a run of
/// ASCII digits that spells exactly `ticks`.
pub proof fn law_repo_checksum_input_starts_with_ticks(required: Seq<RepoMod>, optional: Seq<RepoMod>, ticks: nat)
    ensures
        exists|k: int|
            0 < k <= repo_checksum_input(required, optional, ticks).len()
                && all_ascii_digits(repo_checksum_input(required, optional, ticks).take(k))
                && #[trigger] ascii_decimal_value(repo_checksum_input(required, optional, ticks).take(k)) == ticks,
{
    lemma_decimal_text_bytes(ticks);
    let t = encode_utf8(decimal_chars(ticks));
    let input = repo_checksum_input(required, optional, ticks);
    assert(input.take(t.len() as int) =~= t);
    assert(ascii_decimal_value(input.take(t.len() as int)) == ticks);
}

/// For the same mods, different tick values give different hashed inputs.
pub proof fn law_repo_checksum_input_injective_in_ticks(
    required: Seq<RepoMod>,
    optional: Seq<RepoMod>,
    t1: nat,
    t2: nat,
)
    requires
        repo_checksum_input(required, optional, t1) == repo_checksum_input(required, optional, t2),
    ensures
        t1 == t2,
{
    let rest = digests_hex_input(mod_digests(required)) + digests_hex_input(mod_digests(optional));
    let a = encode_utf8(decimal_chars(t1));
    let b = encode_utf8(decimal_chars(t2));
    assert(repo_checksum_input(required, optional, t1) =~= a + rest);
    assert(repo_checksum_input(required, optional, t2) =~= b + rest);
    assert(a.len() == b.len());
    assert(a =~= (a + rest).take(a.len() as int));
    assert(b =~= (b + rest).take(b.len() as int));
    vstd::utf8::encode_utf8_decode_utf8(decimal_chars(t1));
    vstd::utf8::encode_utf8_decode_utf8(decimal_chars(t2));
    lemma_decimal_chars_injective(t1, t2);
}

pub proof fn lemma_raw_count_exact(n: int)
    requires
        n >= 0,
    ensures
        raw_part_count(n * RAW_PART_SIZE) == n,
{
    assert((n * 5_000_000 + 4_999_999) / 5_000_000 == n) by (nonlinear_arith)
        requires
            n >= 0,
    ;
}

pub proof fn lemma_raw_count_partial(n: int, total: int)
    requires
        n >= 1,
        (n - 1) * RAW_PART_SIZE < total < n * RAW_PART_SIZE,
    ensures
        raw_part_count(total) == n,
{
    assert((total + 4_999_999) / 5_000_000 == n) by (nonlinear_arith)
        requires
            n >= 1,
            (n - 1) * 5_000_000 < total < n * 5_000_000,
    ;
}


/// Bounds of the raw part count of a non-empty file.
pub proof fn lemma_raw_count_bounds(total: int)
    requires
        total > 0,
    ensures
        raw_part_count(total) >= 1,
        (raw_part_count(total) - 1) * RAW_PART_SIZE < total <= raw_part_count(total) * RAW_PART_SIZE,
{
    let n = (total + 4_999_999) / 5_000_000;
    assert(n >= 1 && (n - 1) * 5_000_000 < total && total <= n * 5_000_000) by (nonlinear_arith)
        requires
            total > 0,
            n == (total + 4_999_999) / 5_000_000,
    ;
}

/// Raw chunks start at 0, follow each other without gaps and end at the file's
/// length: raw chunking always passes `validate_part_coverage`.
pub proof fn law_raw_layout_covers_file(parts: Seq<PartView>, file_name: Seq<char>, total: int)
    requires
        total >= 0,
        is_raw_layout(parts, file_name, total),
    ensures
        parts_cover_file(parts, total),
{
    if total > 0 {
        lemma_raw_count_bounds(total);
        let n = raw_part_count(total);
        assert forall|i: int| 0 < i < parts.len() implies (#[trigger] parts[i]).start == part_end(parts[i - 1]) by {
            assert(parts[i - 1].start == (i - 1) * RAW_PART_SIZE);
            assert(i * RAW_PART_SIZE <= (n - 1) * RAW_PART_SIZE);
        }
        assert(parts[n - 1].start == (n - 1) * RAW_PART_SIZE);
    }
}


/// The hashed input depends only on the files taken, in order.
proof fn lemma_mod_digest_input_same_files(f1: Seq<SrfFile>, o1: Seq<usize>, f2: Seq<SrfFile>, o2: Seq<usize>)
    requires
        o1.len() == o2.len(),
        forall|k: int| 0 <= k < o1.len() ==> f1[#[trigger] o1[k] as int] == f2[o2[k] as int],
    ensures
        mod_digest_input(f1, o1) == mod_digest_input(f2, o2),
    decreases o1.len(),
{
    if o1.len() > 0 {
        let n = o1.len() - 1;
        assert(f1[o1[n] as int] == f2[o2[n] as int]);
        assert forall|k: int| 0 <= k < o1.drop_last().len() implies f1[#[trigger] o1.drop_last()[k] as int]
            == f2[o2.drop_last()[k] as int] by {
            assert(o1.drop_last()[k] == o1[k] && o2.drop_last()[k] == o2[k]);
        }
        lemma_mod_digest_input_same_files(f1, o1.drop_last(), f2, o2.drop_last());
    }
}


/// The hashed input depends only on the paths and checksums of the files taken.
pub proof fn lemma_mod_digest_input_same_views(f1: Seq<SrfFile>, f2: Seq<SrfFile>, o: Seq<usize>)
    requires
        forall|k: int|
            0 <= k < o.len() ==> f1[#[trigger] o[k] as int].path@ == f2[o[k] as int].path@ && f1[o[k] as int].checksum@
                == f2[o[k] as int].checksum@,
    ensures
        mod_digest_input(f1, o) == mod_digest_input(f2, o),
    decreases o.len(),
{
    if o.len() > 0 {
        let n = o.len() - 1;
        assert(f1[o[n] as int].path@ == f2[o[n] as int].path@);
        assert forall|k: int| 0 <= k < o.drop_last().len() implies f1[#[trigger] o.drop_last()[k] as int].path@
            == f2[o.drop_last()[k] as int].path@ && f1[o.drop_last()[k] as int].checksum@
            == f2[o.drop_last()[k] as int].checksum@ by {
            assert(o.drop_last()[k] == o[k]);
        }
        lemma_mod_digest_input_same_views(f1, f2, o.drop_last());
    }
}

/// The mod checksum does not depend on the order the files are listed in, as long
/// as no two files share a sort key: `files2` lists the files of `files1`
/// reordered by the permutation `perm`.
pub proof fn law_mod_checksum_ignores_file_order(
    files1: Seq<SrfFile>,
    files2: Seq<SrfFile>,
    perm: Seq<usize>,
    d1: Seq<u8>,
    d2: Seq<u8>,
)
    requires
        files1.len() <= usize::MAX,
        perm.len() == files1.len(),
        files2.len() == files1.len(),
        forall|i: int| 0 <= i < perm.len() ==> #[trigger] perm[i] < files1.len() && files2[i] == files1[perm[i] as int],
        forall|i: int, j: int| 0 <= i < j < perm.len() ==> #[trigger] perm[i] != #[trigger] perm[j],
        forall|m: int| 0 <= m < files1.len() ==> #[trigger] perm.contains(m as usize),
        forall|i: int, j: int|
            0 <= i < j < files1.len() ==> #[trigger] file_sort_keys(files1)[i] != #[trigger] file_sort_keys(files1)[j],
        is_mod_checksum(files1, d1),
        is_mod_checksum(files2, d2),
    ensures
        d1 == d2,
{
    let n = files1.len();
    let k1 = file_sort_keys(files1);
    let k2 = file_sort_keys(files2);
    let o1 = choose|o: Seq<usize>|
        is_stable_sort_order(k1, o) && d1 == md5_digest(#[trigger] mod_digest_input(files1, o));
    let o2 = choose|o: Seq<usize>|
        is_stable_sort_order(k2, o) && d2 == md5_digest(#[trigger] mod_digest_input(files2, o));
    assert forall|k: int| 0 <= k < n implies exists|i: int| 0 <= i < n && perm[i] == #[trigger] o1[k] by {
        assert(o1[k] < n);
        assert(perm.contains((o1[k] as int) as usize));
    }
    let q = Seq::new(n, |k: int| (choose|i: int| 0 <= i < n && perm[i] == o1[k]) as usize);
    assert forall|k: int| 0 <= k < n implies #[trigger] q[k] < n && perm[q[k] as int] == o1[k] by {
        assert(exists|i: int| 0 <= i < n && perm[i] == o1[k]);
        let i = choose|i: int| 0 <= i < n && perm[i] == o1[k];
        assert(q[k] == i as usize);
    }
    assert forall|i: int| 0 <= i < n implies #[trigger] k2[i] == k1[perm[i] as int] by {}
    assert(is_stable_sort_order(k2, q)) by {
        assert forall|m: int| 0 <= m < k2.len() implies #[trigger] q.contains(m as usize) by {
            let p = perm[m];
            assert(o1.contains((p as int) as usize));
            let k = choose|k: int| 0 <= k < o1.len() && o1[k] == p;
            assert(perm[q[k] as int] == p);
            if q[k] as int != m {
                if (q[k] as int) < m {
                    assert(perm[q[k] as int] != perm[m]);
                } else {
                    assert(perm[m] != perm[q[k] as int]);
                }
            }
            assert(q[k] == m as usize);
        }
        assert forall|k: int, l: int| 0 <= k < l < q.len() implies key_index_lt(k2, #[trigger] q[k] as int, #[trigger] q[l] as int) by {
            assert(key_index_lt(k1, o1[k] as int, o1[l] as int));
            if o1[k] == o1[l] {
                crate::sort::lemma_bytes_lt_irreflexive(k1[o1[k] as int]);
            }
            if (o1[k] as int) < (o1[l] as int) {
                assert(k1[o1[k] as int] != k1[o1[l] as int]);
            } else if (o1[l] as int) < (o1[k] as int) {
                assert(k1[o1[l] as int] != k1[o1[k] as int]);
            }
            assert(k2[q[k] as int] == k1[o1[k] as int]);
            assert(k2[q[l] as int] == k1[o1[l] as int]);
        }
    }
    crate::sort::lemma_stable_sort_order_unique(k2, o2, q);
    assert forall|k: int| 0 <= k < o1.len() implies files1[#[trigger] o1[k] as int] == files2[q[k] as int] by {
        assert(files2[q[k] as int] == files1[perm[q[k] as int] as int]);
    }
    lemma_mod_digest_input_same_files(files1, o1, files2, q);
}

// ---------------------------------------------------------------------------
// Functions
// ---------------------------------------------------------------------------

/// Part name format used for raw chunk parts.
pub fn raw_part_name(file_name: &str, end_offset: u64) -> (r: String)
    ensures
        r@ == raw_part_name_chars(file_name@, end_offset as nat),
{
    let head = concat_str(file_name, "_");
    let num = decimal_string(end_offset);
    let r = concat_str(head.as_str(), num.as_str());
    r
}

/// MD5 of a part's bytes.
pub fn part_md5_from_bytes(bytes: &[u8]) -> (d: Md5Digest)
    ensures
        d@ == md5_digest(bytes@),
{
    Md5Digest::from_bytes(md5_compute(bytes))
}

/// MD5 of `len` zero bytes, streamed without a buffer of that size.
pub fn part_md5_zeroes(len: u64) -> (d: Md5Digest)
    ensures
        d@ == md5_digest(Seq::new(len as nat, |i: int| 0u8)),
{
    let buf = [0u8; 8192];
    let mut ctx = Md5Hasher::new();
    let mut remaining = len;
    while remaining > 0
        invariant
            remaining <= len,
            buf@ == Seq::new(8192, |i: int| 0u8),
            ctx.fed() == Seq::new((len - remaining) as nat, |i: int| 0u8),
        decreases remaining,
    {
        let n: usize = if remaining < 8192 { remaining as usize } else { 8192 };
        let chunk = &buf.as_slice()[0..n];
        ctx.consume(chunk);
        remaining = remaining - n as u64;
        assert(ctx.fed() =~= Seq::new((len - remaining) as nat, |i: int| 0u8));
    }
    Md5Digest::from_bytes(ctx.finalize())
}

/// MD5(salt + md5_hex).
pub fn salted_md5_hex(salt: &str, md5_hex: &str) -> (d: Md5Digest)
    ensures
        d@ == md5_digest(salt.spec_bytes() + md5_hex.spec_bytes()),
{
    let mut ctx = Md5Hasher::new();
    ctx.consume(salt.as_bytes());
    ctx.consume(md5_hex.as_bytes());
    assert(ctx.fed() =~= salt.spec_bytes() + md5_hex.spec_bytes());
    Md5Digest::from_bytes(ctx.finalize())
}

/// Swifty file checksum from parts: MD5(concat(part_md5_hex_upper as UTF-8 bytes)).
pub fn file_md5_from_parts(parts: &[SrfPart]) -> (d: Md5Digest)
    ensures
        d@ == file_md5_spec(part_digests(parts@)),
{
    let mut ctx = Md5Hasher::new();
    let mut i: usize = 0;
    while i < parts.len()
        invariant
            0 <= i <= parts@.len(),
            ctx.fed() == digests_hex_input(part_digests(parts@.take(i as int))),
        decreases parts@.len() - i,
    {
        let hex = parts[i].checksum.to_hex_upper();
        ctx.consume(hex.as_str().as_bytes());
        assert(part_digests(parts@.take(i + 1)).drop_last() =~= part_digests(parts@.take(i as int)));
        i = i + 1;
    }
    assert(parts@.take(parts@.len() as int) =~= parts@);
    Md5Digest::from_bytes(ctx.finalize())
}


/// Parts and file checksum of an in-memory file, chunked into raw parts.
pub fn swifty_file_info_from_bytes(file_name: &str, bytes: &[u8]) -> (r: (Md5Digest, Vec<SrfPart>))
    ensures
        is_raw_layout(parts_view(r.1@), file_name@, bytes@.len() as int),
        parts_hash_bytes(parts_view(r.1@), bytes@),
        r.0@ == file_md5_spec(part_digests(r.1@)),
{
    let total = bytes.len();
    let mut parts: Vec<SrfPart> = Vec::new();
    let mut ctx = Md5Hasher::new();
    let mut offset: usize = 0;
    while offset < total
        invariant
            total == bytes@.len(),
            offset <= total,
            offset == parts@.len() * RAW_PART_SIZE || (offset == total && parts@.len() == raw_part_count(
                total as int,
            )),
            offset < total ==> offset == parts@.len() * RAW_PART_SIZE,
            forall|k: int|
                0 <= k < parts@.len() ==> {
                    &&& (#[trigger] parts@[k]).start == k * RAW_PART_SIZE
                    &&& parts@[k].length == raw_part_len(total as int, k)
                    &&& parts@[k].path@ == raw_part_name_chars(
                        file_name@,
                        (k * RAW_PART_SIZE + raw_part_len(total as int, k)) as nat,
                    )
                    &&& parts@[k].checksum@ == md5_digest(
                        bytes@.subrange(parts@[k].start as int, parts@[k].start + parts@[k].length),
                    )
                },
            ctx.fed() == digests_hex_input(part_digests(parts@)),
        decreases total - offset,
    {
        let k = parts.len();
        let len: usize = if total - offset < 5_000_000 { total - offset } else { 5_000_000 };
        let end = offset + len;
        let chunk = &bytes[offset..end];
        let digest = part_md5_from_bytes(chunk);
        let name = raw_part_name(file_name, end as u64);
        let hex = digest.to_hex_upper();
        ctx.consume(hex.as_str().as_bytes());
        let ghost old_parts = parts@;
        parts.push(SrfPart { path: name, start: offset as u64, length: len as u64, checksum: digest });
        assert(part_digests(parts@).drop_last() =~= part_digests(old_parts));
        proof {
            if end < total {
                assert(len == RAW_PART_SIZE);
            } else if len == RAW_PART_SIZE {
                lemma_raw_count_exact(parts@.len() as int);
            } else {
                lemma_raw_count_partial(parts@.len() as int, total as int);
            }
        }
        offset = end;
    }
    proof {
        if total == 0 {
            assert(raw_part_count(0) == 0);
        }
    }
    let file_md5 = Md5Digest::from_bytes(ctx.finalize());
    (file_md5, parts)
}



/// Current UTC .NET DateTime ticks (100 ns intervals since 0001-01-01 UTC): the
/// ticks of some clock reading after the Unix epoch, `None` for a clock before it
/// (or past what `u64` ticks hold).
pub fn dotnet_ticks_from_system_time() -> (t: Option<u64>)
    ensures
        t matches Some(v) ==> exists|secs: nat, nanos: nat|
            nanos < 1_000_000_000 && v == #[trigger] crate::ticks::dotnet_ticks_spec(secs, nanos),
{
    crate::ticks::dotnet_ticks_from_system_time()
}

/// Checks that parts start at 0, follow each other without gaps and cover the file.
pub fn validate_part_coverage(file_path: &str, file_len: u64, parts: &[SrfPart]) -> (r: Result<(), SwiftyError>)
    ensures
        r is Ok <==> parts_cover_file(parts_view(parts@), file_len as int),
        file_len == 0 ==> r is Ok,
        file_len != 0 ==> (r is Ok <==> {
            &&& parts@.len() > 0
            &&& parts@[0].start == 0
            &&& forall|i: int|
                0 < i < parts@.len() ==> #[trigger] parts@[i].start == parts@[i - 1].start + parts@[i - 1].length
            &&& parts@[parts@.len() - 1].start + parts@[parts@.len() - 1].length == file_len
        }),
        r matches Err(e) ==> if parts@.len() == 0 {
            e matches SwiftyError::MissingParts(m) && m@ == file_path@
        } else {
            e matches SwiftyError::InvalidPartCoverage(m) && m@ == file_path@
        },
{
    let ghost pv = parts_view(parts@);
    if file_len == 0 {
        return Ok(());
    }
    proof {
        lemma_cover_by_fields(parts@, file_len as int);
    }
    if parts.len() == 0 {
        return Err(SwiftyError::MissingParts(file_path.to_owned()));
    }
    let mut expected: u64 = 0;
    let mut i: usize = 0;
    while i < parts.len()
        invariant
            0 <= i <= parts@.len(),
            pv == parts_view(parts@),
            pv.len() == parts@.len(),
            file_len != 0,
            parts@.len() > 0,
            i == 0 ==> expected == 0,
            i > 0 ==> expected == part_end(pv[i - 1]),
            pv[0].start == 0 || i == 0,
            forall|j: int| 0 < j < i ==> (#[trigger] pv[j]).start == part_end(pv[j - 1]),
        decreases parts@.len() - i,
    {
        assert(pv[i as int] == parts@[i as int]@);
        if parts[i].start != expected {
            return Err(SwiftyError::InvalidPartCoverage(file_path.to_owned()));
        }
        match expected.checked_add(parts[i].length) {
            Some(next) => {
                expected = next;
            },
            None => {
                proof {
                    if i + 1 < pv.len() {
                        assert(pv[i + 1].start != part_end(pv[i as int]));
                    }
                }
                return Err(SwiftyError::InvalidPartCoverage(file_path.to_owned()));
            },
        }
        i = i + 1;
    }
    if expected != file_len {
        return Err(SwiftyError::InvalidPartCoverage(file_path.to_owned()));
    }
    Ok(())
}

/// Coverage of a non-empty file, read off the parts' own start and length fields.
proof fn lemma_cover_by_fields(parts: Seq<SrfPart>, file_len: int)
    requires
        file_len != 0,
    ensures
        parts_cover_file(parts_view(parts), file_len) <==> {
            &&& parts.len() > 0
            &&& parts[0].start == 0
            &&& forall|i: int|
                0 < i < parts.len() ==> #[trigger] parts[i].start == parts[i - 1].start + parts[i - 1].length
            &&& parts[parts.len() - 1].start + parts[parts.len() - 1].length == file_len
        },
{
    let pv = parts_view(parts);
    law_coverage_is_end_to_end(pv, file_len);
    assert forall|i: int| 0 <= i < parts.len() implies (#[trigger] pv[i]).start == parts[i].start && pv[i].length
        == parts[i].length by {}
    if parts.len() > 0 {
        assert(pv[0].start == parts[0].start);
        assert(pv[parts.len() - 1].length == parts[parts.len() - 1].length);
    }
    if (forall|i: int| 0 < i < parts.len() ==> #[trigger] parts[i].start == parts[i - 1].start + parts[i - 1].length) {
        assert forall|i: int| 0 < i < pv.len() implies #[trigger] pv[i].start == pv[i - 1].start + pv[i - 1].length by {
            assert(pv[i].start == parts[i].start);
            assert(pv[i - 1].start == parts[i - 1].start);
        }
    }
    if (forall|i: int| 0 < i < pv.len() ==> #[trigger] pv[i].start == pv[i - 1].start + pv[i - 1].length) {
        assert forall|i: int| 0 < i < parts.len() implies #[trigger] parts[i].start == parts[i - 1].start
            + parts[i - 1].length by {
            assert(pv[i].start == parts[i].start);
            assert(pv[i - 1].start == parts[i - 1].start);
        }
    }
}

/// Coverage plus Swifty's rule that a non-empty file names every part.
pub open spec fn parts_strictly_valid(parts: Seq<PartView>, file_len: int) -> bool {
    &&& parts_cover_file(parts, file_len)
    &&& file_len != 0 ==> forall|i: int| 0 <= i < parts.len() ==> (#[trigger] parts[i]).path.len() > 0
}

/// Validates Swifty part invariants: coverage, and named parts for a non-empty file.
pub fn validate_parts_swifty_strict(file_path: &str, file_len: u64, parts: &[SrfPart]) -> (r: Result<(), SwiftyError>)
    ensures
        r is Ok <==> parts_strictly_valid(parts_view(parts@), file_len as int),
        r matches Err(e) ==> if !parts_cover_file(parts_view(parts@), file_len as int) {
            if parts@.len() == 0 {
                e matches SwiftyError::MissingParts(m) && m@ == file_path@
            } else {
                e matches SwiftyError::InvalidPartCoverage(m) && m@ == file_path@
            }
        } else {
            e matches SwiftyError::MissingPartName(m) && m@ == file_path@
        },
{
    validate_part_coverage(file_path, file_len, parts)?;
    if file_len == 0 {
        return Ok(());
    }
    let ghost pv = parts_view(parts@);
    let mut i: usize = 0;
    while i < parts.len()
        invariant
            0 <= i <= parts@.len(),
            pv == parts_view(parts@),
            file_len != 0,
            parts_cover_file(pv, file_len as int),
            forall|j: int| 0 <= j < i ==> (#[trigger] pv[j]).path.len() > 0,
        decreases parts@.len() - i,
    {
        assert(pv[i as int] == parts@[i as int]@);
        if parts[i].path.as_str().is_empty() {
            assert(pv[i as int].path.len() == 0);
            assert(parts_cover_file(pv, file_len as int));
            return Err(SwiftyError::MissingPartName(file_path.to_owned()));
        }
        i = i + 1;
    }
    Ok(())
}

/// Swifty mod checksum of a file list: files sorted by `sort_key_for_mod` (ties in
/// input order), then MD5 over each file's hex checksum and normalized path.
pub fn compute_mod_checksum(files: &[SrfFile]) -> (r: Result<Md5Digest, SwiftyError>)
    ensures
        r is Ok <==> all_paths_ascii(files@),
        r matches Err(e) ==> exists|i: int|
            0 <= i < files@.len() && !is_ascii_chars(files@[i].path@) && (forall|j: int|
                0 <= j < i ==> is_ascii_chars(#[trigger] files@[j].path@)) && (e matches SwiftyError::NonAsciiPath(
                m,
            ) && m@ == non_ascii_message("file path"@, files@[i].path@)),
        r matches Ok(d) ==> is_mod_checksum(files@, d@),
{
    let mut i: usize = 0;
    while i < files.len()
        invariant
            0 <= i <= files@.len(),
            forall|j: int| 0 <= j < i ==> is_ascii_chars(#[trigger] files@[j].path@),
        decreases files@.len() - i,
    {
        match ensure_ascii_path("file path", files[i].path.as_str()) {
            Ok(()) => {},
            Err(e) => {
                return Err(e);
            },
        }
        i = i + 1;
    }
    let mut keys: Vec<Vec<u8>> = Vec::new();
    let mut i: usize = 0;
    while i < files.len()
        invariant
            0 <= i <= files@.len(),
            keys@.len() == i,
            forall|j: int| 0 <= j < i ==> (#[trigger] keys@[j])@ == mod_sort_key(encode_utf8(files@[j].path@)),
        decreases files@.len() - i,
    {
        let key = sort_key_for_mod(files[i].path.as_str());
        assert(key@ == mod_sort_key(encode_utf8(files@[i as int].path@)));
        keys.push(key);
        i = i + 1;
    }
    assert(keys@.map_values(|k: Vec<u8>| k@) =~= file_sort_keys(files@));
    let order = stable_sort_order(&keys);
    let mut ctx = Md5Hasher::new();
    let mut k: usize = 0;
    while k < order.len()
        invariant
            0 <= k <= order@.len(),
            is_stable_sort_order(file_sort_keys(files@), order@),
            file_sort_keys(files@).len() == files@.len(),
            ctx.fed() == mod_digest_input(files@, order@.take(k as int)),
        decreases order@.len() - k,
    {
        let f = &files[order[k]];
        let hex = f.checksum.to_hex_upper();
        ctx.consume(hex.as_str().as_bytes());
        let p = path_for_checksum(f.path.as_str());
        ctx.consume(p.as_str().as_bytes());
        assert(order@.take(k + 1).drop_last() =~= order@.take(k as int));
        k = k + 1;
    }
    assert(order@.take(order@.len() as int) =~= order@);
    let d = Md5Digest::from_bytes(ctx.finalize());
    assert(d@ == md5_digest(mod_digest_input(files@, order@)));
    Ok(d)
}

/// Swifty repo checksum for a specific tick value (.NET DateTime ticks):
/// uppercase hex of SHA1(ticks decimal + required checksums + optional checksums).
pub fn compute_repo_checksum_with_ticks(required_mods: &[RepoMod], optional_mods: &[RepoMod], ticks: u64) -> (r: String)
    ensures
        r@ == repo_checksum_chars(required_mods@, optional_mods@, ticks as nat),
        r@ == hex_upper_chars(sha1_digest(repo_checksum_input(required_mods@, optional_mods@, ticks as nat))),
        r@.len() == 40,
{
    let mut buf: Vec<u8> = Vec::new();
    let t = decimal_string(ticks);
    buf.extend_from_slice(t.as_str().as_bytes());
    let ghost head = buf@;
    assert(head =~= encode_utf8(decimal_chars(ticks as nat)));
    let mut i: usize = 0;
    while i < required_mods.len()
        invariant
            0 <= i <= required_mods@.len(),
            buf@ == head + digests_hex_input(mod_digests(required_mods@.take(i as int))),
        decreases required_mods@.len() - i,
    {
        let hex = required_mods[i].checksum.to_hex_upper();
        buf.extend_from_slice(hex.as_str().as_bytes());
        assert(mod_digests(required_mods@.take(i + 1)).drop_last() =~= mod_digests(required_mods@.take(i as int)));
        i = i + 1;
    }
    assert(required_mods@.take(required_mods@.len() as int) =~= required_mods@);
    let ghost mid = buf@;
    let mut i: usize = 0;
    while i < optional_mods.len()
        invariant
            0 <= i <= optional_mods@.len(),
            buf@ == mid + digests_hex_input(mod_digests(optional_mods@.take(i as int))),
        decreases optional_mods@.len() - i,
    {
        let hex = optional_mods[i].checksum.to_hex_upper();
        buf.extend_from_slice(hex.as_str().as_bytes());
        assert(mod_digests(optional_mods@.take(i + 1)).drop_last() =~= mod_digests(optional_mods@.take(i as int)));
        i = i + 1;
    }
    assert(optional_mods@.take(optional_mods@.len() as int) =~= optional_mods@);
    assert(buf@ =~= encode_utf8(decimal_chars(ticks as nat)) + digests_hex_input(mod_digests(required_mods@))
        + digests_hex_input(mod_digests(optional_mods@)));
    let digest = sha1_compute(buf.as_slice());
    let ds = digest.as_slice();
    assert(ds@ == digest@);
    hex_encode_upper(ds)
}

} // verus!
