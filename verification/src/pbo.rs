//! Strict PBO header parsing and Swifty partitioning.
//!
//! SwiftyPboFile parts are:
//! 1) `$$HEADER$$` (bytes `[0..header_len)`)
//! 2) each entry payload in header order (skipping the first "dummy" entry)
//! 3) `$$END$$` (remaining bytes)
//!
//! Each part checksum is MD5(part bytes); the file checksum is MD5 of the
//! concatenated uppercase hex part checksums.

use vstd::prelude::*;
use vstd::slice::slice_to_vec;
use vstd::utf8::is_ascii_chars;
use crate::checksum::{SwiftyError, SwiftyErrorView, part_end, parts_contiguous, parts_cover_file, validate_part_coverage};
use crate::model::{Md5Digest, PartView, SrfPart, parts_view};
use crate::path::{ensure_ascii_path, non_ascii_message};
use crate::primitives::{hex_encode_upper, hex_upper_chars, md5_digest, utf8_lossy, utf8_lossy_chars};
use crate::text::{concat_str, owned};
use crate::checksum::{part_md5_from_bytes, part_md5_zeroes, parts_hash_bytes};

verus! {

/// Longest NUL-terminated header string accepted, in bytes.
pub const CSTRING_LIMIT: usize = 1048576;

/// Why reading a PBO header stopped.
#[derive(Debug, Clone, Copy, PartialEq, Eq)]
pub enum PboReadFailure {
    /// The data ended before the header did.
    UnexpectedEof,
    /// A header string is longer than `CSTRING_LIMIT` bytes.
    CstringTooLong,
    /// An entry has a packing method this parser does not know.
    UnknownEntryType(u32),
}

/// Packing method of a PBO entry.
#[derive(Debug, Clone, Copy, PartialEq, Eq)]
pub enum PboEntryType {
    Vers,
    Cprs,
    Enco,
    /// Uncompressed data (type word 0).
    Plain,
}

// ---------------------------------------------------------------------------
// Byte-level reading
// ---------------------------------------------------------------------------

/// Position of the first NUL byte at or after `pos`, or the length if there is none.
pub open spec fn nul_index(b: Seq<u8>, pos: int) -> int
    decreases b.len() - pos,
{
    if pos >= b.len() {
        b.len() as int
    } else if b[pos] == 0 {
        pos
    } else {
        nul_index(b, pos + 1)
    }
}

pub proof fn lemma_nul_index(b: Seq<u8>, pos: int)
    requires
        0 <= pos <= b.len(),
    ensures
        pos <= nul_index(b, pos) <= b.len(),
        nul_index(b, pos) < b.len() ==> b[nul_index(b, pos)] == 0,
        forall|i: int| pos <= i < nul_index(b, pos) ==> b[i] != 0,
    decreases b.len() - pos,
{
    if pos < b.len() && b[pos] != 0 {
        lemma_nul_index(b, pos + 1);
    }
}

/// Reads a NUL-terminated string at `pos`: its bytes and the position after the NUL.
pub open spec fn spec_cstring(b: Seq<u8>, pos: int) -> Result<(Seq<u8>, int), PboReadFailure> {
    let e = nul_index(b, pos);
    if e - pos > CSTRING_LIMIT {
        Err(PboReadFailure::CstringTooLong)
    } else if e >= b.len() {
        Err(PboReadFailure::UnexpectedEof)
    } else {
        Ok((b.subrange(pos, e), e + 1))
    }
}

pub proof fn lemma_spec_cstring(b: Seq<u8>, pos: int)
    requires
        0 <= pos <= b.len(),
    ensures
        spec_cstring(b, pos) matches Ok((s, p)) ==> pos < p <= b.len() && p == pos + s.len() + 1,
{
    lemma_nul_index(b, pos);
}

/// Little-endian `u32` at `pos`.
pub open spec fn le_u32(b: Seq<u8>, pos: int) -> u32 {
    (b[pos] + b[pos + 1] * 256 + b[pos + 2] * 65536 + b[pos + 3] * 16777216) as u32
}

/// Reads a little-endian `u32` at `pos`.
pub open spec fn spec_u32(b: Seq<u8>, pos: int) -> Result<(u32, int), PboReadFailure> {
    if pos + 4 > b.len() {
        Err(PboReadFailure::UnexpectedEof)
    } else {
        Ok((le_u32(b, pos), pos + 4))
    }
}

/// The entry type a type word stands for.
pub open spec fn entry_type_of(t: u32) -> Option<PboEntryType> {
    if t == 0x5665_7273 {
        Some(PboEntryType::Vers)
    } else if t == 0x4370_7273 {
        Some(PboEntryType::Cprs)
    } else if t == 0x456e_6372 {
        Some(PboEntryType::Enco)
    } else if t == 0 {
        Some(PboEntryType::Plain)
    } else {
        None
    }
}

fn read_cstring(b: &[u8], pos: usize) -> (r: Result<(Vec<u8>, usize), PboReadFailure>)
    requires
        pos <= b@.len(),
    ensures
        match spec_cstring(b@, pos as int) {
            Ok((s, p)) => r matches Ok((v, q)) && v@ == s && q == p,
            Err(f) => r == Err::<(Vec<u8>, usize), PboReadFailure>(f),
        },
{
    let mut i = pos;
    while i < b.len() && b[i] != 0
        invariant
            pos <= i <= b@.len(),
            i - pos <= CSTRING_LIMIT,
            nul_index(b@, pos as int) == nul_index(b@, i as int),
        decreases b@.len() - i,
    {
        if i - pos >= CSTRING_LIMIT {
            proof {
                lemma_nul_index(b@, i + 1);
            }
            return Err(PboReadFailure::CstringTooLong);
        }
        i = i + 1;
    }
    if i >= b.len() {
        return Err(PboReadFailure::UnexpectedEof);
    }
    let s = slice_to_vec(&b[pos..i]);
    Ok((s, i + 1))
}

fn read_u32_le(b: &[u8], pos: usize) -> (r: Result<(u32, usize), PboReadFailure>)
    requires
        pos <= b@.len(),
    ensures
        match spec_u32(b@, pos as int) {
            Ok((v, p)) => r == Ok::<(u32, usize), PboReadFailure>((v, p as usize)),
            Err(f) => r == Err::<(u32, usize), PboReadFailure>(f),
        },
{
    if b.len() - pos < 4 {
        return Err(PboReadFailure::UnexpectedEof);
    }
    let v = b[pos] as u32 + (b[pos + 1] as u32) * 256 + (b[pos + 2] as u32) * 65536 + (b[pos + 3] as u32)
        * 16777216;
    Ok((v, pos + 4))
}

fn map_entry_type(t: u32) -> (r: Option<PboEntryType>)
    ensures
        r == entry_type_of(t),
{
    if t == 0x5665_7273 {
        Some(PboEntryType::Vers)
    } else if t == 0x4370_7273 {
        Some(PboEntryType::Cprs)
    } else if t == 0x456e_6372 {
        Some(PboEntryType::Enco)
    } else if t == 0 {
        Some(PboEntryType::Plain)
    } else {
        None
    }
}


// ---------------------------------------------------------------------------
// Header structure
// ---------------------------------------------------------------------------

/// A header entry as read from the bytes.
pub struct EntrySpec {
    pub name: Seq<u8>,
    pub entry_type: PboEntryType,
    pub data_size: u32,
}

/// A parsed header: its length, the extensions of the last `Vers` entry, and the entries.
pub struct MetaSpec {
    pub header_len: int,
    pub extensions: Seq<(Seq<u8>, Seq<u8>)>,
    pub entries: Seq<EntrySpec>,
}

/// Reads the key/value extension strings at `pos` up to the empty key.
pub open spec fn spec_extensions(b: Seq<u8>, pos: int, acc: Seq<(Seq<u8>, Seq<u8>)>) -> Result<
    (Seq<(Seq<u8>, Seq<u8>)>, int),
    PboReadFailure,
>
    decreases b.len() - pos,
{
    if pos < 0 || pos > b.len() {
        Err(PboReadFailure::UnexpectedEof)
    } else {
        match spec_cstring(b, pos) {
            Err(f) => Err(f),
            Ok((k, p1)) => {
                if k.len() == 0 {
                    Ok((acc, p1))
                } else {
                    proof {
                        lemma_spec_cstring(b, pos);
                    }
                    match spec_cstring(b, p1) {
                        Err(f) => Err(f),
                        Ok((v, p2)) => {
                            proof {
                                lemma_spec_cstring(b, p1);
                            }
                            spec_extensions(b, p2, acc.push((k, v)))
                        },
                    }
                }
            },
        }
    }
}

/// Reads header entries at `pos` until the terminating entry (empty name, type 0).
pub open spec fn spec_entries(
    b: Seq<u8>,
    pos: int,
    ext: Seq<(Seq<u8>, Seq<u8>)>,
    entries: Seq<EntrySpec>,
) -> Result<MetaSpec, PboReadFailure>
    decreases b.len() - pos,
{
    if pos < 0 || pos > b.len() {
        Err(PboReadFailure::UnexpectedEof)
    } else {
        match spec_cstring(b, pos) {
            Err(f) => Err(f),
            Ok((name, p1)) => {
                proof {
                    lemma_spec_cstring(b, pos);
                }
                match spec_u32(b, p1) {
                    Err(f) => Err(f),
                    Ok((t, p2)) => match entry_type_of(t) {
                        None => Err(PboReadFailure::UnknownEntryType(t)),
                        Some(ty) => {
                            if p2 + 16 > b.len() {
                                Err(PboReadFailure::UnexpectedEof)
                            } else {
                                let data_size = le_u32(b, p2 + 12);
                                let p3 = p2 + 16;
                                let entry = EntrySpec { name, entry_type: ty, data_size };
                                if ty == PboEntryType::Plain && name.len() == 0 {
                                    Ok(MetaSpec { header_len: p3, extensions: ext, entries })
                                } else if ty == PboEntryType::Vers {
                                    match spec_extensions(b, p3, Seq::empty()) {
                                        Err(f) => Err(f),
                                        Ok((ext2, p4)) => {
                                            proof {
                                                lemma_spec_extensions_progress(b, p3, Seq::empty());
                                            }
                                            spec_entries(b, p4, ext2, entries.push(entry))
                                        },
                                    }
                                } else {
                                    spec_entries(b, p3, ext, entries.push(entry))
                                }
                            }
                        },
                    },
                }
            },
        }
    }
}

pub proof fn lemma_spec_extensions_progress(b: Seq<u8>, pos: int, acc: Seq<(Seq<u8>, Seq<u8>)>)
    ensures
        spec_extensions(b, pos, acc) matches Ok((e, p)) ==> pos < p <= b.len(),
    decreases b.len() - pos,
{
    if 0 <= pos <= b.len() {
        lemma_spec_cstring(b, pos);
        if let Ok((k, p1)) = spec_cstring(b, pos) {
            if k.len() != 0 {
                lemma_spec_cstring(b, p1);
                if let Ok((v, p2)) = spec_cstring(b, p1) {
                    lemma_spec_extensions_progress(b, p2, acc.push((k, v)));
                }
            }
        }
    }
}

/// The PBO header of `b`, read from the start.
pub open spec fn spec_meta(b: Seq<u8>) -> Result<MetaSpec, PboReadFailure> {
    spec_entries(b, 0, Seq::empty(), Seq::empty())
}

/// One header entry with its name decoded.
#[derive(Debug)]
pub struct PboEntry {
    pub filename: String,
    pub entry_type: PboEntryType,
    pub data_size: u32,
}

/// A parsed PBO header.
#[derive(Debug)]
pub struct PboMeta {
    pub header_len: u64,
    pub extensions: Vec<(String, String)>,
    pub entries: Vec<PboEntry>,
}

/// Decoded extensions match the raw ones.
pub open spec fn extensions_match(v: Seq<(String, String)>, s: Seq<(Seq<u8>, Seq<u8>)>) -> bool {
    &&& v.len() == s.len()
    &&& forall|i: int|
        0 <= i < v.len() ==> (#[trigger] v[i]).0@ == utf8_lossy_chars(s[i].0) && v[i].1@ == utf8_lossy_chars(s[i].1)
}

/// Decoded entries match the raw ones.
pub open spec fn entries_match(v: Seq<PboEntry>, s: Seq<EntrySpec>) -> bool {
    &&& v.len() == s.len()
    &&& forall|i: int|
        0 <= i < v.len() ==> {
            &&& (#[trigger] v[i]).filename@ == utf8_lossy_chars(s[i].name)
            &&& v[i].entry_type == s[i].entry_type
            &&& v[i].data_size == s[i].data_size
        }
}

/// A decoded header matches the raw one.
pub open spec fn meta_matches(m: PboMeta, s: MetaSpec) -> bool {
    &&& m.header_len == s.header_len
    &&& extensions_match(m.extensions@, s.extensions)
    &&& entries_match(m.entries@, s.entries)
}

fn read_extensions(b: &[u8], pos: usize) -> (r: Result<(Vec<(String, String)>, usize), PboReadFailure>)
    requires
        pos <= b@.len(),
    ensures
        match spec_extensions(b@, pos as int, Seq::empty()) {
            Ok((ext, p)) => r matches Ok((v, q)) && extensions_match(v@, ext) && q == p,
            Err(f) => r matches Err(g) && g == f,
        },
{
    let mut out: Vec<(String, String)> = Vec::new();
    let ghost mut acc: Seq<(Seq<u8>, Seq<u8>)> = Seq::empty();
    let mut p = pos;
    loop
        invariant
            p <= b@.len(),
            spec_extensions(b@, pos as int, Seq::empty()) == spec_extensions(b@, p as int, acc),
            extensions_match(out@, acc),
        decreases b@.len() - p,
    {
        proof {
            lemma_spec_cstring(b@, p as int);
        }
        let (k, p1) = match read_cstring(b, p) {
            Ok(x) => x,
            Err(f) => {
                return Err(f);
            },
        };
        if k.len() == 0 {
            return Ok((out, p1));
        }
        proof {
            lemma_spec_cstring(b@, p1 as int);
        }
        let (v, p2) = match read_cstring(b, p1) {
            Ok(x) => x,
            Err(f) => {
                return Err(f);
            },
        };
        let ks = utf8_lossy(k.as_slice());
        let vs = utf8_lossy(v.as_slice());
        out.push((ks, vs));
        proof {
            acc = acc.push((k@, v@));
        }
        p = p2;
    }
}

/// Reads the PBO header of `b`.
pub fn read_meta(b: &[u8]) -> (r: Result<PboMeta, PboReadFailure>)
    ensures
        match spec_meta(b@) {
            Ok(m) => r matches Ok(v) && meta_matches(v, m),
            Err(f) => r matches Err(g) && g == f,
        },
{
    let mut extensions: Vec<(String, String)> = Vec::new();
    let mut entries: Vec<PboEntry> = Vec::new();
    let ghost mut ext_spec: Seq<(Seq<u8>, Seq<u8>)> = Seq::empty();
    let ghost mut entries_spec: Seq<EntrySpec> = Seq::empty();
    let mut p: usize = 0;
    loop
        invariant
            p <= b@.len(),
            spec_meta(b@) == spec_entries(b@, p as int, ext_spec, entries_spec),
            extensions_match(extensions@, ext_spec),
            entries_match(entries@, entries_spec),
        decreases b@.len() - p,
    {
        proof {
            lemma_spec_cstring(b@, p as int);
        }
        let (name, p1) = match read_cstring(b, p) {
            Ok(x) => x,
            Err(f) => {
                return Err(f);
            },
        };
        let (t, p2) = match read_u32_le(b, p1) {
            Ok(x) => x,
            Err(f) => {
                return Err(f);
            },
        };
        let ty = match map_entry_type(t) {
            Some(ty) => ty,
            None => {
                return Err(PboReadFailure::UnknownEntryType(t));
            },
        };
        if b.len() - p2 < 16 {
            return Err(PboReadFailure::UnexpectedEof);
        }
        let (data_size, _) = match read_u32_le(b, p2 + 12) {
            Ok(x) => x,
            Err(f) => {
                return Err(f);
            },
        };
        let p3 = p2 + 16;
        let is_plain = match ty {
            PboEntryType::Plain => true,
            _ => false,
        };
        let is_vers = match ty {
            PboEntryType::Vers => true,
            _ => false,
        };
        if is_plain && name.len() == 0 {
            return Ok(PboMeta { header_len: p3 as u64, extensions, entries });
        }
        let ghost entry_spec = EntrySpec { name: name@, entry_type: ty, data_size };
        let mut next = p3;
        if is_vers {
            let (ext2, p4) = match read_extensions(b, p3) {
                Ok(x) => x,
                Err(f) => {
                    return Err(f);
                },
            };
            proof {
                lemma_spec_extensions_progress(b@, p3 as int, Seq::empty());
                let ghost (e2, _q) = spec_extensions(b@, p3 as int, Seq::empty()).unwrap();
                ext_spec = e2;
            }
            extensions = ext2;
            next = p4;
        }
        let filename = utf8_lossy(name.as_slice());
        entries.push(PboEntry { filename, entry_type: ty, data_size });
        proof {
            entries_spec = entries_spec.push(entry_spec);
        }
        p = next;
    }
}


// ---------------------------------------------------------------------------
// Decoded header and partition plan
// ---------------------------------------------------------------------------

/// A decoded header entry.
pub struct EntryView {
    pub name: Seq<char>,
    pub entry_type: PboEntryType,
    pub data_size: u32,
}

/// A decoded header: its length and its entries.
pub struct MetaView {
    pub header_len: int,
    pub entries: Seq<EntryView>,
}

impl View for PboMeta {
    type V = MetaView;

    open spec fn view(&self) -> MetaView {
        MetaView {
            header_len: self.header_len as int,
            entries: self.entries@.map_values(
                |e: PboEntry| EntryView { name: e.filename@, entry_type: e.entry_type, data_size: e.data_size },
            ),
        }
    }
}

/// The decoded form of a raw header: entry names decoded like `String::from_utf8_lossy`.
pub open spec fn decoded_meta(m: MetaSpec) -> MetaView {
    MetaView {
        header_len: m.header_len,
        entries: m.entries.map_values(
            |e: EntrySpec| EntryView { name: utf8_lossy_chars(e.name), entry_type: e.entry_type, data_size: e.data_size },
        ),
    }
}

pub proof fn lemma_meta_matches_view(m: PboMeta, s: MetaSpec)
    requires
        meta_matches(m, s),
    ensures
        m@ == decoded_meta(s),
{
    assert(m@.entries =~= decoded_meta(s).entries);
}

/// One planned part of a PBO: its name and byte range.
#[derive(Debug, Clone)]
pub struct SwiftyPboPartPlan {
    pub path: String,
    pub start: u64,
    pub length: u64,
}

/// A planned part as mathematical values.
pub struct PlanView {
    pub path: Seq<char>,
    pub start: int,
    pub length: int,
}

impl View for SwiftyPboPartPlan {
    type V = PlanView;

    open spec fn view(&self) -> PlanView {
        PlanView { path: self.path@, start: self.start as int, length: self.length as int }
    }
}

/// The views of a list of planned parts.
pub open spec fn plans_view(ps: Seq<SwiftyPboPartPlan>) -> Seq<PlanView> {
    ps.map_values(|p: SwiftyPboPartPlan| p@)
}

/// Plans the payload parts of entries `i..`, starting at byte `offset`, after `acc`.
pub open spec fn spec_plan_entries(
    entries: Seq<EntryView>,
    i: int,
    offset: int,
    file_len: int,
    acc: Seq<PlanView>,
) -> Result<(Seq<PlanView>, int), Seq<char>>
    decreases entries.len() - i,
{
    if i < 0 || i >= entries.len() {
        Ok((acc, offset))
    } else {
        let size = entries[i].data_size as int;
        let end = offset + size;
        if end > u64::MAX {
            Err("entry offset overflow"@)
        } else if end > file_len {
            Err("entry exceeds file length"@)
        } else {
            spec_plan_entries(
                entries,
                i + 1,
                end,
                file_len,
                acc.push(PlanView { path: entries[i].name, start: offset, length: size }),
            )
        }
    }
}

/// The Swifty partition of a PBO of `file_len` bytes with header `m`, or why there is none.
pub open spec fn spec_partition(m: MetaView, file_len: int) -> Result<Seq<PlanView>, Seq<char>> {
    if m.header_len > file_len {
        Err("header_len exceeds file length"@)
    } else if m.entries.len() == 0 {
        Err("missing pbo entries"@)
    } else if m.entries[0].data_size != 0 {
        Err("first entry has non-zero size"@)
    } else {
        match spec_plan_entries(
            m.entries,
            1,
            m.header_len,
            file_len,
            seq![PlanView { path: "$$HEADER$$"@, start: 0, length: m.header_len }],
        ) {
            Err(e) => Err(e),
            Ok((acc, offset)) => Ok(acc.push(PlanView { path: "$$END$$"@, start: offset, length: file_len - offset })),
        }
    }
}

/// Planned parts follow each other from 0 without gaps.
pub open spec fn plan_contiguous(ps: Seq<PlanView>) -> bool {
    &&& ps.len() > 0 ==> ps[0].start == 0
    &&& forall|i: int| 0 < i < ps.len() ==> (#[trigger] ps[i]).start == ps[i - 1].start + ps[i - 1].length
    &&& forall|i: int| 0 <= i < ps.len() ==> 0 <= (#[trigger] ps[i]).length
}

pub proof fn lemma_plan_entries(entries: Seq<EntryView>, i: int, offset: int, file_len: int, acc: Seq<PlanView>)
    requires
        acc.len() > 0,
        plan_contiguous(acc),
        acc.last().start + acc.last().length == offset,
        0 <= offset <= file_len,
        1 <= i,
    ensures
        spec_plan_entries(entries, i, offset, file_len, acc) matches Ok((acc2, off2)) ==> {
            &&& plan_contiguous(acc2)
            &&& acc2.len() > 0
            &&& acc2.last().start + acc2.last().length == off2
            &&& offset <= off2 <= file_len
        },
    decreases entries.len() - i,
{
    if i < entries.len() {
        let size = entries[i].data_size as int;
        let end = offset + size;
        if end <= u64::MAX && end <= file_len {
            let acc1 = acc.push(PlanView { path: entries[i].name, start: offset, length: size });
            assert(plan_contiguous(acc1)) by {
                assert forall|k: int| 0 < k < acc1.len() implies (#[trigger] acc1[k]).start == acc1[k - 1].start
                    + acc1[k - 1].length by {
                    if k < acc.len() {
                        assert(acc1[k] == acc[k] && acc1[k - 1] == acc[k - 1]);
                    }
                }
                assert forall|k: int| 0 <= k < acc1.len() implies 0 <= (#[trigger] acc1[k]).length by {
                    if k < acc.len() {
                        assert(acc1[k] == acc[k]);
                    }
                }
            }
            lemma_plan_entries(entries, i + 1, end, file_len, acc1);
        }
    }
}

/// A successful partition starts at 0, has no gaps, and ends at the file length.
pub proof fn lemma_partition_covers(m: MetaView, file_len: int)
    requires
        0 <= m.header_len,
        0 <= file_len,
    ensures
        spec_partition(m, file_len) matches Ok(plan) ==> {
            &&& plan.len() > 0
            &&& plan_contiguous(plan)
            &&& plan.last().start + plan.last().length == file_len
        },
{
    if m.header_len <= file_len && m.entries.len() > 0 && m.entries[0].data_size == 0 {
        let head = seq![PlanView { path: "$$HEADER$$"@, start: 0, length: m.header_len }];
        lemma_plan_entries(m.entries, 1, m.header_len, file_len, head);
        if let Ok((acc, offset)) = spec_plan_entries(m.entries, 1, m.header_len, file_len, head) {
            let plan = acc.push(PlanView { path: "$$END$$"@, start: offset, length: file_len - offset });
            assert forall|k: int| 0 < k < plan.len() implies (#[trigger] plan[k]).start == plan[k - 1].start
                + plan[k - 1].length by {
                if k < acc.len() {
                    assert(plan[k] == acc[k] && plan[k - 1] == acc[k - 1]);
                }
            }
            assert forall|k: int| 0 <= k < plan.len() implies 0 <= (#[trigger] plan[k]).length by {
                if k < acc.len() {
                    assert(plan[k] == acc[k]);
                }
            }
        }
    }
}

/// Splits a parsed PBO into its Swifty parts: header, one part per entry payload
/// (skipping the first dummy entry), and the trailing bytes.
pub fn pbo_partition_named_from_meta(meta: &PboMeta, file_len: u64, file_path: &str) -> (r: Result<
    Vec<SwiftyPboPartPlan>,
    SwiftyError,
>)
    ensures
        match spec_partition(meta@, file_len as int) {
            Ok(plan) => r matches Ok(v) && plans_view(v@) == plan,
            Err(reason) => r matches Err(e) && e@ == SwiftyErrorView::InvalidPbo { file: file_path@, reason },
        },
{
    if meta.header_len > file_len {
        return Err(SwiftyError::InvalidPbo { file: owned(file_path), reason: owned("header_len exceeds file length") });
    }
    if meta.entries.len() == 0 {
        return Err(SwiftyError::InvalidPbo { file: owned(file_path), reason: owned("missing pbo entries") });
    }
    if meta.entries[0].data_size != 0 {
        return Err(SwiftyError::InvalidPbo { file: owned(file_path), reason: owned("first entry has non-zero size") });
    }
    let ghost mv = meta@;
    let mut parts: Vec<SwiftyPboPartPlan> = Vec::new();
    parts.push(SwiftyPboPartPlan { path: owned("$$HEADER$$"), start: 0, length: meta.header_len });
    let ghost head = seq![PlanView { path: "$$HEADER$$"@, start: 0, length: mv.header_len }];
    assert(plans_view(parts@) =~= head);
    let mut offset = meta.header_len;
    let mut i: usize = 1;
    while i < meta.entries.len()
        invariant
            1 <= i <= meta.entries@.len(),
            mv == meta@,
            mv.entries.len() == meta.entries@.len(),
            mv.header_len <= file_len,
            mv.entries.len() > 0,
            mv.entries[0].data_size == 0,
            head == seq![PlanView { path: "$$HEADER$$"@, start: 0, length: mv.header_len }],
            offset <= file_len,
            spec_plan_entries(mv.entries, 1, mv.header_len, file_len as int, head) == spec_plan_entries(
                mv.entries,
                i as int,
                offset as int,
                file_len as int,
                plans_view(parts@),
            ),
        decreases meta.entries@.len() - i,
    {
        let size = meta.entries[i].data_size as u64;
        assert(mv.entries[i as int].data_size == meta.entries@[i as int].data_size);
        let end = match offset.checked_add(size) {
            Some(e) => e,
            None => {
                return Err(SwiftyError::InvalidPbo { file: owned(file_path), reason: owned("entry offset overflow") });
            },
        };
        if end > file_len {
            return Err(SwiftyError::InvalidPbo { file: owned(file_path), reason: owned("entry exceeds file length") });
        }
        let name = meta.entries[i].filename.clone();
        let ghost old_parts = parts@;
        parts.push(SwiftyPboPartPlan { path: name, start: offset, length: size });
        assert(plans_view(parts@) =~= plans_view(old_parts).push(
            PlanView { path: mv.entries[i as int].name, start: offset as int, length: size as int },
        ));
        offset = end;
        i = i + 1;
    }
    let ghost acc = plans_view(parts@);
    let tail = file_len - offset;
    let ghost before = parts@;
    parts.push(SwiftyPboPartPlan { path: owned("$$END$$"), start: offset, length: tail });
    assert(plans_view(parts@) =~= plans_view(before).push(
        PlanView { path: "$$END$$"@, start: offset as int, length: file_len - offset },
    ));
    Ok(parts)
}


// ---------------------------------------------------------------------------
// Parts of a PBO
// ---------------------------------------------------------------------------

/// Big-endian bytes of a `u32`.
pub open spec fn be_bytes_u32(t: u32) -> Seq<u8> {
    seq![(t / 16777216) as u8, ((t / 65536) % 256) as u8, ((t / 256) % 256) as u8, (t % 256) as u8]
}

/// The text of a header read failure.
pub open spec fn read_failure_text(f: PboReadFailure) -> Seq<char> {
    match f {
        PboReadFailure::UnexpectedEof => "failed to fill whole buffer"@,
        PboReadFailure::CstringTooLong => "cstring too long"@,
        PboReadFailure::UnknownEntryType(t) => "unknown pbo entry type: 0x"@ + hex_upper_chars(be_bytes_u32(t)),
    }
}

/// The text of a header read failure.
pub fn read_failure_message(f: PboReadFailure) -> (s: String)
    ensures
        s@ == read_failure_text(f),
{
    match f {
        PboReadFailure::UnexpectedEof => owned("failed to fill whole buffer"),
        PboReadFailure::CstringTooLong => owned("cstring too long"),
        PboReadFailure::UnknownEntryType(t) => {
            let be: [u8; 4] = [(t / 16777216) as u8, ((t / 65536) % 256) as u8, ((t / 256) % 256) as u8, (t % 256) as u8];
            let bs = be.as_slice();
            assert(bs@ =~= be_bytes_u32(t));
            let digits = hex_encode_upper(bs);
            concat_str("unknown pbo entry type: 0x", digits.as_str())
        },
    }
}

/// The Swifty partition plan of a PBO of `file_len` bytes whose header is read from `b`.
pub open spec fn pbo_plan_spec(file_path: Seq<char>, b: Seq<u8>, file_len: int) -> Result<Seq<PlanView>, SwiftyErrorView> {
    match spec_meta(b) {
        Err(f) => Err(SwiftyErrorView::InvalidPbo { file: file_path, reason: read_failure_text(f) }),
        Ok(m) => match spec_partition(decoded_meta(m), file_len) {
            Err(reason) => Err(SwiftyErrorView::InvalidPbo { file: file_path, reason }),
            Ok(plan) => Ok(plan),
        },
    }
}

/// Like `pbo_plan_spec`, after checking that the file path is ASCII.
pub open spec fn pbo_parts_spec(file_path: Seq<char>, b: Seq<u8>, file_len: int) -> Result<Seq<PlanView>, SwiftyErrorView> {
    if !is_ascii_chars(file_path) {
        Err(SwiftyErrorView::NonAsciiPath(non_ascii_message("pbo file path"@, file_path)))
    } else {
        pbo_plan_spec(file_path, b, file_len)
    }
}

/// Parts carry the names and byte ranges of a plan.
pub open spec fn parts_follow_plan(parts: Seq<PartView>, plan: Seq<PlanView>) -> bool {
    &&& parts.len() == plan.len()
    &&& forall|k: int|
        0 <= k < parts.len() ==> {
            &&& (#[trigger] parts[k]).path == plan[k].path
            &&& parts[k].start == plan[k].start
            &&& parts[k].length == plan[k].length
        }
}

/// Every part's checksum is the MD5 of as many zero bytes as the part is long.
pub open spec fn parts_hash_zeroes(parts: Seq<PartView>) -> bool {
    forall|k: int| 0 <= k < parts.len() ==> (#[trigger] parts[k]).checksum == md5_digest(
        Seq::new(parts[k].length as nat, |i: int| 0u8),
    )
}

pub proof fn lemma_plan_parts_cover(parts: Seq<PartView>, plan: Seq<PlanView>, file_len: int)
    requires
        parts_follow_plan(parts, plan),
        plan.len() > 0,
        plan_contiguous(plan),
        plan.last().start + plan.last().length == file_len,
    ensures
        parts_cover_file(parts, file_len),
{
    assert(parts_contiguous(parts)) by {
        assert forall|i: int| 0 < i < parts.len() implies (#[trigger] parts[i]).start == part_end(parts[i - 1]) by {
            assert(plan[i].start == plan[i - 1].start + plan[i - 1].length);
        }
    }
}

/// Reads a PBO header from `b` and plans the parts of a file of `file_len` bytes.
pub fn pbo_plan_from_bytes(file_path: &str, b: &[u8], file_len: u64) -> (r: Result<Vec<SwiftyPboPartPlan>, SwiftyError>)
    ensures
        match pbo_plan_spec(file_path@, b@, file_len as int) {
            Ok(plan) => r matches Ok(v) && plans_view(v@) == plan,
            Err(e) => r matches Err(x) && x@ == e,
        },
        r is Ok ==> spec_meta(b@) is Ok,
{
    let meta = match read_meta(b) {
        Ok(m) => m,
        Err(f) => {
            return Err(SwiftyError::InvalidPbo { file: owned(file_path), reason: read_failure_message(f) });
        },
    };
    proof {
        lemma_meta_matches_view(meta, spec_meta(b@).unwrap());
    }
    pbo_partition_named_from_meta(&meta, file_len, file_path)
}

/// SwiftyPboFile parts of an in-memory `.pbo`, with the MD5 of each part.
pub fn swifty_pbo_parts_from_bytes(file_path: &str, contents: &[u8]) -> (r: Result<Vec<SrfPart>, SwiftyError>)
    ensures
        match pbo_parts_spec(file_path@, contents@, contents@.len() as int) {
            Ok(plan) => r matches Ok(parts) && parts_follow_plan(parts_view(parts@), plan) && parts_hash_bytes(
                parts_view(parts@),
                contents@,
            ) && parts_cover_file(parts_view(parts@), contents@.len() as int),
            Err(e) => r matches Err(x) && x@ == e,
        },
{
    match ensure_ascii_path("pbo file path", file_path) {
        Ok(()) => {},
        Err(e) => {
            return Err(e);
        },
    }
    let file_len = contents.len() as u64;
    let plan = match pbo_plan_from_bytes(file_path, contents, file_len) {
        Ok(p) => p,
        Err(e) => {
            return Err(e);
        },
    };
    proof {
        let m = spec_meta(contents@).unwrap();
        lemma_meta_header_len(contents@);
        lemma_partition_covers(decoded_meta(m), file_len as int);
    }
    let out = hash_plan_covering(plan.as_slice(), contents);
    match validate_part_coverage(file_path, file_len, out.as_slice()) {
        Ok(()) => {},
        Err(e) => {
            return Err(e);
        },
    }
    Ok(out)
}

/// SwiftyPboFile parts of a `.pbo` of `file_len` bytes whose header is read from
/// `contents`, the file's leading bytes; each part's checksum is the MD5 of as many
/// zero bytes as the part is long, so no payload byte is read.
pub fn swifty_pbo_parts_zero_md5_from_reader(file_path: &str, contents: &[u8], file_len: u64) -> (r: Result<
    Vec<SrfPart>,
    SwiftyError,
>)
    ensures
        match pbo_parts_spec(file_path@, contents@, file_len as int) {
            Ok(plan) => r matches Ok(parts) && parts_follow_plan(parts_view(parts@), plan) && parts_hash_zeroes(
                parts_view(parts@),
            ) && parts_cover_file(parts_view(parts@), file_len as int),
            Err(e) => r matches Err(x) && x@ == e,
        },
{
    match ensure_ascii_path("pbo file path", file_path) {
        Ok(()) => {},
        Err(e) => {
            return Err(e);
        },
    }
    let plan = match pbo_plan_from_bytes(file_path, contents, file_len) {
        Ok(p) => p,
        Err(e) => {
            return Err(e);
        },
    };
    proof {
        let m = spec_meta(contents@).unwrap();
        lemma_meta_header_len(contents@);
        lemma_partition_covers(decoded_meta(m), file_len as int);
    }
    let out = zero_md5_planned_parts(plan.as_slice());
    proof {
        lemma_plan_parts_cover(parts_view(out@), plans_view(plan@), file_len as int);
    }
    match validate_part_coverage(file_path, file_len, out.as_slice()) {
        Ok(()) => {},
        Err(e) => {
            return Err(e);
        },
    }
    Ok(out)
}

/// What `swifty_pbo_part_plan_from_prefix` makes of the first bytes of a PBO:
/// `None` while the header is still incomplete, the plan once it is complete,
/// and `InvalidPbo` for a header that cannot become valid with more bytes.
pub open spec fn prefix_plan_spec(file_path: Seq<char>, prefix: Seq<u8>, file_len: int) -> Result<
    Option<Seq<PlanView>>,
    SwiftyErrorView,
> {
    match spec_meta(prefix) {
        Err(PboReadFailure::UnexpectedEof) => Ok(None),
        Err(f) => Err(SwiftyErrorView::InvalidPbo { file: file_path, reason: read_failure_text(f) }),
        Ok(m) => match spec_partition(decoded_meta(m), file_len) {
            Err(reason) => Err(SwiftyErrorView::InvalidPbo { file: file_path, reason }),
            Ok(plan) => Ok(Some(plan)),
        },
    }
}

/// Plans the parts of a PBO of `file_len` bytes from the bytes received so far.
pub fn swifty_pbo_part_plan_from_prefix(file_path: &str, prefix: &[u8], file_len: u64) -> (r: Result<
    Option<Vec<SwiftyPboPartPlan>>,
    SwiftyError,
>)
    ensures
        match prefix_plan_spec(file_path@, prefix@, file_len as int) {
            Ok(None) => r matches Ok(None),
            Ok(Some(plan)) => r matches Ok(Some(v)) && plans_view(v@) == plan,
            Err(e) => r matches Err(x) && x@ == e,
        },
{
    let meta = match read_meta(prefix) {
        Ok(m) => m,
        Err(PboReadFailure::UnexpectedEof) => {
            return Ok(None);
        },
        Err(f) => {
            return Err(SwiftyError::InvalidPbo { file: owned(file_path), reason: read_failure_message(f) });
        },
    };
    proof {
        lemma_meta_matches_view(meta, spec_meta(prefix@).unwrap());
    }
    match pbo_partition_named_from_meta(&meta, file_len, file_path) {
        Ok(plan) => Ok(Some(plan)),
        Err(e) => Err(e),
    }
}

/// Hashes the parts of a plan that covers `contents` exactly.
fn hash_plan_covering(plan: &[SwiftyPboPartPlan], contents: &[u8]) -> (out: Vec<SrfPart>)
    requires
        plan@.len() > 0,
        plan_contiguous(plans_view(plan@)),
        plans_view(plan@).last().start + plans_view(plan@).last().length == contents@.len(),
    ensures
        parts_follow_plan(parts_view(out@), plans_view(plan@)),
        parts_hash_bytes(parts_view(out@), contents@),
        parts_cover_file(parts_view(out@), contents@.len() as int),
{
    proof {
        lemma_plan_all_bounds(plans_view(plan@), contents@.len() as int);
        assert forall|k: int| 0 <= k < plan@.len() implies (#[trigger] plan@[k]).start + plan@[k].length
            <= contents@.len() by {
            assert(plans_view(plan@)[k] == plan@[k]@);
        }
    }
    let out = hash_planned_parts(plan, contents);
    proof {
        lemma_plan_parts_cover(parts_view(out@), plans_view(plan@), contents@.len() as int);
    }
    out
}

/// Every planned part lies inside the file.
pub proof fn lemma_plan_all_bounds(plan: Seq<PlanView>, file_len: int)
    requires
        plan_contiguous(plan),
        plan.len() > 0,
        plan.last().start + plan.last().length == file_len,
    ensures
        forall|k: int| 0 <= k < plan.len() ==> 0 <= (#[trigger] plan[k]).start && plan[k].start + plan[k].length <= file_len,
{
    assert forall|k: int| 0 <= k < plan.len() implies 0 <= (#[trigger] plan[k]).start && plan[k].start + plan[k].length
        <= file_len by {
        lemma_plan_bounds(plan, k, file_len);
    }
}

/// Parts for a plan, each with the MD5 of its byte range of `contents`.
fn hash_planned_parts(plan: &[SwiftyPboPartPlan], contents: &[u8]) -> (out: Vec<SrfPart>)
    requires
        forall|k: int| 0 <= k < plan@.len() ==> (#[trigger] plan@[k]).start + plan@[k].length <= contents@.len(),
    ensures
        parts_follow_plan(parts_view(out@), plans_view(plan@)),
        parts_hash_bytes(parts_view(out@), contents@),
{
    let mut out: Vec<SrfPart> = Vec::new();
    let mut k: usize = 0;
    while k < plan.len()
        invariant
            0 <= k <= plan@.len(),
            forall|j: int| 0 <= j < plan@.len() ==> (#[trigger] plan@[j]).start + plan@[j].length <= contents@.len(),
            parts_follow_plan(parts_view(out@), plans_view(plan@).take(k as int)),
            parts_hash_bytes(parts_view(out@), contents@),
        decreases plan@.len() - k,
    {
        let p = &plan[k];
        let n = contents.len();
        assert(p.start + p.length <= n) by {
            assert(plan@[k as int].start + plan@[k as int].length <= contents@.len());
        }
        let start = p.start as usize;
        let end = (p.start + p.length) as usize;
        let digest = part_md5_from_bytes(&contents[start..end]);
        let ghost old_out = out@;
        out.push(SrfPart { path: p.path.clone(), start: p.start, length: p.length, checksum: digest });
        assert(parts_view(out@) =~= parts_view(old_out).push(out@[k as int]@));
        assert(plans_view(plan@).take(k + 1) =~= plans_view(plan@).take(k as int).push(plan@[k as int]@));
        k = k + 1;
    }
    assert(plans_view(plan@).take(plan@.len() as int) =~= plans_view(plan@));
    out
}

/// Parts for a plan, each with the MD5 of as many zero bytes as it is long.
fn zero_md5_planned_parts(plan: &[SwiftyPboPartPlan]) -> (out: Vec<SrfPart>)
    ensures
        parts_follow_plan(parts_view(out@), plans_view(plan@)),
        parts_hash_zeroes(parts_view(out@)),
{
    let mut out: Vec<SrfPart> = Vec::new();
    let mut k: usize = 0;
    while k < plan.len()
        invariant
            0 <= k <= plan@.len(),
            parts_follow_plan(parts_view(out@), plans_view(plan@).take(k as int)),
            parts_hash_zeroes(parts_view(out@)),
        decreases plan@.len() - k,
    {
        let p = &plan[k];
        let digest = part_md5_zeroes(p.length);
        let ghost old_out = out@;
        out.push(SrfPart { path: p.path.clone(), start: p.start, length: p.length, checksum: digest });
        assert(parts_view(out@) =~= parts_view(old_out).push(out@[k as int]@));
        assert(plans_view(plan@).take(k + 1) =~= plans_view(plan@).take(k as int).push(plan@[k as int]@));
        k = k + 1;
    }
    assert(plans_view(plan@).take(plan@.len() as int) =~= plans_view(plan@));
    out
}

/// A planned part lies inside the file.
pub proof fn lemma_plan_bounds(plan: Seq<PlanView>, k: int, file_len: int)
    requires
        plan_contiguous(plan),
        plan.len() > 0,
        plan.last().start + plan.last().length == file_len,
        0 <= k < plan.len(),
    ensures
        0 <= plan[k].start,
        plan[k].start + plan[k].length <= file_len,
    decreases plan.len() - k,
{
    if k < plan.len() - 1 {
        lemma_plan_bounds(plan, k + 1, file_len);
        assert(plan[k + 1].start == plan[k].start + plan[k].length);
        assert(0 <= plan[k + 1].length);
    }
    lemma_plan_start_nonneg(plan, k);
}

pub proof fn lemma_plan_start_nonneg(plan: Seq<PlanView>, k: int)
    requires
        plan_contiguous(plan),
        0 <= k < plan.len(),
    ensures
        0 <= plan[k].start,
    decreases k,
{
    if k > 0 {
        lemma_plan_start_nonneg(plan, k - 1);
        assert(0 <= plan[k - 1].length);
    }
}

/// The header length of a parsed PBO is within the bytes read.
pub proof fn lemma_meta_header_len(b: Seq<u8>)
    ensures
        spec_meta(b) matches Ok(m) ==> 0 <= m.header_len <= b.len(),
{
    lemma_entries_header_len(b, 0, Seq::empty(), Seq::empty());
}

pub proof fn lemma_entries_header_len(b: Seq<u8>, pos: int, ext: Seq<(Seq<u8>, Seq<u8>)>, entries: Seq<EntrySpec>)
    ensures
        spec_entries(b, pos, ext, entries) matches Ok(m) ==> 0 <= m.header_len <= b.len(),
    decreases b.len() - pos,
{
    if 0 <= pos <= b.len() {
        lemma_spec_cstring(b, pos);
        if let Ok((name, p1)) = spec_cstring(b, pos) {
            if let Ok((t, p2)) = spec_u32(b, p1) {
                if let Some(ty) = entry_type_of(t) {
                    if p2 + 16 <= b.len() {
                        let entry = EntrySpec { name, entry_type: ty, data_size: le_u32(b, p2 + 12) };
                        if ty == PboEntryType::Plain && name.len() == 0 {
                        } else if ty == PboEntryType::Vers {
                            lemma_spec_extensions_progress(b, p2 + 16, Seq::empty());
                            if let Ok((ext2, p4)) = spec_extensions(b, p2 + 16, Seq::empty()) {
                                lemma_entries_header_len(b, p4, ext2, entries.push(entry));
                            }
                        } else {
                            lemma_entries_header_len(b, p2 + 16, ext, entries.push(entry));
                        }
                    }
                }
            }
        }
    }
}


// ---------------------------------------------------------------------------
// Reading a header from a prefix of the file
// ---------------------------------------------------------------------------

/// A read whose answer more bytes cannot change: a success, or a failure other
/// than running out of bytes.
pub open spec fn read_settled<T>(r: Result<T, PboReadFailure>) -> bool {
    match r {
        Ok(_) => true,
        Err(f) => f != PboReadFailure::UnexpectedEof,
    }
}

proof fn lemma_nul_index_prefix(b: Seq<u8>, more: Seq<u8>, pos: int)
    requires
        0 <= pos <= b.len(),
    ensures
        nul_index(b, pos) < b.len() ==> nul_index(b + more, pos) == nul_index(b, pos),
        nul_index(b + more, pos) >= nul_index(b, pos),
    decreases b.len() - pos,
{
    let c = b + more;
    if pos < b.len() {
        assert(c[pos] == b[pos]);
        if b[pos] != 0 {
            lemma_nul_index_prefix(b, more, pos + 1);
        }
    } else {
        lemma_nul_index(c, pos);
    }
}

proof fn lemma_cstring_prefix(b: Seq<u8>, more: Seq<u8>, pos: int)
    requires
        0 <= pos <= b.len(),
    ensures
        read_settled(spec_cstring(b, pos)) ==> spec_cstring(b + more, pos) == spec_cstring(b, pos),
{
    lemma_nul_index_prefix(b, more, pos);
    lemma_nul_index(b, pos);
    let e = nul_index(b, pos);
    if e < b.len() && e - pos <= CSTRING_LIMIT {
        assert((b + more).subrange(pos, e) =~= b.subrange(pos, e));
    }
}

proof fn lemma_u32_prefix(b: Seq<u8>, more: Seq<u8>, pos: int)
    requires
        0 <= pos,
    ensures
        read_settled(spec_u32(b, pos)) ==> spec_u32(b + more, pos) == spec_u32(b, pos),
{
    if pos + 4 <= b.len() {
        let c = b + more;
        assert(c[pos] == b[pos] && c[pos + 1] == b[pos + 1] && c[pos + 2] == b[pos + 2] && c[pos + 3] == b[pos + 3]);
    }
}

proof fn lemma_extensions_prefix(b: Seq<u8>, more: Seq<u8>, pos: int, acc: Seq<(Seq<u8>, Seq<u8>)>)
    ensures
        read_settled(spec_extensions(b, pos, acc)) ==> spec_extensions(b + more, pos, acc) == spec_extensions(
            b,
            pos,
            acc,
        ),
    decreases b.len() - pos,
{
    if 0 <= pos <= b.len() {
        lemma_cstring_prefix(b, more, pos);
        lemma_spec_cstring(b, pos);
        if let Ok((k, p1)) = spec_cstring(b, pos) {
            if k.len() != 0 {
                lemma_cstring_prefix(b, more, p1);
                lemma_spec_cstring(b, p1);
                if let Ok((v, p2)) = spec_cstring(b, p1) {
                    lemma_extensions_prefix(b, more, p2, acc.push((k, v)));
                }
            }
        }
    }
}

proof fn lemma_entries_prefix(
    b: Seq<u8>,
    more: Seq<u8>,
    pos: int,
    ext: Seq<(Seq<u8>, Seq<u8>)>,
    entries: Seq<EntrySpec>,
)
    ensures
        read_settled(spec_entries(b, pos, ext, entries)) ==> spec_entries(b + more, pos, ext, entries)
            == spec_entries(b, pos, ext, entries),
    decreases b.len() - pos,
{
    let c = b + more;
    if 0 <= pos <= b.len() {
        lemma_cstring_prefix(b, more, pos);
        lemma_spec_cstring(b, pos);
        if let Ok((name, p1)) = spec_cstring(b, pos) {
            lemma_u32_prefix(b, more, p1);
            if let Ok((t, p2)) = spec_u32(b, p1) {
                if let Some(ty) = entry_type_of(t) {
                    if p2 + 16 <= b.len() {
                        assert(c[p2 + 12] == b[p2 + 12] && c[p2 + 13] == b[p2 + 13] && c[p2 + 14] == b[p2 + 14]
                            && c[p2 + 15] == b[p2 + 15]);
                        assert(le_u32(c, p2 + 12) == le_u32(b, p2 + 12));
                        let entry = EntrySpec { name, entry_type: ty, data_size: le_u32(b, p2 + 12) };
                        if ty == PboEntryType::Plain && name.len() == 0 {
                        } else if ty == PboEntryType::Vers {
                            lemma_extensions_prefix(b, more, p2 + 16, Seq::empty());
                            lemma_spec_extensions_progress(b, p2 + 16, Seq::empty());
                            if let Ok((ext2, p4)) = spec_extensions(b, p2 + 16, Seq::empty()) {
                                lemma_entries_prefix(b, more, p4, ext2, entries.push(entry));
                            }
                        } else {
                            lemma_entries_prefix(b, more, p2 + 16, ext, entries.push(entry));
                        }
                    }
                }
            }
        }
    } else {
    }
}

/// Reading a header from the first bytes of a file gives the answer the whole file
/// gives, unless those bytes ran out before the header did.
pub proof fn law_header_read_prefix_stable(b: Seq<u8>, more: Seq<u8>)
    ensures
        read_settled(spec_meta(b)) ==> spec_meta(b + more) == spec_meta(b),
{
    lemma_entries_prefix(b, more, 0, Seq::empty(), Seq::empty());
}

/// Once the first bytes of a PBO settle its plan (a plan or an invalid header),
/// more bytes do not change it.
pub proof fn law_prefix_plan_stable(file_path: Seq<char>, b: Seq<u8>, more: Seq<u8>, file_len: int)
    ensures
        !(prefix_plan_spec(file_path, b, file_len) is Ok && prefix_plan_spec(file_path, b, file_len)->Ok_0 is None)
            ==> prefix_plan_spec(file_path, b + more, file_len) == prefix_plan_spec(file_path, b, file_len),
        prefix_plan_spec(file_path, b + more, file_len) == Ok::<Option<Seq<PlanView>>, SwiftyErrorView>(None)
            ==> prefix_plan_spec(file_path, b, file_len) == Ok::<Option<Seq<PlanView>>, SwiftyErrorView>(None),
{
    law_header_read_prefix_stable(b, more);
}

// ---------------------------------------------------------------------------
// Extension blocks
// ---------------------------------------------------------------------------

/// A header string that reads back whole: no NUL inside and within `CSTRING_LIMIT`.
pub open spec fn header_string_ok(s: Seq<u8>) -> bool {
    &&& s.len() <= CSTRING_LIMIT
    &&& forall|i: int| 0 <= i < s.len() ==> #[trigger] s[i] != 0
}

/// Key/value pairs that can stand in an extension block: every key non-empty, and
/// keys and values are header strings.
pub open spec fn extension_pairs_ok(pairs: Seq<(Seq<u8>, Seq<u8>)>) -> bool {
    forall|j: int|
        0 <= j < pairs.len() ==> {
            &&& (#[trigger] pairs[j]).0.len() > 0
            &&& header_string_ok(pairs[j].0)
            &&& header_string_ok(pairs[j].1)
        }
}

/// The bytes of key/value pairs in an extension block: each key then each value,
/// every one NUL-terminated (the empty key that ends the block is not included).
pub open spec fn extension_block(pairs: Seq<(Seq<u8>, Seq<u8>)>) -> Seq<u8>
    decreases pairs.len(),
{
    if pairs.len() == 0 {
        Seq::empty()
    } else {
        pairs[0].0 + seq![0u8] + pairs[0].1 + seq![0u8] + extension_block(pairs.drop_first())
    }
}

/// The bytes of a `Vers` header entry: its name, NUL, the type word `Vers` and the
/// 16 bytes of its remaining fields.
pub open spec fn vers_entry_bytes(name: Seq<u8>, fields: Seq<u8>) -> Seq<u8> {
    name + seq![0u8, 0x73u8, 0x72u8, 0x65u8, 0x56u8] + fields
}

/// Two header reads agree up to the extension block: both fail alike, or both give
/// the same entries, header lengths `shift` apart, and the same extensions unless
/// those are `ext1` and `ext0`.
pub open spec fn header_reads_alike(
    r1: Result<MetaSpec, PboReadFailure>,
    r0: Result<MetaSpec, PboReadFailure>,
    shift: int,
    ext1: Seq<(Seq<u8>, Seq<u8>)>,
    ext0: Seq<(Seq<u8>, Seq<u8>)>,
) -> bool {
    match r1 {
        Err(f1) => r0 == Err::<MetaSpec, PboReadFailure>(f1),
        Ok(m1) => match r0 {
            Err(_) => false,
            Ok(m0) => {
                &&& m1.entries == m0.entries
                &&& m1.header_len == m0.header_len + shift
                &&& (m1.extensions == m0.extensions || (m1.extensions == ext1 && m0.extensions == ext0))
            },
        },
    }
}

proof fn lemma_nul_index_at(b: Seq<u8>, pos: int, e: int)
    requires
        0 <= pos <= e < b.len(),
        b[e] == 0,
        forall|i: int| pos <= i < e ==> b[i] != 0,
    ensures
        nul_index(b, pos) == e,
    decreases e - pos,
{
    if pos < e {
        lemma_nul_index_at(b, pos + 1, e);
    }
}

proof fn lemma_cstring_at(b: Seq<u8>, pos: int, s: Seq<u8>)
    requires
        0 <= pos,
        header_string_ok(s),
        pos + s.len() < b.len(),
        b.subrange(pos, pos + s.len() + 1) == s.push(0u8),
    ensures
        spec_cstring(b, pos) == Ok::<(Seq<u8>, int), PboReadFailure>((s, pos + s.len() + 1)),
{
    let w = s.push(0u8);
    assert forall|i: int| pos <= i < pos + s.len() implies b[i] != 0 by {
        assert(b.subrange(pos, pos + s.len() + 1)[i - pos] == w[i - pos]);
    }
    assert(b.subrange(pos, pos + s.len() + 1)[s.len() as int] == w[s.len() as int]);
    lemma_nul_index_at(b, pos, pos + s.len());
    assert(b.subrange(pos, pos + s.len()) =~= s) by {
        assert forall|i: int| 0 <= i < s.len() implies b.subrange(pos, pos + s.len())[i] == s[i] by {
            assert(b.subrange(pos, pos + s.len() + 1)[i] == w[i]);
        }
    }
}

/// Reading an extension block consumes every key/value pair, up to and including
/// the empty key that ends it: all pairs are returned in order, and reading goes on
/// right after the block's final NUL.
pub proof fn law_extension_block_read_whole(
    b: Seq<u8>,
    pos: int,
    pairs: Seq<(Seq<u8>, Seq<u8>)>,
    acc: Seq<(Seq<u8>, Seq<u8>)>,
)
    requires
        extension_pairs_ok(pairs),
        0 <= pos,
        pos + extension_block(pairs).len() < b.len(),
        b.subrange(pos, pos + extension_block(pairs).len() + 1) == extension_block(pairs).push(0u8),
    ensures
        spec_extensions(b, pos, acc) == Ok::<(Seq<(Seq<u8>, Seq<u8>)>, int), PboReadFailure>(
            (acc + pairs, pos + extension_block(pairs).len() + 1),
        ),
    decreases pairs.len(),
{
    let blk = extension_block(pairs);
    let w = blk.push(0u8);
    let sub = b.subrange(pos, pos + blk.len() + 1);
    if pairs.len() == 0 {
        assert(blk.len() == 0);
        assert(b.subrange(pos, pos + 1) =~= Seq::<u8>::empty().push(0u8));
        lemma_cstring_at(b, pos, Seq::empty());
        assert(acc + pairs =~= acc);
    } else {
        let k = pairs[0].0;
        let v = pairs[0].1;
        let more = pairs.drop_first();
        let blk2 = extension_block(more);
        assert(blk == k + seq![0u8] + v + seq![0u8] + blk2);
        let p1 = pos + k.len() + 1;
        let p2 = p1 + v.len() + 1;
        assert(b.subrange(pos, pos + k.len() + 1) =~= k.push(0u8)) by {
            assert forall|i: int| 0 <= i < k.len() + 1 implies b.subrange(pos, pos + k.len() + 1)[i] == k.push(
                0u8,
            )[i] by {
                assert(sub[i] == w[i]);
            }
        }
        lemma_cstring_at(b, pos, k);
        assert(b.subrange(p1, p1 + v.len() + 1) =~= v.push(0u8)) by {
            assert forall|i: int| 0 <= i < v.len() + 1 implies b.subrange(p1, p1 + v.len() + 1)[i] == v.push(
                0u8,
            )[i] by {
                assert(sub[k.len() + 1 + i] == w[k.len() + 1 + i]);
            }
        }
        lemma_cstring_at(b, p1, v);
        assert(extension_pairs_ok(more)) by {
            assert forall|j: int| 0 <= j < more.len() implies {
                &&& (#[trigger] more[j]).0.len() > 0
                &&& header_string_ok(more[j].0)
                &&& header_string_ok(more[j].1)
            } by {
                assert(more[j] == pairs[j + 1]);
            }
        }
        assert(b.subrange(p2, p2 + blk2.len() + 1) =~= blk2.push(0u8)) by {
            assert forall|i: int| 0 <= i < blk2.len() + 1 implies b.subrange(p2, p2 + blk2.len() + 1)[i]
                == blk2.push(0u8)[i] by {
                assert(sub[k.len() + v.len() + 2 + i] == w[k.len() + v.len() + 2 + i]);
            }
        }
        law_extension_block_read_whole(b, p2, more, acc.push((k, v)));
        assert(acc.push((k, v)) + more =~= acc + pairs);
    }
}

// ---------------------------------------------------------------------------
// Reads over equal tails
// ---------------------------------------------------------------------------

/// The bytes of `b1` from `p1` on are those of `b0` from `p0` on.
pub open spec fn same_tail(b1: Seq<u8>, p1: int, b0: Seq<u8>, p0: int) -> bool {
    &&& 0 <= p1 <= b1.len()
    &&& 0 <= p0 <= b0.len()
    &&& b1.subrange(p1, b1.len() as int) == b0.subrange(p0, b0.len() as int)
}

proof fn lemma_same_tail_at(b1: Seq<u8>, p1: int, b0: Seq<u8>, p0: int, d: int)
    requires
        same_tail(b1, p1, b0, p0),
        0 <= d < b1.len() - p1,
    ensures
        b1[p1 + d] == b0[p0 + d],
        b1.len() - p1 == b0.len() - p0,
{
    let t1 = b1.subrange(p1, b1.len() as int);
    let t0 = b0.subrange(p0, b0.len() as int);
    assert(t1.len() == b1.len() - p1);
    assert(t0.len() == b0.len() - p0);
    assert(t1.len() == t0.len());
    assert(t1[d] == b1[p1 + d]);
    assert(t0[d] == b0[p0 + d]);
}

proof fn lemma_same_tail_advance(b1: Seq<u8>, p1: int, b0: Seq<u8>, p0: int, d: int)
    requires
        same_tail(b1, p1, b0, p0),
        0 <= d <= b1.len() - p1,
    ensures
        same_tail(b1, p1 + d, b0, p0 + d),
        b1.len() - p1 == b0.len() - p0,
{
    let t1 = b1.subrange(p1, b1.len() as int);
    let t0 = b0.subrange(p0, b0.len() as int);
    assert(t1.len() == t0.len());
    assert(b1.subrange(p1 + d, b1.len() as int) =~= t1.subrange(d, t1.len() as int));
    assert(b0.subrange(p0 + d, b0.len() as int) =~= t0.subrange(d, t0.len() as int));
}

proof fn lemma_nul_index_same_tail(b1: Seq<u8>, p1: int, b0: Seq<u8>, p0: int)
    requires
        same_tail(b1, p1, b0, p0),
    ensures
        nul_index(b1, p1) - p1 == nul_index(b0, p0) - p0,
    decreases b1.len() - p1,
{
    lemma_same_tail_advance(b1, p1, b0, p0, 0);
    if p1 < b1.len() {
        lemma_same_tail_at(b1, p1, b0, p0, 0);
        if b1[p1] != 0 {
            lemma_same_tail_advance(b1, p1, b0, p0, 1);
            lemma_nul_index_same_tail(b1, p1 + 1, b0, p0 + 1);
        }
    }
}

proof fn lemma_cstring_same_tail(b1: Seq<u8>, p1: int, b0: Seq<u8>, p0: int)
    requires
        same_tail(b1, p1, b0, p0),
    ensures
        match spec_cstring(b1, p1) {
            Err(f1) => spec_cstring(b0, p0) == Err::<(Seq<u8>, int), PboReadFailure>(f1),
            Ok((s1, q1)) => spec_cstring(b0, p0) matches Ok((s0, q0)) && s1 == s0 && q1 - p1 == q0 - p0
                && same_tail(b1, q1, b0, q0),
        },
{
    lemma_nul_index_same_tail(b1, p1, b0, p0);
    lemma_nul_index(b1, p1);
    lemma_nul_index(b0, p0);
    lemma_same_tail_advance(b1, p1, b0, p0, 0);
    let e1 = nul_index(b1, p1);
    let e0 = nul_index(b0, p0);
    if e1 < b1.len() && e1 - p1 <= CSTRING_LIMIT {
        assert(b1.subrange(p1, e1) =~= b0.subrange(p0, e0)) by {
            assert forall|i: int| 0 <= i < e1 - p1 implies b1.subrange(p1, e1)[i] == b0.subrange(p0, e0)[i] by {
                lemma_same_tail_at(b1, p1, b0, p0, i);
            }
        }
        lemma_same_tail_advance(b1, p1, b0, p0, e1 - p1 + 1);
    }
}

proof fn lemma_u32_same_tail(b1: Seq<u8>, p1: int, b0: Seq<u8>, p0: int)
    requires
        same_tail(b1, p1, b0, p0),
    ensures
        match spec_u32(b1, p1) {
            Err(f1) => spec_u32(b0, p0) == Err::<(u32, int), PboReadFailure>(f1),
            Ok((t1, q1)) => spec_u32(b0, p0) matches Ok((t0, q0)) && t1 == t0 && q1 - p1 == q0 - p0 && same_tail(
                b1,
                q1,
                b0,
                q0,
            ),
        },
{
    lemma_same_tail_advance(b1, p1, b0, p0, 0);
    if p1 + 4 <= b1.len() {
        lemma_same_tail_at(b1, p1, b0, p0, 0);
        lemma_same_tail_at(b1, p1, b0, p0, 1);
        lemma_same_tail_at(b1, p1, b0, p0, 2);
        lemma_same_tail_at(b1, p1, b0, p0, 3);
        lemma_same_tail_advance(b1, p1, b0, p0, 4);
    }
}

proof fn lemma_extensions_same_tail(
    b1: Seq<u8>,
    p1: int,
    b0: Seq<u8>,
    p0: int,
    acc: Seq<(Seq<u8>, Seq<u8>)>,
)
    requires
        same_tail(b1, p1, b0, p0),
    ensures
        match spec_extensions(b1, p1, acc) {
            Err(f1) => spec_extensions(b0, p0, acc) == Err::<(Seq<(Seq<u8>, Seq<u8>)>, int), PboReadFailure>(f1),
            Ok((e1, q1)) => spec_extensions(b0, p0, acc) matches Ok((e0, q0)) && e1 == e0 && q1 - p1 == q0 - p0
                && same_tail(b1, q1, b0, q0),
        },
    decreases b1.len() - p1,
{
    lemma_cstring_same_tail(b1, p1, b0, p0);
    lemma_spec_cstring(b1, p1);
    if let Ok((k, q1)) = spec_cstring(b1, p1) {
        let q0 = spec_cstring(b0, p0)->Ok_0.1;
        if k.len() != 0 {
            lemma_cstring_same_tail(b1, q1, b0, q0);
            lemma_spec_cstring(b1, q1);
            if let Ok((v, r1)) = spec_cstring(b1, q1) {
                let r0 = spec_cstring(b0, q0)->Ok_0.1;
                lemma_extensions_same_tail(b1, r1, b0, r0, acc.push((k, v)));
            }
        }
    }
}

proof fn lemma_entries_same_tail(
    b1: Seq<u8>,
    p1: int,
    b0: Seq<u8>,
    p0: int,
    ext1: Seq<(Seq<u8>, Seq<u8>)>,
    ext0: Seq<(Seq<u8>, Seq<u8>)>,
    entries: Seq<EntrySpec>,
)
    requires
        same_tail(b1, p1, b0, p0),
    ensures
        header_reads_alike(spec_entries(b1, p1, ext1, entries), spec_entries(b0, p0, ext0, entries), p1 - p0, ext1, ext0),
    decreases b1.len() - p1,
{
    lemma_cstring_same_tail(b1, p1, b0, p0);
    lemma_spec_cstring(b1, p1);
    if let Ok((name, q1)) = spec_cstring(b1, p1) {
        let q0 = spec_cstring(b0, p0)->Ok_0.1;
        lemma_u32_same_tail(b1, q1, b0, q0);
        if let Ok((t, r1)) = spec_u32(b1, q1) {
            let r0 = spec_u32(b0, q0)->Ok_0.1;
            lemma_same_tail_advance(b1, r1, b0, r0, 0);
            if let Some(ty) = entry_type_of(t) {
                if r1 + 16 <= b1.len() {
                    lemma_same_tail_at(b1, r1, b0, r0, 12);
                    lemma_same_tail_at(b1, r1, b0, r0, 13);
                    lemma_same_tail_at(b1, r1, b0, r0, 14);
                    lemma_same_tail_at(b1, r1, b0, r0, 15);
                    assert(le_u32(b1, r1 + 12) == le_u32(b0, r0 + 12));
                    lemma_same_tail_advance(b1, r1, b0, r0, 16);
                    let entry = EntrySpec { name, entry_type: ty, data_size: le_u32(b1, r1 + 12) };
                    if ty == PboEntryType::Plain && name.len() == 0 {
                    } else if ty == PboEntryType::Vers {
                        lemma_extensions_same_tail(b1, r1 + 16, b0, r0 + 16, Seq::empty());
                        lemma_spec_extensions_progress(b1, r1 + 16, Seq::empty());
                        if let Ok((e, s1)) = spec_extensions(b1, r1 + 16, Seq::empty()) {
                            let s0 = spec_extensions(b0, r0 + 16, Seq::empty())->Ok_0.1;
                            lemma_entries_same_tail(b1, s1, b0, s0, e, e, entries.push(entry));
                        }
                    } else {
                        lemma_entries_same_tail(b1, r1 + 16, b0, r0 + 16, ext1, ext0, entries.push(entry));
                    }
                }
            }
        }
    }
}

/// A `Vers` entry's extension block is read whole, whatever pairs it holds: the
/// header read with the pairs gives the same entries (or fails alike) as the same
/// header with an empty block, its header length is longer by exactly the pairs'
/// bytes, and its extensions are the pairs where the other's are empty. The entry
/// may come after any entries already read (`before`).
pub proof fn law_vers_extension_block_consumed(
    before: Seq<u8>,
    name: Seq<u8>,
    fields: Seq<u8>,
    pairs: Seq<(Seq<u8>, Seq<u8>)>,
    rest: Seq<u8>,
    ext: Seq<(Seq<u8>, Seq<u8>)>,
    entries: Seq<EntrySpec>,
)
    requires
        header_string_ok(name),
        fields.len() == 16,
        extension_pairs_ok(pairs),
    ensures
        header_reads_alike(
            spec_entries(
                before + vers_entry_bytes(name, fields) + extension_block(pairs) + seq![0u8] + rest,
                before.len() as int,
                ext,
                entries,
            ),
            spec_entries(before + vers_entry_bytes(name, fields) + seq![0u8] + rest, before.len() as int, ext, entries),
            extension_block(pairs).len() as int,
            pairs,
            Seq::empty(),
        ),
{
    let ve = vers_entry_bytes(name, fields);
    let blk = extension_block(pairs);
    let b1 = before + ve + blk + seq![0u8] + rest;
    let b0 = before + ve + seq![0u8] + rest;
    let pos = before.len() as int;
    let q = pos + name.len() + 1;
    let r = q + 4;
    let s = r + 16;
    assert(ve.len() == name.len() + 21);
    // the name
    assert(b1.subrange(pos, q) =~= name.push(0u8)) by {
        assert forall|i: int| 0 <= i < name.len() + 1 implies b1.subrange(pos, q)[i] == name.push(0u8)[i] by {
            assert(b1[pos + i] == ve[i]);
        }
    }
    assert(b0.subrange(pos, q) =~= name.push(0u8)) by {
        assert forall|i: int| 0 <= i < name.len() + 1 implies b0.subrange(pos, q)[i] == name.push(0u8)[i] by {
            assert(b0[pos + i] == ve[i]);
        }
    }
    lemma_cstring_at(b1, pos, name);
    lemma_cstring_at(b0, pos, name);
    // the type word and the fields
    assert forall|i: int| q <= i < s implies b1[i] == b0[i] && b1[i] == ve[i - pos] by {}
    assert(b1[q] == 0x73u8 && b1[q + 1] == 0x72u8 && b1[q + 2] == 0x65u8 && b1[q + 3] == 0x56u8);
    assert(le_u32(b1, q) == 0x5665_7273u32);
    assert(le_u32(b0, q) == 0x5665_7273u32);
    assert(spec_u32(b1, q) == Ok::<(u32, int), PboReadFailure>((0x5665_7273u32, r)));
    assert(spec_u32(b0, q) == Ok::<(u32, int), PboReadFailure>((0x5665_7273u32, r)));
    assert(entry_type_of(0x5665_7273u32) == Some(PboEntryType::Vers));
    assert(b1[r + 12] == b0[r + 12] && b1[r + 13] == b0[r + 13] && b1[r + 14] == b0[r + 14] && b1[r + 15] == b0[r
        + 15]);
    assert(le_u32(b1, r + 12) == le_u32(b0, r + 12));
    // the extension blocks
    assert(b1.subrange(s, s + blk.len() + 1) =~= blk.push(0u8)) by {
        assert forall|i: int| 0 <= i < blk.len() + 1 implies b1.subrange(s, s + blk.len() + 1)[i] == blk.push(
            0u8,
        )[i] by {
            if i < blk.len() {
                assert(b1[s + i] == blk[i]);
            } else {
                assert(b1[s + i] == 0u8);
            }
        }
    }
    law_extension_block_read_whole(b1, s, pairs, Seq::empty());
    assert(extension_block(Seq::<(Seq<u8>, Seq<u8>)>::empty()).len() == 0);
    assert(extension_pairs_ok(Seq::<(Seq<u8>, Seq<u8>)>::empty()));
    assert(b0.subrange(s, s + 1) =~= extension_block(Seq::<(Seq<u8>, Seq<u8>)>::empty()).push(0u8)) by {
        assert(b0[s] == 0u8);
    }
    law_extension_block_read_whole(b0, s, Seq::empty(), Seq::empty());
    assert(Seq::<(Seq<u8>, Seq<u8>)>::empty() + pairs =~= pairs);
    assert(Seq::<(Seq<u8>, Seq<u8>)>::empty() + Seq::<(Seq<u8>, Seq<u8>)>::empty() =~= Seq::<(Seq<u8>, Seq<u8>)>::empty());
    // what follows the blocks is the same
    let t1 = s + blk.len() + 1;
    let t0 = s + 1;
    assert(b1.subrange(t1, b1.len() as int) =~= rest);
    assert(b0.subrange(t0, b0.len() as int) =~= rest);
    let entry = EntrySpec { name, entry_type: PboEntryType::Vers, data_size: le_u32(b1, r + 12) };
    lemma_entries_same_tail(b1, t1, b0, t0, pairs, Seq::empty(), entries.push(entry));
}

/// For a PBO that opens with a `Vers` entry, its extension block is read whole: see
/// `law_vers_extension_block_consumed`.
pub proof fn law_meta_vers_extension_block_consumed(
    name: Seq<u8>,
    fields: Seq<u8>,
    pairs: Seq<(Seq<u8>, Seq<u8>)>,
    rest: Seq<u8>,
)
    requires
        header_string_ok(name),
        fields.len() == 16,
        extension_pairs_ok(pairs),
    ensures
        header_reads_alike(
            spec_meta(vers_entry_bytes(name, fields) + extension_block(pairs) + seq![0u8] + rest),
            spec_meta(vers_entry_bytes(name, fields) + seq![0u8] + rest),
            extension_block(pairs).len() as int,
            pairs,
            Seq::empty(),
        ),
{
    let e = Seq::<u8>::empty();
    law_vers_extension_block_consumed(e, name, fields, pairs, rest, Seq::empty(), Seq::empty());
    assert(e + vers_entry_bytes(name, fields) + extension_block(pairs) + seq![0u8] + rest =~= vers_entry_bytes(
        name,
        fields,
    ) + extension_block(pairs) + seq![0u8] + rest);
    assert(e + vers_entry_bytes(name, fields) + seq![0u8] + rest =~= vers_entry_bytes(name, fields) + seq![0u8]
        + rest);
}

} // verus!
