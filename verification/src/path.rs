//! Swifty path rules.
//!
//! Byte-perfect output needs ASCII-only paths. Swifty's checksum rules normalize
//! separators and lowercase the path.

use vstd::prelude::*;
use crate::checksum::SwiftyError;
use crate::text::{ascii_lower, ascii_lower_chars, ascii_upper_byte, byte_to_ascii_upper, char_to_ascii_lower, chars_of, concat_str, owned, string_from_chars};
use vstd::utf8::is_ascii_chars;
use vstd::string::StringSliceAdditionalSpecFns;

verus! {

/// The message of a non-ASCII path error: `{label}: {path}`.
pub open spec fn non_ascii_message(label: Seq<char>, s: Seq<char>) -> Seq<char> {
    label + ": "@ + s
}

/// Accepts ASCII-only text and rejects anything else.
pub fn ensure_ascii_path(label: &str, s: &str) -> (r: Result<(), SwiftyError>)
    ensures
        r is Ok <==> is_ascii_chars(s@),
        r matches Err(e) ==> e matches SwiftyError::NonAsciiPath(m) && m@ == non_ascii_message(label@, s@),
{
    if s.is_ascii() {
        Ok(())
    } else {
        let head = concat_str(label, ": ");
        let msg = concat_str(head.as_str(), s);
        Err(SwiftyError::NonAsciiPath(msg))
    }
}

/// `mod.srf` path form: every `/` becomes `\`.
pub open spec fn srf_path_chars(s: Seq<char>) -> Seq<char> {
    s.map_values(|c: char| if c == '/' { '\\' } else { c })
}

/// Normalizes a path for `mod.srf`: Windows separators, casing kept.
pub fn normalize_srf_path(rel_path: &str) -> (r: String)
    ensures
        r@ == srf_path_chars(rel_path@),
{
    let cs = chars_of(rel_path);
    let mut out = String::new();
    let mut i: usize = 0;
    while i < cs.len()
        invariant
            0 <= i <= cs@.len(),
            cs@ == rel_path@,
            out@ == srf_path_chars(rel_path@).take(i as int),
        decreases cs@.len() - i,
    {
        let c = cs[i];
        out.push(if c == '/' { '\\' } else { c });
        i = i + 1;
        assert(out@ =~= srf_path_chars(rel_path@).take(i as int));
    }
    assert(srf_path_chars(rel_path@).take(cs@.len() as int) =~= srf_path_chars(rel_path@));
    out
}

/// Path form fed to the mod checksum: `\` becomes `/`, then ASCII lowercase.
pub open spec fn checksum_path_chars(s: Seq<char>) -> Seq<char> {
    s.map_values(|c: char| ascii_lower(if c == '\\' { '/' } else { c }))
}

/// Path normalization used in the mod checksum.
pub fn path_for_checksum(path: &str) -> (r: String)
    ensures
        r@ == checksum_path_chars(path@),
{
    let cs = chars_of(path);
    let mut out = String::new();
    let mut i: usize = 0;
    while i < cs.len()
        invariant
            0 <= i <= cs@.len(),
            cs@ == path@,
            out@ == checksum_path_chars(path@).take(i as int),
        decreases cs@.len() - i,
    {
        let c = cs[i];
        out.push(char_to_ascii_lower(if c == '\\' { '/' } else { c }));
        i = i + 1;
        assert(out@ =~= checksum_path_chars(path@).take(i as int));
    }
    assert(checksum_path_chars(path@).take(cs@.len() as int) =~= checksum_path_chars(path@));
    out
}

/// The bytes that `CleanPath` removes before comparing: `/`, `\` and `;`.
pub open spec fn is_clean_path_separator(b: u8) -> bool {
    b == 47 || b == 92 || b == 59
}

/// Sort key of the mod checksum over a path's bytes: separators dropped,
/// everything else ASCII-uppercased.
pub open spec fn mod_sort_key(b: Seq<u8>) -> Seq<u8>
    decreases b.len(),
{
    if b.len() == 0 {
        Seq::empty()
    } else {
        let rest = mod_sort_key(b.drop_last());
        if is_clean_path_separator(b.last()) {
            rest
        } else {
            rest.push(ascii_upper_byte(b.last()))
        }
    }
}

/// Sorting key used by the Swifty mod checksum (matches an ordinal-ignore-case
/// compare of `CleanPath` for ASCII paths).
pub fn sort_key_for_mod(path: &str) -> (key: Vec<u8>)
    ensures
        key@ == mod_sort_key(path.spec_bytes()),
{
    let bytes = path.as_bytes();
    let mut out: Vec<u8> = Vec::new();
    let mut i: usize = 0;
    while i < bytes.len()
        invariant
            0 <= i <= bytes@.len(),
            bytes@ == path.spec_bytes(),
            out@ == mod_sort_key(bytes@.take(i as int)),
        decreases bytes@.len() - i,
    {
        let b = bytes[i];
        assert(bytes@.take(i + 1).drop_last() =~= bytes@.take(i as int));
        if !(b == 47 || b == 92 || b == 59) {
            out.push(byte_to_ascii_upper(b));
        }
        i = i + 1;
    }
    assert(bytes@.take(bytes@.len() as int) =~= bytes@);
    out
}

/// Whether a path ends in `.pbo`, ignoring ASCII case.
pub open spec fn has_pbo_suffix(s: Seq<char>) -> bool {
    s.len() >= 4 && ascii_lower(s[s.len() - 4]) == '.' && ascii_lower(s[s.len() - 3]) == 'p'
        && ascii_lower(s[s.len() - 2]) == 'b' && ascii_lower(s[s.len() - 1]) == 'o'
}

/// The `Type` Swifty records for a file.
pub open spec fn file_type_chars(s: Seq<char>) -> Seq<char> {
    if has_pbo_suffix(s) {
        "SwiftyPboFile"@
    } else {
        "SwiftyFile"@
    }
}

/// `SwiftyPboFile` for paths ending in `.pbo` (any ASCII case), else `SwiftyFile`.
pub fn file_type_for(path: &str) -> (r: String)
    ensures
        r@ == file_type_chars(path@),
{
    let cs = chars_of(path);
    let n = cs.len();
    if n >= 4 && char_to_ascii_lower(cs[n - 4]) == '.' && char_to_ascii_lower(cs[n - 3]) == 'p'
        && char_to_ascii_lower(cs[n - 2]) == 'b' && char_to_ascii_lower(cs[n - 1]) == 'o' {
        owned("SwiftyPboFile")
    } else {
        owned("SwiftyFile")
    }
}


// ---------------------------------------------------------------------------
// Path components (Unix `/` separators, as `std::path::Path` reads them)
// ---------------------------------------------------------------------------

/// Index of the last `c` in `s`, or -1 when there is none.
pub open spec fn last_index(s: Seq<char>, c: char) -> int
    decreases s.len(),
{
    if s.len() == 0 {
        -1
    } else if s.last() == c {
        s.len() - 1
    } else {
        last_index(s.drop_last(), c)
    }
}

pub proof fn lemma_last_index(s: Seq<char>, c: char)
    ensures
        -1 <= last_index(s, c) < s.len(),
        last_index(s, c) >= 0 ==> s[last_index(s, c)] == c,
        forall|j: int| last_index(s, c) < j < s.len() ==> s[j] != c,
    decreases s.len(),
{
    if s.len() > 0 && s.last() != c {
        lemma_last_index(s.drop_last(), c);
        assert forall|j: int| last_index(s, c) < j < s.len() implies s[j] != c by {
            if j < s.len() - 1 {
                assert(s.drop_last()[j] == s[j]);
            }
        }
    }
}

/// A prefix extended by characters other than `c` has the same last `c`.
pub proof fn lemma_last_index_skip(s: Seq<char>, c: char, j: int, end: int)
    requires
        0 <= j <= end <= s.len(),
        forall|k: int| j <= k < end ==> s[k] != c,
    ensures
        last_index(s.take(end), c) == last_index(s.take(j), c),
    decreases end - j,
{
    if end > j {
        assert(s.take(end).drop_last() =~= s.take(end - 1));
        lemma_last_index_skip(s, c, j, end - 1);
    }
}

/// The file name `Path::file_name` finds in a path: the last component, where
/// empty components (repeated or trailing `/`) and `.` components do not count;
/// `None` when the path has no such component or the last one is `..`.
pub open spec fn file_name_of(s: Seq<char>) -> Option<Seq<char>>
    decreases s.len(),
{
    let i = last_index(s, '/');
    let seg = s.subrange(i + 1, s.len() as int);
    if seg.len() == 0 || seg == seq!['.'] {
        if i < 0 {
            None
        } else {
            proof {
                lemma_last_index(s, '/');
            }
            file_name_of(s.subrange(0, i))
        }
    } else if seg == seq!['.', '.'] {
        None
    } else {
        Some(seg)
    }
}

/// The extension `Path::extension` finds: what follows the last `.` of the file
/// name, unless that `.` is the name's first character or there is none.
pub open spec fn extension_of(s: Seq<char>) -> Option<Seq<char>> {
    match file_name_of(s) {
        None => None,
        Some(n) => {
            let d = last_index(n, '.');
            if d <= 0 {
                None
            } else {
                Some(n.subrange(d + 1, n.len() as int))
            }
        },
    }
}

/// Whether a path's extension is `pbo` in any ASCII case.
pub open spec fn has_pbo_extension(s: Seq<char>) -> bool {
    extension_of(s) matches Some(e) && ascii_lower_chars(e) == seq!['p', 'b', 'o']
}

/// Position of the last `c` in `cs[..end]`, as one past it (0 when there is none).
pub fn after_last(cs: &Vec<char>, c: char, end: usize) -> (j: usize)
    requires
        end <= cs@.len(),
    ensures
        j <= end,
        j as int == last_index(cs@.take(end as int), c) + 1,
{
    let mut j = end;
    while j > 0 && cs[j - 1] != c
        invariant
            j <= end <= cs@.len(),
            forall|k: int| j <= k < end ==> cs@[k] != c,
        decreases j,
    {
        j = j - 1;
    }
    proof {
        lemma_last_index_skip(cs@, c, j as int, end as int);
        if j > 0 {
            assert(cs@.take(j as int).last() == c);
        }
    }
    j
}

/// `Path::file_name` of a `/`-separated path.
pub fn path_file_name(p: &str) -> (r: Option<String>)
    ensures
        match file_name_of(p@) {
            Some(n) => r matches Some(x) && x@ == n,
            None => r is None,
        },
{
    let cs = chars_of(p);
    let mut end = cs.len();
    assert(cs@.take(end as int) =~= p@);
    loop
        invariant
            end <= cs@.len(),
            cs@ == p@,
            file_name_of(p@) == file_name_of(cs@.take(end as int)),
        decreases end,
    {
        let j = after_last(&cs, '/', end);
        let ghost s = cs@.take(end as int);
        proof {
            lemma_last_index(s, '/');
        }
        let seg_len = end - j;
        let is_dot = seg_len == 1 && cs[j] == '.';
        let is_dot_dot = seg_len == 2 && cs[j] == '.' && cs[j + 1] == '.';
        let ghost seg = s.subrange(j as int, end as int);
        assert(seg.len() == seg_len);
        proof {
            if seg_len == 1 {
                assert(seg[0] == cs@[j as int]);
                if is_dot {
                    assert(seg =~= seq!['.']);
                }
            }
            if seq!['.'] =~= seg {
                assert(seg[0] == '.');
            }
            if seg_len == 2 {
                assert(seg[0] == cs@[j as int] && seg[1] == cs@[j + 1]);
                if is_dot_dot {
                    assert(seg =~= seq!['.', '.']);
                }
            }
            if seq!['.', '.'] =~= seg {
                assert(seg[0] == '.' && seg[1] == '.');
            }
        }
        if seg_len == 0 || is_dot {
            if j == 0 {
                return None;
            }
            assert(s.subrange(0, j - 1) =~= cs@.take(j - 1));
            end = j - 1;
        } else if is_dot_dot {
            return None;
        } else {
            let name = string_from_chars(&cs.as_slice()[j..end]);
            assert(cs@.subrange(j as int, end as int) =~= seg);
            return Some(name);
        }
    }
}

/// `Path::extension` of a `/`-separated path.
pub fn path_extension(p: &str) -> (r: Option<String>)
    ensures
        match extension_of(p@) {
            Some(e) => r matches Some(x) && x@ == e,
            None => r is None,
        },
{
    let name = match path_file_name(p) {
        Some(n) => n,
        None => {
            return None;
        },
    };
    let cs = chars_of(name.as_str());
    let n = cs.len();
    let j = after_last(&cs, '.', n);
    assert(cs@.take(n as int) =~= cs@);
    if j <= 1 {
        return None;
    }
    let ext = string_from_chars(&cs.as_slice()[j..n]);
    assert(cs@.subrange(j as int, n as int) =~= ext@);
    Some(ext)
}

/// Whether the path's extension is `pbo`, ignoring ASCII case.
pub fn is_pbo_path(p: &str) -> (b: bool)
    ensures
        b == has_pbo_extension(p@),
{
    match path_extension(p) {
        None => false,
        Some(e) => {
            let cs = chars_of(e.as_str());
            if cs.len() != 3 {
                proof {
                    if ascii_lower_chars(e@) =~= seq!['p', 'b', 'o'] {
                        assert(ascii_lower_chars(e@).len() == e@.len());
                    }
                }
                return false;
            }
            let a = char_to_ascii_lower(cs[0]);
            let b = char_to_ascii_lower(cs[1]);
            let c = char_to_ascii_lower(cs[2]);
            let r = a == 'p' && b == 'b' && c == 'o';
            proof {
                let l = ascii_lower_chars(e@);
                assert(l.len() == 3);
                assert(l[0] == a && l[1] == b && l[2] == c);
                if r {
                    assert(l =~= seq!['p', 'b', 'o']);
                }
            }
            r
        },
    }
}

} // verus!
