//! Assembling a repository folder: mod folders are scanned into `mod.srf` models,
//! the existing `repo.json` is upgraded with the new mod checksums.
//!
//! The program walks the folder and reads and writes the files; the rules it
//! follows are here.

use vstd::prelude::*;
use vstd::slice::slice_to_vec;
use vstd::utf8::{encode_utf8, is_ascii_chars};
use crate::checksum::{SwiftyError, SwiftyErrorView, all_paths_ascii, compute_mod_checksum, is_mod_checksum};
use crate::model::{FileView, Md5Digest, RepoMod, RepoModView, SrfFile, SrfMod, copy_file, files_view, repo_mods_view};
use crate::path::non_ascii_message;
use crate::sort::{is_stable_sort_order, stable_sort_order};
use crate::text::{ascii_lower_chars, str_eq, to_ascii_lower_string};

verus! {

// ---------------------------------------------------------------------------
// File order inside a mod
// ---------------------------------------------------------------------------

/// The keys `mod.srf` files are ordered by: the bytes of the ASCII-lowercased path.
pub open spec fn lower_path_keys(files: Seq<SrfFile>) -> Seq<Seq<u8>> {
    files.map_values(|f: SrfFile| encode_utf8(ascii_lower_chars(f.path@)))
}

/// `sorted` holds `files` in stable order of their lowercased paths.
pub open spec fn is_sorted_by_lower_path(files: Seq<SrfFile>, sorted: Seq<FileView>) -> bool {
    exists|order: Seq<usize>|
        #[trigger] is_stable_sort_order(lower_path_keys(files), order) && sorted.len() == order.len() && forall|
            k: int,
        |
            0 <= k < order.len() ==> sorted[k] == files[order[k] as int]@
}

/// Copies of the files, sorted stably by lowercased path.
fn sort_files_by_lower_path(files: &Vec<SrfFile>) -> (out: Vec<SrfFile>)
    ensures
        is_sorted_by_lower_path(files@, files_view(out@)),
        all_paths_ascii(out@) <==> all_paths_ascii(files@),
{
    let mut keys: Vec<Vec<u8>> = Vec::new();
    let mut i: usize = 0;
    while i < files.len()
        invariant
            0 <= i <= files@.len(),
            keys@.len() == i,
            forall|j: int| 0 <= j < i ==> (#[trigger] keys@[j])@ == encode_utf8(ascii_lower_chars(files@[j].path@)),
        decreases files@.len() - i,
    {
        let lower = to_ascii_lower_string(files[i].path.as_str());
        keys.push(slice_to_vec(lower.as_str().as_bytes()));
        i = i + 1;
    }
    assert(keys@.map_values(|k: Vec<u8>| k@) =~= lower_path_keys(files@));
    let order = stable_sort_order(&keys);
    let mut out: Vec<SrfFile> = Vec::new();
    let mut k: usize = 0;
    while k < order.len()
        invariant
            0 <= k <= order@.len(),
            is_stable_sort_order(lower_path_keys(files@), order@),
            lower_path_keys(files@).len() == files@.len(),
            out@.len() == k,
            forall|j: int| 0 <= j < k ==> (#[trigger] out@[j])@ == files@[order@[j] as int]@,
        decreases order@.len() - k,
    {
        out.push(copy_file(&files[order[k]]));
        k = k + 1;
    }
    proof {
        let fv = files_view(out@);
        assert forall|j: int| 0 <= j < order@.len() implies fv[j] == files@[order@[j] as int]@ by {
            assert(fv[j] == out@[j]@);
        }
        assert(is_stable_sort_order(lower_path_keys(files@), order@));
        if all_paths_ascii(files@) {
            assert forall|j: int| 0 <= j < out@.len() implies is_ascii_chars(#[trigger] out@[j].path@) by {
                assert(out@[j]@.path == files@[order@[j] as int]@.path);
                assert(is_ascii_chars(files@[order@[j] as int].path@));
            }
        }
        if all_paths_ascii(out@) {
            assert forall|m: int| 0 <= m < files@.len() implies is_ascii_chars(#[trigger] files@[m].path@) by {
                assert(order@.contains(m as usize));
                let j = choose|j: int| 0 <= j < order@.len() && order@[j] == m as usize;
                assert(out@[j]@.path == files@[m]@.path);
                assert(is_ascii_chars(out@[j].path@));
            }
        }
    }
    out
}

// ---------------------------------------------------------------------------
// Mods and repo entries
// ---------------------------------------------------------------------------

/// The first file of a list whose path is not ASCII, reported as `e`.
pub open spec fn is_first_non_ascii_error(files: Seq<FileView>, e: SwiftyErrorView) -> bool {
    exists|i: int|
        0 <= i < files.len() && !is_ascii_chars(#[trigger] files[i].path) && (forall|j: int|
            0 <= j < i ==> is_ascii_chars(#[trigger] files[j].path)) && e == SwiftyErrorView::NonAsciiPath(
            non_ascii_message("file path"@, files[i].path),
        )
}

/// `out` is the `mod.srf` model of scanned mod `m`: lowercase name, files in
/// lowercased-path order and the Swifty mod checksum.
pub open spec fn is_normalized_mod(m: SrfMod, out: SrfMod) -> bool {
    &&& out.name@ == ascii_lower_chars(m.name@)
    &&& is_sorted_by_lower_path(m.files@, files_view(out.files@))
    &&& is_mod_checksum(out.files@, out.checksum@)
}

/// The error normalizing scanned mod `m` fails with.
pub open spec fn is_mod_error(m: SrfMod, e: SwiftyErrorView) -> bool {
    exists|sorted: Seq<FileView>| #[trigger]
        is_sorted_by_lower_path(m.files@, sorted) && is_first_non_ascii_error(sorted, e)
}

/// The `mod.srf` model of a scanned mod.
fn normalize_mod(m: &SrfMod) -> (r: Result<SrfMod, SwiftyError>)
    ensures
        r is Ok <==> all_paths_ascii(m.files@),
        r matches Ok(out) ==> is_normalized_mod(*m, out),
        r matches Err(e) ==> is_mod_error(*m, e@),
{
    let name = to_ascii_lower_string(m.name.as_str());
    let files = sort_files_by_lower_path(&m.files);
    match compute_mod_checksum(files.as_slice()) {
        Ok(checksum) => Ok(SrfMod { name, checksum, files }),
        Err(e) => {
            proof {
                let i = choose|i: int|
                    0 <= i < files@.len() && !is_ascii_chars(files@[i].path@) && (forall|j: int|
                        0 <= j < i ==> is_ascii_chars(#[trigger] files@[j].path@)) && (e matches SwiftyError::NonAsciiPath(
                        m,
                    ) && m@ == non_ascii_message("file path"@, files@[i].path@));
                let fv = files_view(files@);
                assert(fv[i].path == files@[i].path@);
                assert forall|j: int| 0 <= j < i implies is_ascii_chars(#[trigger] fv[j].path) by {
                    assert(fv[j].path == files@[j].path@);
                }
                assert(is_first_non_ascii_error(fv, e@));
            }
            Err(e)
        },
    }
}

/// The lowercase names of a list of mods.
pub open spec fn mod_names(mods: Seq<(String, SrfMod)>) -> Seq<Seq<char>> {
    mods.map_values(|p: (String, SrfMod)| p.1.name@)
}

/// The checksum of the last mod of the list with the given name.
pub open spec fn last_checksum(mods: Seq<(String, SrfMod)>, name: Seq<char>) -> Option<Seq<u8>>
    decreases mods.len(),
{
    if mods.len() == 0 {
        None
    } else if mods.last().1.name@ == name {
        Some(mods.last().1.checksum@)
    } else {
        last_checksum(mods.drop_last(), name)
    }
}

/// The entries of an existing mod list that are still on disk, under their
/// lowercase name and new checksum, keeping `enabled`.
pub open spec fn kept_entries(old: Seq<RepoMod>, mods: Seq<(String, SrfMod)>) -> Seq<RepoModView>
    decreases old.len(),
{
    if old.len() == 0 {
        Seq::empty()
    } else {
        let prev = kept_entries(old.drop_last(), mods);
        let key = ascii_lower_chars(old.last().mod_name@);
        match last_checksum(mods, key) {
            Some(sum) => prev.push(RepoModView { mod_name: key, checksum: sum, enabled: old.last().enabled }),
            None => prev,
        }
    }
}

/// The names of a list of entries.
pub open spec fn entry_names(es: Seq<RepoModView>) -> Seq<Seq<char>> {
    es.map_values(|e: RepoModView| e.mod_name)
}

/// Mods on disk that no kept entry names, once each in the order found, as
/// enabled required mods.
pub open spec fn new_entries(
    prefix: Seq<(String, SrfMod)>,
    mods: Seq<(String, SrfMod)>,
    used: Seq<Seq<char>>,
) -> Seq<RepoModView>
    decreases prefix.len(),
{
    if prefix.len() == 0 {
        Seq::empty()
    } else {
        let prev = new_entries(prefix.drop_last(), mods, used);
        let n = prefix.last().1.name@;
        if used.contains(n) || mod_names(prefix.drop_last()).contains(n) {
            prev
        } else {
            prev.push(RepoModView { mod_name: n, checksum: last_checksum(mods, n)->Some_0, enabled: true })
        }
    }
}

/// The required and optional mod lists of the new `repo.json`.
pub open spec fn mod_lists_spec(mods: Seq<(String, SrfMod)>, existing: Option<(Seq<RepoMod>, Seq<RepoMod>)>) -> (
    Seq<RepoModView>,
    Seq<RepoModView>,
) {
    match existing {
        Some((req, opt)) => {
            let kept_req = kept_entries(req, mods);
            let kept_opt = kept_entries(opt, mods);
            (kept_req + new_entries(mods, mods, entry_names(kept_req + kept_opt)), kept_opt)
        },
        None => (new_entries(mods, mods, Seq::empty()), Seq::empty()),
    }
}

/// The existing mod lists of an optional `repo.json`.
pub open spec fn existing_lists(existing: Option<&crate::model::RepoSpec>) -> Option<(Seq<RepoMod>, Seq<RepoMod>)> {
    match existing {
        Some(r) => Some((r.required_mods@, r.optional_mods@)),
        None => None,
    }
}

/// The checksum of the last mod with the given name.
fn find_last_checksum(mods: &Vec<(String, SrfMod)>, name: &str) -> (r: Option<Md5Digest>)
    ensures
        match last_checksum(mods@, name@) {
            Some(d) => r matches Some(x) && x@ == d,
            None => r is None,
        },
{
    let mut j = mods.len();
    assert(mods@.take(j as int) =~= mods@);
    while j > 0
        invariant
            j <= mods@.len(),
            last_checksum(mods@, name@) == last_checksum(mods@.take(j as int), name@),
        decreases j,
    {
        j = j - 1;
        assert(mods@.take(j + 1).drop_last() =~= mods@.take(j as int));
        if str_eq(mods[j].1.name.as_str(), name) {
            return Some(mods[j].1.checksum);
        }
    }
    None
}

/// Whether a name is in a list of strings.
fn contains_str(v: &Vec<String>, s: &str) -> (b: bool)
    ensures
        b == v@.map_values(|x: String| x@).contains(s@),
{
    let ghost names = v@.map_values(|x: String| x@);
    let mut i: usize = 0;
    while i < v.len()
        invariant
            0 <= i <= v@.len(),
            names == v@.map_values(|x: String| x@),
            forall|j: int| 0 <= j < i ==> names[j] != s@,
        decreases v@.len() - i,
    {
        if str_eq(v[i].as_str(), s) {
            assert(names[i as int] == s@);
            return true;
        }
        i = i + 1;
    }
    false
}

/// Whether a mod before position `i` has the given name.
fn named_before(mods: &Vec<(String, SrfMod)>, i: usize, name: &str) -> (b: bool)
    requires
        i <= mods@.len(),
    ensures
        b == mod_names(mods@.take(i as int)).contains(name@),
{
    let ghost names = mod_names(mods@.take(i as int));
    let mut j: usize = 0;
    while j < i
        invariant
            0 <= j <= i <= mods@.len(),
            names == mod_names(mods@.take(i as int)),
            forall|k: int| 0 <= k < j ==> names[k] != name@,
        decreases i - j,
    {
        if str_eq(mods[j].1.name.as_str(), name) {
            assert(names[j as int] == name@);
            return true;
        }
        j = j + 1;
    }
    false
}

/// Entries of `listed` still on disk, and their names appended to `used`.
fn keep_entries(listed: &Vec<RepoMod>, mods: &Vec<(String, SrfMod)>, used: &mut Vec<String>) -> (out: Vec<RepoMod>)
    ensures
        repo_mods_view(out@) == kept_entries(listed@, mods@),
        final(used)@.map_values(|x: String| x@) == old(used)@.map_values(|x: String| x@) + entry_names(
            kept_entries(listed@, mods@),
        ),
{
    let mut out: Vec<RepoMod> = Vec::new();
    let mut k: usize = 0;
    while k < listed.len()
        invariant
            0 <= k <= listed@.len(),
            repo_mods_view(out@) == kept_entries(listed@.take(k as int), mods@),
            used@.map_values(|x: String| x@) == old(used)@.map_values(|x: String| x@) + entry_names(
                kept_entries(listed@.take(k as int), mods@),
            ),
        decreases listed@.len() - k,
    {
        let key = to_ascii_lower_string(listed[k].mod_name.as_str());
        assert(listed@.take(k + 1).drop_last() =~= listed@.take(k as int));
        assert(listed@.take(k + 1).last() == listed@[k as int]);
        let ghost before_out = out@;
        let ghost before_used = used@;
        match find_last_checksum(mods, key.as_str()) {
            Some(sum) => {
                let entry = RepoMod { mod_name: key.clone(), checksum: sum, enabled: listed[k].enabled };
                out.push(entry);
                used.push(key);
                assert(repo_mods_view(out@) =~= repo_mods_view(before_out).push(entry@));
                assert(used@.map_values(|x: String| x@) =~= before_used.map_values(|x: String| x@).push(entry@.mod_name));
                assert(entry_names(kept_entries(listed@.take(k + 1), mods@)) =~= entry_names(
                    kept_entries(listed@.take(k as int), mods@),
                ).push(entry@.mod_name));
            },
            None => {},
        }
        k = k + 1;
    }
    assert(listed@.take(listed@.len() as int) =~= listed@);
    out
}

/// Builds the `mod.srf` models of the scanned mods (named by folder) and the
/// required and optional mod lists of the new `repo.json`.
///
/// Mod names become lowercase and their files are ordered by lowercased path.
/// Entries of the existing `repo.json` are kept, in their list and with their
/// `enabled`, while their mod is on disk; mods on disk that it does not list are
/// added to the required mods, enabled, in the order they were scanned.
pub fn build_mod_lists(scanned: Vec<(String, SrfMod)>, existing: Option<&crate::model::RepoSpec>) -> (r: Result<
    (Vec<(String, SrfMod)>, Vec<RepoMod>, Vec<RepoMod>),
    SwiftyError,
>)
    ensures
        r is Ok <==> forall|i: int| 0 <= i < scanned@.len() ==> all_paths_ascii(#[trigger] scanned@[i].1.files@),
        r matches Err(e) ==> exists|i: int|
            0 <= i < scanned@.len() && (forall|j: int|
                0 <= j < i ==> all_paths_ascii(#[trigger] scanned@[j].1.files@)) && is_mod_error(
                #[trigger] scanned@[i].1,
                e@,
            ),
        r matches Ok((mods, req, opt)) ==> {
            &&& mods@.len() == scanned@.len()
            &&& forall|i: int|
                0 <= i < scanned@.len() ==> (#[trigger] mods@[i]).0@ == scanned@[i].0@ && is_normalized_mod(
                    scanned@[i].1,
                    mods@[i].1,
                )
            &&& (repo_mods_view(req@), repo_mods_view(opt@)) == mod_lists_spec(mods@, existing_lists(existing))
        },
{
    let mut mods: Vec<(String, SrfMod)> = Vec::new();
    let mut i: usize = 0;
    while i < scanned.len()
        invariant
            0 <= i <= scanned@.len(),
            mods@.len() == i,
            forall|j: int| 0 <= j < i ==> all_paths_ascii(#[trigger] scanned@[j].1.files@),
            forall|j: int|
                0 <= j < i ==> (#[trigger] mods@[j]).0@ == scanned@[j].0@ && is_normalized_mod(
                    scanned@[j].1,
                    mods@[j].1,
                ),
        decreases scanned@.len() - i,
    {
        let entry = &scanned[i];
        match normalize_mod(&entry.1) {
            Ok(m) => {
                mods.push((entry.0.clone(), m));
            },
            Err(e) => {
                return Err(e);
            },
        }
        i = i + 1;
    }
    let mut used: Vec<String> = Vec::new();
    let (mut required, optional) = match existing {
        Some(old) => {
            let req = keep_entries(&old.required_mods, &mods, &mut used);
            let opt = keep_entries(&old.optional_mods, &mods, &mut used);
            (req, opt)
        },
        None => (Vec::new(), Vec::new()),
    };
    let ghost kept_req = repo_mods_view(required@);
    let ghost used_names = used@.map_values(|x: String| x@);
    assert(used_names == match existing_lists(existing) {
        Some((req, opt)) => entry_names(kept_entries(req, mods@) + kept_entries(opt, mods@)),
        None => Seq::<Seq<char>>::empty(),
    }) by {
        if let Some((req, opt)) = existing_lists(existing) {
            assert(entry_names(kept_entries(req, mods@) + kept_entries(opt, mods@)) =~= entry_names(
                kept_entries(req, mods@),
            ) + entry_names(kept_entries(opt, mods@)));
        } else {
            assert(used_names =~= Seq::<Seq<char>>::empty());
        }
    }
    let mut k: usize = 0;
    while k < mods.len()
        invariant
            0 <= k <= mods@.len(),
            used_names == used@.map_values(|x: String| x@),
            repo_mods_view(required@) == kept_req + new_entries(mods@.take(k as int), mods@, used_names),
        decreases mods@.len() - k,
    {
        assert(mods@.take(k + 1).drop_last() =~= mods@.take(k as int));
        assert(mods@.take(k + 1).last() == mods@[k as int]);
        let name = mods[k].1.name.as_str();
        if !contains_str(&used, name) && !named_before(&mods, k, name) {
            let sum = find_last_checksum(&mods, name);
            proof {
                assert(last_checksum(mods@, name@) is Some) by {
                    lemma_last_checksum_of_member(mods@, k as int);
                }
            }
            let sum = match sum {
                Some(s) => s,
                None => Md5Digest::from_bytes([0u8; 16]),
            };
            let entry = RepoMod { mod_name: mods[k].1.name.clone(), checksum: sum, enabled: true };
            let ghost before = required@;
            required.push(entry);
            assert(repo_mods_view(required@) =~= repo_mods_view(before).push(entry@));
        }
        k = k + 1;
    }
    assert(mods@.take(mods@.len() as int) =~= mods@);
    Ok((mods, required, optional))
}

/// A mod of the list has a last checksum under its name.
pub proof fn lemma_last_checksum_of_member(mods: Seq<(String, SrfMod)>, k: int)
    requires
        0 <= k < mods.len(),
    ensures
        last_checksum(mods, mods[k].1.name@) is Some,
    decreases mods.len(),
{
    if mods.last().1.name@ != mods[k].1.name@ {
        assert(mods.drop_last()[k] == mods[k]);
        lemma_last_checksum_of_member(mods.drop_last(), k);
    }
}


// ---------------------------------------------------------------------------
// repo.json
// ---------------------------------------------------------------------------

/// `char::is_whitespace`: the characters with the Unicode `White_Space` property.
pub open spec fn is_white_space(c: char) -> bool {
    ('\u{9}' <= c <= '\u{d}') || c == ' ' || c == '\u{85}' || c == '\u{a0}' || c == '\u{1680}' || ('\u{2000}' <= c
        <= '\u{200a}') || c == '\u{2028}' || c == '\u{2029}' || c == '\u{202f}' || c == '\u{205f}' || c == '\u{3000}'
}

/// Text that is empty once trimmed: nothing but white space.
pub open spec fn is_blank(s: Seq<char>) -> bool {
    forall|i: int| 0 <= i < s.len() ==> is_white_space(#[trigger] s[i])
}

fn char_is_white_space(c: char) -> (b: bool)
    ensures
        b == is_white_space(c),
{
    ('\u{9}' <= c && c <= '\u{d}') || c == ' ' || c == '\u{85}' || c == '\u{a0}' || c == '\u{1680}' || ('\u{2000}' <= c
        && c <= '\u{200a}') || c == '\u{2028}' || c == '\u{2029}' || c == '\u{202f}' || c == '\u{205f}' || c
        == '\u{3000}'
}

/// Whether a string is empty after trimming white space.
pub fn is_blank_str(s: &str) -> (b: bool)
    ensures
        b == is_blank(s@),
{
    let cs = crate::text::chars_of(s);
    let mut i: usize = 0;
    while i < cs.len()
        invariant
            0 <= i <= cs@.len(),
            cs@ == s@,
            forall|j: int| 0 <= j < i ==> is_white_space(#[trigger] cs@[j]),
        decreases cs@.len() - i,
    {
        if !char_is_white_space(cs[i]) {
            return false;
        }
        i = i + 1;
    }
    true
}

/// The repo name: the one asked for, else the existing one, else the folder's name.
pub open spec fn chosen_repo_name(
    name: Option<Seq<char>>,
    existing: Option<Seq<char>>,
    folder: Option<Seq<char>>,
) -> Option<Seq<char>> {
    match name {
        Some(n) => Some(n),
        None => match existing {
            Some(e) => Some(e),
            None => folder,
        },
    }
}

/// The repo version: the one asked for, else the existing one unless blank, else `3.2.0.0`.
pub open spec fn chosen_repo_version(version: Option<Seq<char>>, existing: Option<Seq<char>>) -> Seq<char> {
    match version {
        Some(v) => v,
        None => match existing {
            Some(e) => if is_blank(e) {
                crate::builder::default_repo_version()
            } else {
                e
            },
            None => crate::builder::default_repo_version(),
        },
    }
}

/// The client parameters: the ones asked for, else the existing ones, else none.
pub open spec fn chosen_client_parameters(cp: Option<Seq<char>>, existing: Option<Seq<char>>) -> Seq<char> {
    match cp {
        Some(c) => c,
        None => match existing {
            Some(e) => e,
            None => Seq::empty(),
        },
    }
}

/// The characters of an optional string.
pub open spec fn opt_view(s: Option<String>) -> Option<Seq<char>> {
    match s {
        Some(x) => Some(x@),
        None => None,
    }
}

/// Builds the new `repo.json`: name, version and client parameters as asked for or
/// kept from the existing one, the given mod lists with the repo checksum for
/// `ticks`, and servers, authentication, DLCs and image paths kept from the
/// existing one (image checksums are set afterwards). `None` when no repo name can
/// be chosen.
pub fn build_repo_spec(
    existing: Option<crate::model::RepoSpec>,
    name: Option<String>,
    repo_version: Option<String>,
    client_parameters: Option<String>,
    folder_name: Option<String>,
    required_mods: Vec<RepoMod>,
    optional_mods: Vec<RepoMod>,
    ticks: u64,
) -> (r: Option<crate::model::RepoSpec>)
    ensures
        name matches Some(n) ==> r matches Some(spec) && spec.repo_name@ == n@,
        name is None ==> match existing {
            Some(o) => r matches Some(spec) && spec.repo_name@ == o.repo_name@,
            None => match folder_name {
                Some(f) => r matches Some(spec) && spec.repo_name@ == f@,
                None => r is None,
            },
        },
        r matches Some(spec) ==> match repo_version {
            Some(v) => spec.version@ == v@,
            None => match existing {
                Some(o) => spec.version@ == if is_blank(o.version@) {
                    "3.2.0.0"@
                } else {
                    o.version@
                },
                None => spec.version@ == "3.2.0.0"@,
            },
        },
        r matches Some(spec) ==> match client_parameters {
            Some(c) => spec.client_parameters@ == c@,
            None => match existing {
                Some(o) => spec.client_parameters@ == o.client_parameters@,
                None => spec.client_parameters@.len() == 0,
            },
        },
        chosen_repo_name(
            opt_view(name),
            match existing {
                Some(o) => Some(o.repo_name@),
                None => None,
            },
            opt_view(folder_name),
        ) is None ==> r is None,
        chosen_repo_name(
            opt_view(name),
            match existing {
                Some(o) => Some(o.repo_name@),
                None => None,
            },
            opt_view(folder_name),
        ) matches Some(n) ==> r matches Some(spec) && {
            &&& spec.repo_name@ == n
            &&& spec.version@ == chosen_repo_version(
                opt_view(repo_version),
                match existing {
                    Some(o) => Some(o.version@),
                    None => None,
                },
            )
            &&& spec.client_parameters@ == chosen_client_parameters(
                opt_view(client_parameters),
                match existing {
                    Some(o) => Some(o.client_parameters@),
                    None => None,
                },
            )
            &&& spec.checksum@ == crate::checksum::repo_checksum_chars(required_mods@, optional_mods@, ticks as nat)
            &&& spec.required_mods == required_mods
            &&& spec.optional_mods == optional_mods
            &&& spec.icon_image_checksum is None
            &&& spec.repo_image_checksum is None
            &&& match existing {
                Some(o) => {
                    &&& spec.servers == o.servers
                    &&& spec.repo_basic_authentication == o.repo_basic_authentication
                    &&& spec.required_dlcs == o.required_dlcs
                    &&& spec.icon_image_path == o.icon_image_path
                    &&& spec.repo_image_path == o.repo_image_path
                },
                None => {
                    &&& spec.servers@.len() == 0
                    &&& spec.repo_basic_authentication is None
                    &&& spec.required_dlcs@.len() == 0
                    &&& spec.icon_image_path is None
                    &&& spec.repo_image_path is None
                },
            }
        },
{
    let checksum = crate::checksum::compute_repo_checksum_with_ticks(
        required_mods.as_slice(),
        optional_mods.as_slice(),
        ticks,
    );
    match existing {
        Some(old) => {
            let repo_name = match name {
                Some(n) => n,
                None => old.repo_name,
            };
            let version = match repo_version {
                Some(v) => v,
                None => {
                    if is_blank_str(old.version.as_str()) {
                        crate::text::owned("3.2.0.0")
                    } else {
                        old.version
                    }
                },
            };
            let client_parameters = match client_parameters {
                Some(c) => c,
                None => old.client_parameters,
            };
            Some(
                crate::model::RepoSpec {
                    repo_name,
                    checksum,
                    required_mods,
                    optional_mods,
                    icon_image_path: old.icon_image_path,
                    icon_image_checksum: None,
                    repo_image_path: old.repo_image_path,
                    repo_image_checksum: None,
                    required_dlcs: old.required_dlcs,
                    client_parameters,
                    repo_basic_authentication: old.repo_basic_authentication,
                    version,
                    servers: old.servers,
                },
            )
        },
        None => {
            let repo_name = match name {
                Some(n) => n,
                None => match folder_name {
                    Some(f) => f,
                    None => {
                        return None;
                    },
                },
            };
            let version = match repo_version {
                Some(v) => v,
                None => crate::text::owned("3.2.0.0"),
            };
            let client_parameters = match client_parameters {
                Some(c) => c,
                None => String::new(),
            };
            Some(
                crate::model::RepoSpec {
                    repo_name,
                    checksum,
                    required_mods,
                    optional_mods,
                    icon_image_path: None,
                    icon_image_checksum: None,
                    repo_image_path: None,
                    repo_image_checksum: None,
                    required_dlcs: Vec::new(),
                    client_parameters,
                    repo_basic_authentication: None,
                    version,
                    servers: Vec::new(),
                },
            )
        },
    }
}

/// The image fields after a rehash: a listed image keeps its path and gets the
/// checksum of its bytes; an unlisted one is adopted under its default name when
/// that file exists (its bytes are given), and has no checksum otherwise.
pub open spec fn rehashed_image(
    path: Option<Seq<char>>,
    default_name: Seq<char>,
    bytes: Option<Seq<u8>>,
) -> (Option<Seq<char>>, Option<Seq<char>>) {
    match path {
        Some(p) => (Some(p), Some(crate::primitives::hex_upper_chars(crate::primitives::sha1_digest(bytes->Some_0)))),
        None => match bytes {
            Some(b) => (Some(default_name), Some(crate::primitives::hex_upper_chars(crate::primitives::sha1_digest(b)))),
            None => (None, None),
        },
    }
}

/// The file whose bytes a rehash of an image needs: its listed path, else its default name.
pub fn image_path_to_hash(path: &Option<String>, default_name: &str) -> (r: String)
    ensures
        r@ == match path {
            Some(p) => p@,
            None => default_name@,
        },
{
    match path {
        Some(p) => p.clone(),
        None => crate::text::owned(default_name),
    }
}

/// Recomputes the image checksums of `repo.json` from the images' bytes: `icon`
/// and `repo_img` are the bytes of the files `image_path_to_hash` names, `None`
/// for a default file that does not exist.
pub fn rehash_repo_images(repo: &mut crate::model::RepoSpec, icon: Option<&[u8]>, repo_img: Option<&[u8]>)
    requires
        old(repo).icon_image_path is Some ==> icon is Some,
        old(repo).repo_image_path is Some ==> repo_img is Some,
    ensures
        (opt_view(final(repo).icon_image_path), opt_view(final(repo).icon_image_checksum)) == rehashed_image(
            opt_view(old(repo).icon_image_path),
            "icon.png"@,
            crate::io::opt_bytes(icon),
        ),
        (opt_view(final(repo).repo_image_path), opt_view(final(repo).repo_image_checksum)) == rehashed_image(
            opt_view(old(repo).repo_image_path),
            "repo.png"@,
            crate::io::opt_bytes(repo_img),
        ),
        final(repo).repo_name == old(repo).repo_name,
        final(repo).checksum == old(repo).checksum,
        final(repo).required_mods == old(repo).required_mods,
        final(repo).optional_mods == old(repo).optional_mods,
        final(repo).required_dlcs == old(repo).required_dlcs,
        final(repo).client_parameters == old(repo).client_parameters,
        final(repo).repo_basic_authentication == old(repo).repo_basic_authentication,
        final(repo).version == old(repo).version,
        final(repo).servers == old(repo).servers,
{
    let (icon_path, icon_sum) = rehash_one(&repo.icon_image_path, "icon.png", icon);
    let (repo_path, repo_sum) = rehash_one(&repo.repo_image_path, "repo.png", repo_img);
    repo.icon_image_path = icon_path;
    repo.icon_image_checksum = icon_sum;
    repo.repo_image_path = repo_path;
    repo.repo_image_checksum = repo_sum;
}

/// The rehashed fields of one image.
fn rehash_one(path: &Option<String>, default_name: &str, bytes: Option<&[u8]>) -> (r: (Option<String>, Option<String>))
    requires
        path is Some ==> bytes is Some,
    ensures
        (opt_view(r.0), opt_view(r.1)) == rehashed_image(opt_view(*path), default_name@, crate::io::opt_bytes(bytes)),
{
    match path {
        Some(p) => {
            let b = match bytes {
                Some(b) => b,
                None => {
                    return (Some(p.clone()), None);
                },
            };
            (Some(p.clone()), Some(crate::io::file_sha1_hex(b)))
        },
        None => match bytes {
            Some(b) => (Some(crate::text::owned(default_name)), Some(crate::io::file_sha1_hex(b))),
            None => (None, None),
        },
    }
}

// ---------------------------------------------------------------------------
// Walking the repository folder
// ---------------------------------------------------------------------------

/// Mod folders are the repository root's folders whose name starts with `@`.
pub fn is_mod_dir_name(name: &str) -> (b: bool)
    ensures
        b == (name@.len() > 0 && name@[0] == '@'),
{
    let cs = crate::text::chars_of(name);
    cs.len() > 0 && cs[0] == '@'
}

/// Version control folders are not walked.
pub fn is_skipped_dir_name(name: &str) -> (b: bool)
    ensures
        b == (name@ == ".git"@ || name@ == ".svn"@),
{
    str_eq(name, ".git") || str_eq(name, ".svn")
}

/// The generated `mod.srf` (in any ASCII case) is not scanned.
pub fn is_mod_srf_name(name: &str) -> (b: bool)
    ensures
        b == (ascii_lower_chars(name@) == "mod.srf"@),
{
    let lower = to_ascii_lower_string(name);
    str_eq(lower.as_str(), "mod.srf")
}

/// `/`-separated form of a relative path: every `\` becomes `/`.
pub fn path_to_forward_slashes(p: &str) -> (r: String)
    ensures
        r@ == p@.map_values(|c: char| if c == '\\' { '/' } else { c }),
{
    let cs = crate::text::chars_of(p);
    let mut out = String::new();
    let mut i: usize = 0;
    while i < cs.len()
        invariant
            0 <= i <= cs@.len(),
            cs@ == p@,
            out@ == p@.take(i as int).map_values(|c: char| if c == '\\' { '/' } else { c }),
        decreases cs@.len() - i,
    {
        let c = if cs[i] == '\\' { '/' } else { cs[i] };
        out.push(c);
        i = i + 1;
        assert(out@ =~= p@.take(i as int).map_values(|c: char| if c == '\\' { '/' } else { c }));
    }
    assert(p@.take(p@.len() as int) =~= p@);
    out
}

/// Positions of strings in stable ascending order of their bytes (the order of `String`).
pub fn text_sort_order(texts: &Vec<String>) -> (order: Vec<usize>)
    ensures
        is_stable_sort_order(texts@.map_values(|t: String| encode_utf8(t@)), order@),
{
    let mut keys: Vec<Vec<u8>> = Vec::new();
    let mut i: usize = 0;
    while i < texts.len()
        invariant
            0 <= i <= texts@.len(),
            keys@.len() == i,
            forall|j: int| 0 <= j < i ==> (#[trigger] keys@[j])@ == encode_utf8(texts@[j]@),
        decreases texts@.len() - i,
    {
        keys.push(slice_to_vec(texts[i].as_str().as_bytes()));
        i = i + 1;
    }
    assert(keys@.map_values(|k: Vec<u8>| k@) =~= texts@.map_values(|t: String| encode_utf8(t@)));
    stable_sort_order(&keys)
}


// ---------------------------------------------------------------------------
// What the mod lists promise
// ---------------------------------------------------------------------------

proof fn lemma_last_checksum_names_a_mod(mods: Seq<(String, SrfMod)>, n: Seq<char>)
    ensures
        last_checksum(mods, n) is Some ==> mod_names(mods).contains(n),
    decreases mods.len(),
{
    if mods.len() > 0 {
        if mods.last().1.name@ == n {
            assert(mod_names(mods)[mods.len() - 1] == n);
        } else {
            lemma_last_checksum_names_a_mod(mods.drop_last(), n);
            if last_checksum(mods, n) is Some {
                let i = choose|i: int| 0 <= i < mod_names(mods.drop_last()).len() && mod_names(mods.drop_last())[i] == n;
                assert(mod_names(mods)[i] == n);
            }
        }
    }
}

proof fn lemma_kept_entries_name_mods(listed: Seq<RepoMod>, mods: Seq<(String, SrfMod)>)
    ensures
        forall|i: int|
            0 <= i < kept_entries(listed, mods).len() ==> mod_names(mods).contains(
                #[trigger] kept_entries(listed, mods)[i].mod_name,
            ),
    decreases listed.len(),
{
    if listed.len() > 0 {
        lemma_kept_entries_name_mods(listed.drop_last(), mods);
        let key = ascii_lower_chars(listed.last().mod_name@);
        lemma_last_checksum_names_a_mod(mods, key);
        let prev = kept_entries(listed.drop_last(), mods);
        assert forall|i: int| 0 <= i < kept_entries(listed, mods).len() implies mod_names(mods).contains(
            #[trigger] kept_entries(listed, mods)[i].mod_name,
        ) by {
            if i < prev.len() {
                assert(kept_entries(listed, mods)[i] == prev[i]);
            }
        }
    }
}

proof fn lemma_new_entries_name_mods(prefix: Seq<(String, SrfMod)>, mods: Seq<(String, SrfMod)>, used: Seq<Seq<char>>)
    ensures
        forall|i: int|
            0 <= i < new_entries(prefix, mods, used).len() ==> mod_names(prefix).contains(
                #[trigger] new_entries(prefix, mods, used)[i].mod_name,
            ),
    decreases prefix.len(),
{
    if prefix.len() > 0 {
        lemma_new_entries_name_mods(prefix.drop_last(), mods, used);
        let prev = new_entries(prefix.drop_last(), mods, used);
        assert forall|i: int| 0 <= i < new_entries(prefix, mods, used).len() implies mod_names(prefix).contains(
            #[trigger] new_entries(prefix, mods, used)[i].mod_name,
        ) by {
            let n = new_entries(prefix, mods, used)[i].mod_name;
            if i < prev.len() {
                assert(new_entries(prefix, mods, used)[i] == prev[i]);
                let j = choose|j: int| 0 <= j < mod_names(prefix.drop_last()).len() && mod_names(prefix.drop_last())[j] == n;
                assert(mod_names(prefix)[j] == n);
            } else {
                assert(mod_names(prefix)[prefix.len() - 1] == n);
            }
        }
    }
}

proof fn lemma_new_entries_cover(prefix: Seq<(String, SrfMod)>, mods: Seq<(String, SrfMod)>, used: Seq<Seq<char>>)
    ensures
        forall|k: int|
            0 <= k < prefix.len() ==> used.contains(#[trigger] prefix[k].1.name@) || entry_names(
                new_entries(prefix, mods, used),
            ).contains(prefix[k].1.name@),
    decreases prefix.len(),
{
    if prefix.len() > 0 {
        let prev_prefix = prefix.drop_last();
        lemma_new_entries_cover(prev_prefix, mods, used);
        let prev = new_entries(prev_prefix, mods, used);
        let cur = new_entries(prefix, mods, used);
        assert forall|k: int| 0 <= k < prefix.len() implies used.contains(#[trigger] prefix[k].1.name@) || entry_names(
            cur,
        ).contains(prefix[k].1.name@) by {
            let n = prefix[k].1.name@;
            if k < prefix.len() - 1 {
                assert(prev_prefix[k] == prefix[k]);
                if !used.contains(n) {
                    let j = choose|j: int| 0 <= j < entry_names(prev).len() && entry_names(prev)[j] == n;
                    assert(cur[j] == prev[j]);
                    assert(entry_names(cur)[j] == n);
                }
            } else if !used.contains(n) {
                if mod_names(prev_prefix).contains(n) {
                    let j = choose|j: int| 0 <= j < mod_names(prev_prefix).len() && mod_names(prev_prefix)[j] == n;
                    assert(prev_prefix[j].1.name@ == n);
                    if !used.contains(prev_prefix[j].1.name@) {
                        let q = choose|q: int| 0 <= q < entry_names(prev).len() && entry_names(prev)[q] == n;
                        assert(cur[q] == prev[q]);
                        assert(entry_names(cur)[q] == n);
                    }
                } else {
                    assert(entry_names(cur)[cur.len() - 1] == n);
                }
            }
        }
    }
}

/// Every entry of the new mod lists names a mod that is on disk: mods removed
/// from disk are dropped from `repo.json`.
pub proof fn law_mod_lists_name_mods_on_disk(
    mods: Seq<(String, SrfMod)>,
    existing: Option<(Seq<RepoMod>, Seq<RepoMod>)>,
)
    ensures
        forall|i: int|
            0 <= i < mod_lists_spec(mods, existing).0.len() ==> mod_names(mods).contains(
                #[trigger] mod_lists_spec(mods, existing).0[i].mod_name,
            ),
        forall|i: int|
            0 <= i < mod_lists_spec(mods, existing).1.len() ==> mod_names(mods).contains(
                #[trigger] mod_lists_spec(mods, existing).1[i].mod_name,
            ),
{
    match existing {
        Some((req, opt)) => {
            let kept_req = kept_entries(req, mods);
            let kept_opt = kept_entries(opt, mods);
            let used = entry_names(kept_req + kept_opt);
            lemma_kept_entries_name_mods(req, mods);
            lemma_kept_entries_name_mods(opt, mods);
            lemma_new_entries_name_mods(mods, mods, used);
            let all = mod_lists_spec(mods, existing).0;
            assert forall|i: int| 0 <= i < all.len() implies mod_names(mods).contains(#[trigger] all[i].mod_name) by {
                if i < kept_req.len() {
                    assert(all[i] == kept_req[i]);
                } else {
                    assert(all[i] == new_entries(mods, mods, used)[i - kept_req.len()]);
                }
            }
        },
        None => {
            lemma_new_entries_name_mods(mods, mods, Seq::empty());
        },
    }
}

/// Every mod on disk is listed in the new `repo.json`, as required or optional.
pub proof fn law_mod_lists_list_every_mod(mods: Seq<(String, SrfMod)>, existing: Option<(Seq<RepoMod>, Seq<RepoMod>)>)
    ensures
        forall|k: int|
            0 <= k < mods.len() ==> entry_names(mod_lists_spec(mods, existing).0).contains(#[trigger] mods[k].1.name@)
                || entry_names(mod_lists_spec(mods, existing).1).contains(mods[k].1.name@),
{
    let (req_list, opt_list) = mod_lists_spec(mods, existing);
    match existing {
        Some((req, opt)) => {
            let kept_req = kept_entries(req, mods);
            let kept_opt = kept_entries(opt, mods);
            let used = entry_names(kept_req + kept_opt);
            let fresh = new_entries(mods, mods, used);
            lemma_new_entries_cover(mods, mods, used);
            assert forall|k: int| 0 <= k < mods.len() implies entry_names(req_list).contains(
                #[trigger] mods[k].1.name@,
            ) || entry_names(opt_list).contains(mods[k].1.name@) by {
                let n = mods[k].1.name@;
                if used.contains(n) {
                    let j = choose|j: int| 0 <= j < used.len() && used[j] == n;
                    if j < kept_req.len() {
                        assert(req_list[j] == kept_req[j]);
                        assert(entry_names(req_list)[j] == n);
                    } else {
                        assert((kept_req + kept_opt)[j] == kept_opt[j - kept_req.len()]);
                        assert(entry_names(opt_list)[j - kept_req.len()] == n);
                    }
                } else {
                    let j = choose|j: int| 0 <= j < entry_names(fresh).len() && entry_names(fresh)[j] == n;
                    assert(req_list[kept_req.len() + j] == fresh[j]);
                    assert(entry_names(req_list)[kept_req.len() + j] == n);
                }
            }
        },
        None => {
            lemma_new_entries_cover(mods, mods, Seq::empty());
        },
    }
}


// ---------------------------------------------------------------------------
// Determinism of the mod lists
// ---------------------------------------------------------------------------

/// Two lists of mods with the same names and checksums, position by position.
pub open spec fn same_names_and_sums(m1: Seq<(String, SrfMod)>, m2: Seq<(String, SrfMod)>) -> bool {
    &&& m1.len() == m2.len()
    &&& forall|i: int|
        0 <= i < m1.len() ==> (#[trigger] m1[i]).1.name@ == m2[i].1.name@ && m1[i].1.checksum@ == m2[i].1.checksum@
}

proof fn lemma_same_prefix(m1: Seq<(String, SrfMod)>, m2: Seq<(String, SrfMod)>)
    requires
        same_names_and_sums(m1, m2),
        m1.len() > 0,
    ensures
        same_names_and_sums(m1.drop_last(), m2.drop_last()),
        mod_names(m1.drop_last()) == mod_names(m2.drop_last()),
{
    assert forall|i: int| 0 <= i < m1.drop_last().len() implies (#[trigger] m1.drop_last()[i]).1.name@
        == m2.drop_last()[i].1.name@ && m1.drop_last()[i].1.checksum@ == m2.drop_last()[i].1.checksum@ by {
        assert(m1.drop_last()[i] == m1[i] && m2.drop_last()[i] == m2[i]);
    }
    assert(mod_names(m1.drop_last()) =~= mod_names(m2.drop_last()));
}

proof fn lemma_last_checksum_same(m1: Seq<(String, SrfMod)>, m2: Seq<(String, SrfMod)>, n: Seq<char>)
    requires
        same_names_and_sums(m1, m2),
    ensures
        last_checksum(m1, n) == last_checksum(m2, n),
    decreases m1.len(),
{
    if m1.len() > 0 {
        assert(m1[m1.len() - 1] == m1.last());
        lemma_same_prefix(m1, m2);
        lemma_last_checksum_same(m1.drop_last(), m2.drop_last(), n);
    }
}

proof fn lemma_kept_entries_same(listed: Seq<RepoMod>, m1: Seq<(String, SrfMod)>, m2: Seq<(String, SrfMod)>)
    requires
        same_names_and_sums(m1, m2),
    ensures
        kept_entries(listed, m1) == kept_entries(listed, m2),
    decreases listed.len(),
{
    if listed.len() > 0 {
        lemma_kept_entries_same(listed.drop_last(), m1, m2);
        lemma_last_checksum_same(m1, m2, ascii_lower_chars(listed.last().mod_name@));
    }
}

proof fn lemma_new_entries_same(
    p1: Seq<(String, SrfMod)>,
    p2: Seq<(String, SrfMod)>,
    m1: Seq<(String, SrfMod)>,
    m2: Seq<(String, SrfMod)>,
    used: Seq<Seq<char>>,
)
    requires
        same_names_and_sums(p1, p2),
        same_names_and_sums(m1, m2),
    ensures
        new_entries(p1, m1, used) == new_entries(p2, m2, used),
    decreases p1.len(),
{
    if p1.len() > 0 {
        assert(p1[p1.len() - 1] == p1.last() && p2[p2.len() - 1] == p2.last());
        lemma_same_prefix(p1, p2);
        lemma_new_entries_same(p1.drop_last(), p2.drop_last(), m1, m2, used);
        lemma_last_checksum_same(m1, m2, p1.last().1.name@);
    }
}

/// The mod lists depend only on the names and checksums of the mods, in order.
pub proof fn lemma_mod_lists_same(
    m1: Seq<(String, SrfMod)>,
    m2: Seq<(String, SrfMod)>,
    existing: Option<(Seq<RepoMod>, Seq<RepoMod>)>,
)
    requires
        same_names_and_sums(m1, m2),
    ensures
        mod_lists_spec(m1, existing) == mod_lists_spec(m2, existing),
{
    match existing {
        Some((req, opt)) => {
            lemma_kept_entries_same(req, m1, m2);
            lemma_kept_entries_same(opt, m1, m2);
            lemma_new_entries_same(
                m1,
                m2,
                m1,
                m2,
                entry_names(kept_entries(req, m1) + kept_entries(opt, m1)),
            );
        },
        None => {
            lemma_new_entries_same(m1, m2, m1, m2, Seq::empty());
        },
    }
}

/// The stable lowercased-path order of a file list is unique.
proof fn lemma_sorted_by_lower_path_unique(files: Seq<SrfFile>, s1: Seq<FileView>, s2: Seq<FileView>)
    requires
        is_sorted_by_lower_path(files, s1),
        is_sorted_by_lower_path(files, s2),
    ensures
        s1 == s2,
{
    let o1 = choose|order: Seq<usize>|
        #[trigger] is_stable_sort_order(lower_path_keys(files), order) && s1.len() == order.len() && forall|k: int|
            0 <= k < order.len() ==> s1[k] == files[order[k] as int]@;
    let o2 = choose|order: Seq<usize>|
        #[trigger] is_stable_sort_order(lower_path_keys(files), order) && s2.len() == order.len() && forall|k: int|
            0 <= k < order.len() ==> s2[k] == files[order[k] as int]@;
    crate::sort::lemma_stable_sort_order_unique(lower_path_keys(files), o1, o2);
    assert(s1 =~= s2);
}

/// Two file lists with the same views have the same mod checksum.
proof fn lemma_mod_checksum_of_views(a: Seq<SrfFile>, b: Seq<SrfFile>, da: Seq<u8>, db: Seq<u8>)
    requires
        files_view(a) == files_view(b),
        is_mod_checksum(a, da),
        is_mod_checksum(b, db),
    ensures
        da == db,
{
    assert(a.len() == files_view(a).len() && b.len() == files_view(b).len());
    assert forall|i: int| 0 <= i < a.len() implies (#[trigger] a[i]).path@ == b[i].path@ && a[i].checksum@
        == b[i].checksum@ by {
        assert(files_view(a)[i] == files_view(b)[i]);
        assert(files_view(a)[i] == a[i]@ && files_view(b)[i] == b[i]@);
    }
    assert(crate::checksum::file_sort_keys(a) =~= crate::checksum::file_sort_keys(b));
    let oa = choose|o: Seq<usize>|
        is_stable_sort_order(crate::checksum::file_sort_keys(a), o) && da == crate::primitives::md5_digest(
            #[trigger] crate::checksum::mod_digest_input(a, o),
        );
    let ob = choose|o: Seq<usize>|
        is_stable_sort_order(crate::checksum::file_sort_keys(b), o) && db == crate::primitives::md5_digest(
            #[trigger] crate::checksum::mod_digest_input(b, o),
        );
    crate::sort::lemma_stable_sort_order_unique(crate::checksum::file_sort_keys(a), oa, ob);
    crate::checksum::lemma_mod_digest_input_same_views(a, b, oa);
}

/// `build_mod_lists` is deterministic: two runs on the same scanned mods and the
/// same existing `repo.json` give the same `mod.srf` files, names and checksums,
/// and the same required and optional lists (new mods in scan order), so the repo
/// checksum over them is reproducible.
pub proof fn law_build_mod_lists_deterministic(
    scanned: Seq<(String, SrfMod)>,
    existing: Option<(Seq<RepoMod>, Seq<RepoMod>)>,
    mods1: Seq<(String, SrfMod)>,
    mods2: Seq<(String, SrfMod)>,
)
    requires
        mods1.len() == scanned.len(),
        mods2.len() == scanned.len(),
        forall|i: int|
            0 <= i < scanned.len() ==> (#[trigger] mods1[i]).0@ == scanned[i].0@ && is_normalized_mod(
                scanned[i].1,
                mods1[i].1,
            ),
        forall|i: int|
            0 <= i < scanned.len() ==> (#[trigger] mods2[i]).0@ == scanned[i].0@ && is_normalized_mod(
                scanned[i].1,
                mods2[i].1,
            ),
    ensures
        forall|i: int|
            0 <= i < scanned.len() ==> (#[trigger] mods1[i]).1.name@ == mods2[i].1.name@ && files_view(
                mods1[i].1.files@,
            ) == files_view(mods2[i].1.files@) && mods1[i].1.checksum@ == mods2[i].1.checksum@,
        mod_lists_spec(mods1, existing) == mod_lists_spec(mods2, existing),
{
    assert forall|i: int| 0 <= i < scanned.len() implies (#[trigger] mods1[i]).1.name@ == mods2[i].1.name@
        && files_view(mods1[i].1.files@) == files_view(mods2[i].1.files@) && mods1[i].1.checksum@
        == mods2[i].1.checksum@ by {
        assert(is_normalized_mod(scanned[i].1, mods2[i].1));
        lemma_sorted_by_lower_path_unique(
            scanned[i].1.files@,
            files_view(mods1[i].1.files@),
            files_view(mods2[i].1.files@),
        );
        lemma_mod_checksum_of_views(
            mods1[i].1.files@,
            mods2[i].1.files@,
            mods1[i].1.checksum@,
            mods2[i].1.checksum@,
        );
    }
    lemma_mod_lists_same(mods1, mods2, existing);
}

} // verus!
