//! Builder that turns Swifty file metadata into `repo.json` and `mod.srf` models.
//!
//! The builder is strict: non-empty files need named parts covering the file, and
//! each file checksum must match the Swifty checksum derived from its parts.

use vstd::prelude::*;
use vstd::utf8::is_ascii_chars;
use crate::checksum::{
    SwiftyError, SwiftyErrorView, all_paths_ascii, compute_mod_checksum, compute_repo_checksum_with_ticks,
    file_md5_from_parts, file_md5_spec, file_sort_keys, mod_digest_input, part_digests, parts_cover_file,
    is_mod_checksum, repo_checksum_chars, validate_parts_swifty_strict,
};
use crate::model::{Md5Digest, RepoMod, RepoSpec, SrfFile, SrfMod, parts_view};
use crate::path::{ensure_ascii_path, file_type_chars, file_type_for, non_ascii_message, normalize_srf_path, srf_path_chars};
use crate::primitives::md5_digest;
use crate::ticks::{DOTNET_EPOCH_TICKS, dotnet_ticks_from_system_time};
use crate::text::{ascii_lower_chars, owned, to_ascii_lower_string};

verus! {

/// The error text of a clock that cannot be read as .NET ticks.
pub open spec fn clock_error_text() -> Seq<char> {
    "system time before unix epoch"@
}

/// Version written into `repo.json` unless another one is set.
pub open spec fn default_repo_version() -> Seq<char> {
    "3.2.0.0"@
}

/// The `repo.json` model and the `mod.srf` model of every mod.
#[derive(Debug, Clone)]
pub struct RepoArtifacts {
    pub repo: RepoSpec,
    pub mods: Vec<SrfMod>,
}

/// Collects the mods of a repository and builds its artifacts.
#[derive(Debug, Clone)]
pub struct RepoBuilder {
    pub name: String,
    pub version: String,
    pub client_parameters: String,
    pub mods: Vec<SrfMod>,
}

/// ASCII characters stay ASCII when `/` becomes `\`.
pub proof fn lemma_srf_path_keeps_ascii(s: Seq<char>)
    requires
        is_ascii_chars(s),
    ensures
        is_ascii_chars(srf_path_chars(s)),
{
    assert forall|i: int| 0 <= i < srf_path_chars(s).len() implies '\0' <= #[trigger] srf_path_chars(s)[i] <= '\u{7f}' by {
        assert('\0' <= s[i] <= '\u{7f}');
    }
}

/// The error `ensure_file_metadata` reports for a file, if any.
pub open spec fn file_check_error(f: SrfFile) -> Option<SwiftyErrorView> {
    let p = srf_path_chars(f.path@);
    let pv = parts_view(f.parts@);
    if !is_ascii_chars(f.path@) {
        Some(SwiftyErrorView::NonAsciiPath(non_ascii_message("file path"@, f.path@)))
    } else if !parts_cover_file(pv, f.length as int) {
        if f.parts@.len() == 0 {
            Some(SwiftyErrorView::MissingParts(p))
        } else {
            Some(SwiftyErrorView::InvalidPartCoverage(p))
        }
    } else if f.length != 0 && exists|i: int| 0 <= i < pv.len() && (#[trigger] pv[i]).path.len() == 0 {
        Some(SwiftyErrorView::MissingPartName(p))
    } else if f.length > 0 && f.checksum@ != file_md5_spec(part_digests(f.parts@)) {
        Some(SwiftyErrorView::FileChecksumMismatch(p))
    } else {
        None
    }
}

/// `new` is `old` with its path in `mod.srf` form and its type filled in.
pub open spec fn is_normalized_file(old: SrfFile, new: SrfFile) -> bool {
    &&& new.path@ == srf_path_chars(old.path@)
    &&& new.length == old.length
    &&& new.checksum == old.checksum
    &&& new.parts == old.parts
    &&& old.file_type is Some ==> new.file_type == old.file_type
    &&& old.file_type is None ==> (new.file_type matches Some(t) && t@ == file_type_chars(new.path@))
}

/// Normalizes a file's path and type and checks its parts and checksum.
pub fn ensure_file_metadata(file: &mut SrfFile) -> (r: Result<(), SwiftyError>)
    ensures
        r is Ok <==> file_check_error(*old(file)) is None,
        r matches Err(e) ==> file_check_error(*old(file)) == Some(e@),
        r is Ok ==> is_normalized_file(*old(file), *final(file)),
        r is Err ==> {
            &&& final(file).path@ == (if is_ascii_chars(old(file).path@) {
                srf_path_chars(old(file).path@)
            } else {
                old(file).path@
            })
            &&& final(file).length == old(file).length
            &&& final(file).checksum == old(file).checksum
            &&& final(file).parts == old(file).parts
            &&& final(file).file_type == old(file).file_type
        },
{
    ensure_ascii_path("file path", file.path.as_str())?;
    let normalized = normalize_srf_path(file.path.as_str());
    file.path = normalized;
    if file.length > 0 && file.parts.len() == 0 {
        return Err(SwiftyError::MissingParts(file.path.clone()));
    }
    validate_parts_swifty_strict(file.path.as_str(), file.length, file.parts.as_slice())?;
    if file.length > 0 {
        let expected = file_md5_from_parts(file.parts.as_slice());
        if !expected.same_as(&file.checksum) {
            return Err(SwiftyError::FileChecksumMismatch(file.path.clone()));
        }
    }
    if file.file_type.is_none() {
        let t = file_type_for(file.path.as_str());
        file.file_type = Some(t);
    }
    Ok(())
}


/// The first file error of `files`, from position `i` on.
pub open spec fn files_check_error(files: Seq<SrfFile>, i: int) -> Option<SwiftyErrorView>
    decreases files.len() - i,
{
    if i < 0 || i >= files.len() {
        None
    } else {
        match file_check_error(files[i]) {
            Some(e) => Some(e),
            None => files_check_error(files, i + 1),
        }
    }
}

/// The error building a mod reports, if any.
pub open spec fn mod_check_error(m: SrfMod) -> Option<SwiftyErrorView> {
    if !is_ascii_chars(m.name@) {
        Some(SwiftyErrorView::NonAsciiPath(non_ascii_message("mod name"@, m.name@)))
    } else {
        files_check_error(m.files@, 0)
    }
}

/// The first mod error of `mods`, from position `i` on.
pub open spec fn mods_check_error(mods: Seq<SrfMod>, i: int) -> Option<SwiftyErrorView>
    decreases mods.len() - i,
{
    if i < 0 || i >= mods.len() {
        None
    } else {
        match mod_check_error(mods[i]) {
            Some(e) => Some(e),
            None => mods_check_error(mods, i + 1),
        }
    }
}

/// The error `build_with_ticks` reports, if any.
pub open spec fn build_check_error(b: RepoBuilder) -> Option<SwiftyErrorView> {
    if !is_ascii_chars(b.name@) {
        Some(SwiftyErrorView::NonAsciiPath(non_ascii_message("repo name"@, b.name@)))
    } else if !is_ascii_chars(b.version@) {
        Some(SwiftyErrorView::NonAsciiPath(non_ascii_message("repo version"@, b.version@)))
    } else if !is_ascii_chars(b.client_parameters@) {
        Some(SwiftyErrorView::NonAsciiPath(non_ascii_message("repo client parameters"@, b.client_parameters@)))
    } else {
        mods_check_error(b.mods@, 0)
    }
}

/// `new` is the `mod.srf` model built from `old`: lowercase name, normalized files
/// and the Swifty mod checksum of those files.
pub open spec fn is_built_mod(old: SrfMod, new: SrfMod) -> bool {
    &&& new.name@ == ascii_lower_chars(old.name@)
    &&& new.files@.len() == old.files@.len()
    &&& forall|j: int| 0 <= j < old.files@.len() ==> is_normalized_file(old.files@[j], #[trigger] new.files@[j])
    &&& is_mod_checksum(new.files@, new.checksum@)
}

/// The `repo.json` entry of a built mod: same name and checksum, enabled.
pub open spec fn is_repo_entry_for(entry: RepoMod, m: SrfMod) -> bool {
    &&& entry.mod_name@ == m.name@
    &&& entry.checksum == m.checksum
    &&& entry.enabled
}

/// Normalizes and checks one mod, fills in its checksum and returns its `repo.json` entry.
fn build_mod(m: &mut SrfMod) -> (r: Result<RepoMod, SwiftyError>)
    ensures
        r is Ok <==> mod_check_error(*old(m)) is None,
        r matches Err(e) ==> mod_check_error(*old(m)) == Some(e@),
        r matches Ok(entry) ==> is_built_mod(*old(m), *final(m)) && is_repo_entry_for(entry, *final(m)),
{
    let ghost old_m = *m;
    ensure_ascii_path("mod name", m.name.as_str())?;
    let mod_name = to_ascii_lower_string(m.name.as_str());
    let mut j: usize = 0;
    while j < m.files.len()
        invariant
            0 <= j <= m.files@.len(),
            m.files@.len() == old_m.files@.len(),
            m.name == old_m.name,
            old_m == *old(m),
            is_ascii_chars(old_m.name@),
            files_check_error(old_m.files@, 0) == files_check_error(old_m.files@, j as int),
            forall|k: int| 0 <= k < j ==> is_normalized_file(old_m.files@[k], #[trigger] m.files@[k]),
            forall|k: int| 0 <= k < j ==> is_ascii_chars(#[trigger] old_m.files@[k].path@),
            forall|k: int| j <= k < m.files@.len() ==> #[trigger] m.files@[k] == old_m.files@[k],
        decreases m.files@.len() - j,
    {
        assert(m.files@[j as int] == old_m.files@[j as int]);
        let res = ensure_file_metadata(&mut m.files[j]);
        match res {
            Ok(()) => {},
            Err(e) => {
                assert(file_check_error(old_m.files@[j as int]) == Some(e@));
                assert(files_check_error(old_m.files@, j as int) == Some(e@));
                return Err(e);
            },
        }
        j = j + 1;
    }
    proof {
        assert forall|k: int| 0 <= k < m.files@.len() implies is_ascii_chars(#[trigger] m.files@[k].path@) by {
            lemma_srf_path_keeps_ascii(old_m.files@[k].path@);
        }
        assert(all_paths_ascii(m.files@));
    }
    let checksum = match compute_mod_checksum(m.files.as_slice()) {
        Ok(d) => d,
        Err(e) => {
            return Err(e);
        },
    };
    let entry = RepoMod { mod_name: mod_name.clone(), checksum, enabled: true };
    m.checksum = checksum;
    m.name = mod_name;
    Ok(entry)
}

/// `a` is what building `b` with the given ticks produces.
pub open spec fn is_build_result(b: RepoBuilder, a: RepoArtifacts, ticks: nat) -> bool {
    &&& a.repo.repo_name@ == b.name@
    &&& a.repo.version@ == b.version@
    &&& a.repo.client_parameters@ == b.client_parameters@
    &&& a.repo.optional_mods@.len() == 0
    &&& a.repo.required_dlcs@.len() == 0
    &&& a.repo.servers@.len() == 0
    &&& a.repo.icon_image_path is None
    &&& a.repo.icon_image_checksum is None
    &&& a.repo.repo_image_path is None
    &&& a.repo.repo_image_checksum is None
    &&& a.repo.repo_basic_authentication is None
    &&& a.mods@.len() == b.mods@.len()
    &&& a.repo.required_mods@.len() == b.mods@.len()
    &&& forall|i: int| 0 <= i < b.mods@.len() ==> is_built_mod(b.mods@[i], #[trigger] a.mods@[i])
    &&& forall|i: int| 0 <= i < b.mods@.len() ==> is_repo_entry_for(#[trigger] a.repo.required_mods@[i], a.mods@[i])
    &&& a.repo.checksum@ == repo_checksum_chars(a.repo.required_mods@, a.repo.optional_mods@, ticks)
}

impl RepoBuilder {
    /// A builder with the given repo name, version `3.2.0.0`, no client parameters and no mods.
    pub fn new(name: &str) -> (b: Self)
        ensures
            b.name@ == name@,
            b.version@ == default_repo_version(),
            b.client_parameters@ == Seq::<char>::empty(),
            b.mods@.len() == 0,
    {
        Self { name: owned(name), version: owned("3.2.0.0"), client_parameters: String::new(), mods: Vec::new() }
    }

    pub fn with_client_parameters(self, v: &str) -> (b: Self)
        ensures
            b.client_parameters@ == v@,
            b.name == self.name,
            b.version == self.version,
            b.mods == self.mods,
    {
        let mut b = self;
        b.client_parameters = owned(v);
        b
    }

    pub fn with_version(self, v: &str) -> (b: Self)
        ensures
            b.version@ == v@,
            b.name == self.name,
            b.client_parameters == self.client_parameters,
            b.mods == self.mods,
    {
        let mut b = self;
        b.version = owned(v);
        b
    }

    pub fn add_mod(&mut self, mod_srf: SrfMod)
        ensures
            final(self).mods@ == old(self).mods@.push(mod_srf),
            final(self).name == old(self).name,
            final(self).version == old(self).version,
            final(self).client_parameters == old(self).client_parameters,
    {
        self.mods.push(mod_srf);
    }

    /// A builder for the given repo name holding the given mods.
    pub fn from_mods(mods: Vec<SrfMod>, name: &str) -> (b: Self)
        ensures
            b.name@ == name@,
            b.version@ == default_repo_version(),
            b.client_parameters@ == Seq::<char>::empty(),
            b.mods == mods,
    {
        let mut b = RepoBuilder::new(name);
        b.mods = mods;
        b
    }

    /// Builds the artifacts, using the current time as .NET ticks for the repo checksum.
    /// A clock that reads before the Unix epoch (or past what `u64` ticks hold) is
    /// reported as an `Io` error, before anything is checked.
    pub fn build(self) -> (r: Result<RepoArtifacts, SwiftyError>)
        ensures
            r is Ok ==> build_check_error(self) is None,
            build_check_error(self) is Some ==> r is Err,
            r matches Err(e) ==> e@ == SwiftyErrorView::Io(clock_error_text()) || build_check_error(self) == Some(e@),
            r matches Ok(a) ==> exists|ticks: nat| ticks >= DOTNET_EPOCH_TICKS && is_build_result(self, a, ticks),
    {
        let ticks = match dotnet_ticks_from_system_time() {
            Some(t) => t,
            None => {
                return Err(SwiftyError::Io(owned("system time before unix epoch")));
            },
        };
        let r = self.build_with_ticks(ticks);
        assert(r matches Ok(a) ==> is_build_result(self, a, ticks as nat));
        r
    }

    /// Builds the artifacts with an explicit .NET ticks value for the repo checksum.
    pub fn build_with_ticks(self, ticks: u64) -> (r: Result<RepoArtifacts, SwiftyError>)
        ensures
            r is Ok <==> build_check_error(self) is None,
            r matches Err(e) ==> build_check_error(self) == Some(e@),
            r matches Ok(a) ==> is_build_result(self, a, ticks as nat),
    {
        ensure_ascii_path("repo name", self.name.as_str())?;
        ensure_ascii_path("repo version", self.version.as_str())?;
        ensure_ascii_path("repo client parameters", self.client_parameters.as_str())?;
        let ghost old_mods = self.mods@;
        let ghost expected_error = build_check_error(self);
        assert(expected_error == mods_check_error(old_mods, 0));
        let mut mods = self.mods;
        let mut required_mods: Vec<RepoMod> = Vec::new();
        let mut i: usize = 0;
        while i < mods.len()
            invariant
                0 <= i <= mods@.len(),
                mods@.len() == old_mods.len(),
                required_mods@.len() == i,
                mods_check_error(old_mods, 0) == mods_check_error(old_mods, i as int),
                expected_error == mods_check_error(old_mods, 0),
                expected_error == build_check_error(self),
                forall|k: int| 0 <= k < i ==> is_built_mod(old_mods[k], #[trigger] mods@[k]),
                forall|k: int| 0 <= k < i ==> is_repo_entry_for(#[trigger] required_mods@[k], mods@[k]),
                forall|k: int| i <= k < mods@.len() ==> #[trigger] mods@[k] == old_mods[k],
            decreases mods@.len() - i,
        {
            assert(mods@[i as int] == old_mods[i as int]);
            let entry = match build_mod(&mut mods[i]) {
                Ok(entry) => entry,
                Err(e) => {
                    assert(mod_check_error(old_mods[i as int]) == Some(e@));
                    assert(mods_check_error(old_mods, i as int) == Some(e@));
                    return Err(e);
                },
            };
            required_mods.push(entry);
            i = i + 1;
        }
        let optional_mods: Vec<RepoMod> = Vec::new();
        let repo_checksum = compute_repo_checksum_with_ticks(required_mods.as_slice(), optional_mods.as_slice(), ticks);
        let repo = RepoSpec {
            repo_name: self.name,
            checksum: repo_checksum,
            required_mods,
            optional_mods,
            icon_image_path: None,
            icon_image_checksum: None,
            repo_image_path: None,
            repo_image_checksum: None,
            required_dlcs: Vec::new(),
            client_parameters: self.client_parameters,
            repo_basic_authentication: None,
            version: self.version,
            servers: Vec::new(),
        };
        Ok(RepoArtifacts { repo, mods })
    }
}

} // verus!
