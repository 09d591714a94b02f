//! Swifty repository artifacts: the `repo.json` / `mod.srf` models, the
//! Swifty checksum rules, PBO partitioning and file scanning, verified with Verus.

pub mod assemble;
pub mod builder;
pub mod checksum;
pub mod io;
pub mod model;
pub mod path;
pub mod pbo;
pub mod primitives;
pub mod scan;
pub mod sort;
pub mod streaming;
pub mod text;
pub mod ticks;

pub use builder::{RepoArtifacts, RepoBuilder};
pub use checksum::{
    compute_mod_checksum, compute_repo_checksum_with_ticks, dotnet_ticks_from_system_time, file_md5_from_parts,
    swifty_file_info_from_bytes, validate_part_coverage, validate_parts_swifty_strict, SwiftyError, RAW_PART_SIZE,
};
pub use io::{apply_repo_images, strip_utf8_bom};
pub use model::{DigestError, Md5Digest, RepoMod, RepoSpec, SrfFile, SrfMod, SrfPart};
pub use pbo::{swifty_pbo_part_plan_from_prefix, swifty_pbo_parts_from_bytes, swifty_pbo_parts_zero_md5_from_reader};
pub use scan::{scan_file, should_ignore_rel_path};
pub use streaming::{SwiftyStreamingPartScanner, SwiftyStreamingPartValidator};
