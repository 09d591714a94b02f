use swifty_artifacts::assemble::{
    build_mod_lists, build_repo_spec, image_path_to_hash, is_blank_str, is_mod_dir_name, is_mod_srf_name,
    is_skipped_dir_name, path_to_forward_slashes, rehash_repo_images, text_sort_order,
};
use swifty_artifacts::checksum::{part_md5_from_bytes, part_md5_zeroes, raw_part_name, salted_md5_hex};
use swifty_artifacts::io::{file_sha1_hex, parse_u16_text, u16_text_error_message, U16TextError};
use swifty_artifacts::model::DigestError;
use swifty_artifacts::path::{
    ensure_ascii_path, file_type_for, normalize_srf_path, path_extension, path_file_name, path_for_checksum,
    sort_key_for_mod,
};
use swifty_artifacts::pbo::{read_failure_message, PboReadFailure};
use swifty_artifacts::scan::{
    pbo_mode, positional_md5, scan_raw_len_positional, scan_raw_len_zero, signature_mode, signature_salt, PboMode,
    ScanSettings, SignatureMode,
};
use swifty_artifacts::ticks::{dotnet_ticks_from_unix, ticks_checked, DOTNET_EPOCH_TICKS};
use swifty_artifacts::{
    apply_repo_images, file_md5_from_parts, scan_file, strip_utf8_bom, swifty_file_info_from_bytes,
    swifty_pbo_part_plan_from_prefix, swifty_pbo_parts_zero_md5_from_reader, validate_part_coverage,
    validate_parts_swifty_strict, Md5Digest, RepoBuilder, RepoMod, RepoSpec, SrfFile, SrfMod, SrfPart,
    SwiftyError, SwiftyStreamingPartScanner, SwiftyStreamingPartValidator, RAW_PART_SIZE,
};

fn settings(signature: SignatureMode, salt: &str, pbo: PboMode) -> ScanSettings {
    ScanSettings { signature, salt: salt.to_string(), pbo }
}

fn md5_of(bytes: &[u8]) -> Md5Digest {
    Md5Digest::from_bytes(md5::compute(bytes).0)
}

fn pbo_entry(bytes: &mut Vec<u8>, name: &str, data_size: u32) {
    bytes.extend_from_slice(name.as_bytes());
    bytes.push(0);
    for value in [0_u32, 0, 0, 0, data_size] {
        bytes.extend_from_slice(&value.to_le_bytes());
    }
}

fn small_pbo(payload: &[u8]) -> Vec<u8> {
    let mut bytes = Vec::new();
    pbo_entry(&mut bytes, "dummy", 0);
    pbo_entry(&mut bytes, "a.txt", payload.len() as u32);
    pbo_entry(&mut bytes, "", 0);
    bytes.extend_from_slice(payload);
    bytes
}

fn repo_mod(name: &str, hex: &str, enabled: bool) -> RepoMod {
    RepoMod { mod_name: name.to_string(), checksum: Md5Digest::parse_hex(hex).unwrap(), enabled }
}

fn empty_repo(name: &str) -> RepoSpec {
    RepoSpec {
        repo_name: name.to_string(),
        checksum: String::new(),
        required_mods: Vec::new(),
        optional_mods: Vec::new(),
        icon_image_path: None,
        icon_image_checksum: None,
        repo_image_path: None,
        repo_image_checksum: None,
        required_dlcs: Vec::new(),
        client_parameters: String::new(),
        repo_basic_authentication: None,
        version: String::new(),
        servers: Vec::new(),
    }
}

fn sha1_hex(bytes: &[u8]) -> String {
    hex::encode_upper(<sha1::Sha1 as sha1::Digest>::digest(bytes))
}

// --- digests -----------------------------------------------------------------

#[test]
fn digest_hex_round_trips() {
    let d = md5_of(b"round trip");
    let text = d.to_hex_upper();
    assert_eq!(text, format!("{:X}", md5::compute(b"round trip")));
    assert_eq!(Md5Digest::parse_hex(&text).unwrap(), d);
    assert_eq!(Md5Digest::parse_hex(&text.to_ascii_lowercase()).unwrap(), d);
}

#[test]
fn digest_parse_rejects_bad_text() {
    match Md5Digest::parse_hex("XYZ") {
        Err(DigestError::InvalidHex(s)) => assert_eq!(s, "XYZ"),
        Ok(_) => panic!("short text parsed"),
    }
    assert!(Md5Digest::parse_hex("AAAAAAAAAAAAAAAAAAAAAAAAAAAAAAAAAA").is_err());
    assert!(Md5Digest::parse_hex("GAAAAAAAAAAAAAAAAAAAAAAAAAAAAAAA").is_err());
    assert_eq!(Md5Digest::default().as_bytes(), &[0u8; 16]);
}

#[test]
fn part_checksums_match_md5() {
    assert_eq!(part_md5_from_bytes(b"abc"), md5_of(b"abc"));
    assert_eq!(part_md5_zeroes(3), md5_of(&[0, 0, 0]));
    assert_eq!(part_md5_zeroes(0), md5_of(b""));
    assert_eq!(part_md5_zeroes(20000), md5_of(&vec![0u8; 20000]));
    let salted = salted_md5_hex("salt", "ABC");
    assert_eq!(salted, md5_of(b"saltABC"));
}

#[test]
fn raw_part_names_carry_the_end_offset() {
    assert_eq!(raw_part_name("file.bin", 10), "file.bin_10");
    assert_eq!(raw_part_name("x", 0), "x_0");
}

#[test]
fn file_checksum_hashes_uppercase_part_hex() {
    let parts = vec![
        SrfPart { path: "p_1".into(), start: 0, length: 1, checksum: md5_of(b"a") },
        SrfPart { path: "p_2".into(), start: 1, length: 1, checksum: md5_of(b"b") },
    ];
    let mut concat = String::new();
    concat.push_str(&format!("{:X}", md5::compute(b"a")));
    concat.push_str(&format!("{:X}", md5::compute(b"b")));
    assert_eq!(file_md5_from_parts(&parts), md5_of(concat.as_bytes()));
}

#[test]
fn raw_chunking_edges() {
    let (_, none) = swifty_file_info_from_bytes("e.bin", b"");
    assert!(none.is_empty());
    let exact = vec![7u8; RAW_PART_SIZE as usize];
    let (_, one) = swifty_file_info_from_bytes("e.bin", &exact);
    assert_eq!(one.len(), 1);
    assert_eq!(one[0].path, format!("e.bin_{}", RAW_PART_SIZE));
    assert!(validate_part_coverage("e.bin", exact.len() as u64, &one).is_ok());
}

// --- validation ---------------------------------------------------------------

#[test]
fn coverage_errors() {
    let part = |path: &str, start: u64, length: u64| SrfPart { path: path.into(), start, length, checksum: md5_of(b"") };
    assert!(validate_part_coverage("f", 0, &[]).is_ok());
    assert!(matches!(validate_part_coverage("f", 3, &[]), Err(SwiftyError::MissingParts(p)) if p == "f"));
    assert!(matches!(
        validate_part_coverage("f", 3, &[part("a", 1, 2)]),
        Err(SwiftyError::InvalidPartCoverage(p)) if p == "f"
    ));
    assert!(matches!(
        validate_part_coverage("f", 3, &[part("a", 0, 2)]),
        Err(SwiftyError::InvalidPartCoverage(_))
    ));
    assert!(validate_part_coverage("f", 3, &[part("a", 0, 2), part("b", 2, 1)]).is_ok());
    assert!(matches!(
        validate_parts_swifty_strict("f", 3, &[part("a", 0, 2), part("", 2, 1)]),
        Err(SwiftyError::MissingPartName(p)) if p == "f"
    ));
}

#[test]
fn builder_reports_each_file_error() {
    let bad_parts = SrfFile {
        path: "a/b.txt".into(),
        length: 4,
        checksum: md5_of(b""),
        file_type: None,
        parts: Vec::new(),
    };
    let m = SrfMod { name: "@x".into(), checksum: Md5Digest::default(), files: vec![bad_parts] };
    let err = RepoBuilder::from_mods(vec![m], "r").build_with_ticks(1).unwrap_err();
    assert!(matches!(err, SwiftyError::MissingParts(p) if p == "a\\b.txt"));

    let m = SrfMod { name: "@é".into(), checksum: Md5Digest::default(), files: Vec::new() };
    let err = RepoBuilder::from_mods(vec![m], "r").build_with_ticks(1).unwrap_err();
    assert!(matches!(err, SwiftyError::NonAsciiPath(p) if p == "mod name: @é"));
}

#[test]
fn builder_lowercases_mod_names_and_sets_types() {
    let m = SrfMod {
        name: "@MyMod".into(),
        checksum: Md5Digest::default(),
        files: vec![SrfFile {
            path: "addons/Empty.PBO".into(),
            length: 0,
            checksum: md5_of(b""),
            file_type: None,
            parts: Vec::new(),
        }],
    };
    let mut builder = RepoBuilder::new("r").with_version("1.0").with_client_parameters("-x");
    builder.add_mod(m);
    let out = builder.build_with_ticks(638400000000000000).unwrap();
    assert_eq!(out.repo.version, "1.0");
    assert_eq!(out.repo.client_parameters, "-x");
    assert_eq!(out.mods[0].name, "@mymod");
    assert_eq!(out.mods[0].files[0].path, "addons\\Empty.PBO");
    assert_eq!(out.mods[0].files[0].file_type.as_deref(), Some("SwiftyPboFile"));
    assert_eq!(out.repo.required_mods[0].checksum, out.mods[0].checksum);
}

#[test]
fn current_ticks_are_after_the_unix_epoch() {
    assert!(swifty_artifacts::dotnet_ticks_from_system_time().unwrap() > DOTNET_EPOCH_TICKS);
    assert!(swifty_artifacts::ticks::dotnet_ticks_from_system_time().unwrap() > DOTNET_EPOCH_TICKS);
    assert_eq!(dotnet_ticks_from_unix(0, 0), DOTNET_EPOCH_TICKS);
    assert_eq!(dotnet_ticks_from_unix(1, 150), DOTNET_EPOCH_TICKS + 10_000_001);
}

// --- paths --------------------------------------------------------------------

#[test]
fn path_rules() {
    assert_eq!(normalize_srf_path("a/b/c.txt"), "a\\b\\c.txt");
    assert_eq!(path_for_checksum("A\\B/C.TXT"), "a/b/c.txt");
    assert_eq!(sort_key_for_mod("a/b\\c;d.txt"), b"ABCD.TXT".to_vec());
    assert_eq!(file_type_for("x/Y.PbO"), "SwiftyPboFile");
    assert_eq!(file_type_for("x/y.pbo.bisign"), "SwiftyFile");
    assert!(ensure_ascii_path("label", "abc").is_ok());
    assert!(matches!(ensure_ascii_path("label", "ä"), Err(SwiftyError::NonAsciiPath(m)) if m == "label: ä"));
}

#[test]
fn file_names_and_extensions_follow_std_path() {
    for p in ["a/b.pbo", "a/b.pbo/", "a/b.pbo/.", "b.pbo", ".pbo", "a/..", "/", "", ".", "a//b", "x.", "a.b.c"] {
        let std_name = std::path::Path::new(p).file_name().map(|s| s.to_str().unwrap().to_string());
        let std_ext = std::path::Path::new(p).extension().map(|s| s.to_str().unwrap().to_string());
        assert_eq!(path_file_name(p), std_name, "file name of {p:?}");
        assert_eq!(path_extension(p), std_ext, "extension of {p:?}");
    }
}

// --- scanning -----------------------------------------------------------------

#[test]
fn scan_rejects_non_ascii_paths() {
    let err = scan_file("addons/ü.txt", b"x", &settings(SignatureMode::Real, "", PboMode::Auto)).unwrap_err();
    assert!(matches!(err, SwiftyError::NonAsciiPath(m) if m == "rel_path: addons/ü.txt"));
}

#[test]
fn scan_raw_file_fields() {
    let f = scan_file("dir/data.bin", b"hello", &settings(SignatureMode::Real, "", PboMode::Auto)).unwrap();
    assert_eq!(f.path, "dir\\data.bin");
    assert_eq!(f.length, 5);
    assert_eq!(f.file_type.as_deref(), Some("SwiftyFile"));
    assert_eq!(f.parts.len(), 1);
    assert_eq!(f.parts[0].path, "data.bin_5");
    assert_eq!(f.parts[0].checksum, md5_of(b"hello"));
    assert_eq!(f.checksum, file_md5_from_parts(&f.parts));
}

#[test]
fn scan_signature_modes_on_raw_files() {
    let zero = scan_file("d/z.bin", b"hello", &settings(SignatureMode::ZeroMd5, "", PboMode::Auto)).unwrap();
    assert_eq!(zero.parts[0].checksum, md5_of(&[0u8; 5]));

    let salted = scan_file("d/s.bin", b"hello", &settings(SignatureMode::SaltedMd5, "pepper", PboMode::Auto)).unwrap();
    let text = format!("pepper{:X}", md5::compute(b"hello"));
    assert_eq!(salted.parts[0].checksum, md5_of(text.as_bytes()));

    let positional = scan_file("d/p.bin", b"hello", &settings(SignatureMode::PathMd5, "pepper", PboMode::Auto)).unwrap();
    assert_eq!(positional.parts[0].checksum, md5_of(b"pepperd/p.bin:0:5"));
    assert_eq!(positional_md5("s", "r", 1, 2), md5_of(b"sr:1:2"));
}

#[test]
fn scan_signature_modes_on_pbo_files() {
    let bytes = small_pbo(b"payload");
    let header_len = bytes.len() - 7;
    let real = scan_file("addons/x.pbo", &bytes, &settings(SignatureMode::Real, "", PboMode::Auto)).unwrap();
    assert_eq!(real.parts.len(), 3);
    assert_eq!(real.parts[1].checksum, md5_of(b"payload"));

    let zero = scan_file("addons/x.pbo", &bytes, &settings(SignatureMode::ZeroMd5, "", PboMode::Auto)).unwrap();
    assert_eq!(zero.parts[0].checksum, md5_of(&vec![0u8; header_len]));

    let salted = scan_file("addons/x.pbo", &bytes, &settings(SignatureMode::SaltedMd5, "s", PboMode::Auto)).unwrap();
    let text = format!("s{:X}", md5::compute(b"payload"));
    assert_eq!(salted.parts[1].checksum, md5_of(text.as_bytes()));

    let positional = scan_file("addons/x.pbo", &bytes, &settings(SignatureMode::PathMd5, "s", PboMode::Auto)).unwrap();
    let text = format!("saddons/x.pbo:{}:7", header_len);
    assert_eq!(positional.parts[1].checksum, md5_of(text.as_bytes()));

    let raw = scan_file("addons/x.pbo", &bytes, &settings(SignatureMode::Real, "", PboMode::Raw)).unwrap();
    assert_eq!(raw.parts.len(), 1);
    assert_eq!(raw.parts[0].path, format!("x.pbo_{}", bytes.len()));
    assert_eq!(raw.file_type.as_deref(), Some("SwiftyPboFile"));
}

#[test]
fn invalid_pbo_falls_back_to_raw_chunks() {
    let zero = scan_file("a/fake.pbo", b"nope", &settings(SignatureMode::ZeroMd5, "", PboMode::Auto)).unwrap();
    assert_eq!(zero.parts.len(), 1);
    assert_eq!(zero.parts[0].path, "fake.pbo_4");
    assert_eq!(zero.parts[0].checksum, md5_of(&[0u8; 4]));
    let positional = scan_raw_len_positional(4, "a/fake.pbo", "k").unwrap();
    let via_scan = scan_file("a/fake.pbo", b"nope", &settings(SignatureMode::PathMd5, "k", PboMode::Auto)).unwrap();
    assert_eq!(positional.parts[0].checksum, via_scan.parts[0].checksum);
}

#[test]
fn raw_scans_by_length_name_parts_after_the_file_name() {
    let f = scan_raw_len_zero(RAW_PART_SIZE + 2, "dir/").unwrap();
    assert_eq!(f.parts.len(), 2);
    assert_eq!(f.parts[0].path, format!("dir_{}", RAW_PART_SIZE));
    assert_eq!(f.parts[1].path, format!("dir_{}", RAW_PART_SIZE + 2));
    assert_eq!(f.parts[1].start, RAW_PART_SIZE);
    let g = scan_raw_len_zero(1, "..").unwrap();
    assert_eq!(g.parts[0].path, "file_1");
    let err = scan_raw_len_zero(1, "a/ö").unwrap_err();
    assert!(matches!(err, SwiftyError::NonAsciiPath(m) if m == "file_name: ö"));
}

#[test]
fn settings_are_read_from_their_values() {
    assert_eq!(signature_mode(Some("zero-md5")), SignatureMode::ZeroMd5);
    assert_eq!(signature_mode(Some("salted-md5")), SignatureMode::SaltedMd5);
    assert_eq!(signature_mode(Some("path-md5")), SignatureMode::PathMd5);
    assert_eq!(signature_mode(Some("other")), SignatureMode::Real);
    assert_eq!(signature_mode(None), SignatureMode::Real);
    assert_eq!(signature_salt(Some(String::new())), None);
    assert_eq!(signature_salt(Some("x".into())), Some("x".to_string()));
    assert_eq!(pbo_mode(Some("raw")), PboMode::Raw);
    assert_eq!(pbo_mode(Some("RAW")), PboMode::Auto);
}

// --- PBO headers --------------------------------------------------------------

#[test]
fn pbo_header_errors_are_reported() {
    assert_eq!(read_failure_message(PboReadFailure::UnknownEntryType(0x1234ABCD)), "unknown pbo entry type: 0x1234ABCD");
    let mut bytes = Vec::new();
    bytes.push(0);
    bytes.extend_from_slice(&0x1234ABCDu32.to_le_bytes());
    bytes.extend_from_slice(&[0u8; 16]);
    let err = swifty_pbo_parts_zero_md5_from_reader("x.pbo", &bytes, bytes.len() as u64).unwrap_err();
    assert!(matches!(err, SwiftyError::InvalidPbo { file, reason } if file == "x.pbo" && reason == "unknown pbo entry type: 0x1234ABCD"));

    let mut bytes = Vec::new();
    pbo_entry(&mut bytes, "dummy", 5);
    pbo_entry(&mut bytes, "", 0);
    let err = swifty_pbo_parts_zero_md5_from_reader("x.pbo", &bytes, bytes.len() as u64).unwrap_err();
    assert!(matches!(err, SwiftyError::InvalidPbo { reason, .. } if reason == "first entry has non-zero size"));

    let bytes = small_pbo(b"xy");
    let err = swifty_pbo_parts_zero_md5_from_reader("x.pbo", &bytes, bytes.len() as u64 - 1).unwrap_err();
    assert!(matches!(err, SwiftyError::InvalidPbo { reason, .. } if reason == "entry exceeds file length"));
    let err = swifty_pbo_parts_zero_md5_from_reader("x.pbo", &bytes, bytes.len() as u64 - 3).unwrap_err();
    assert!(matches!(err, SwiftyError::InvalidPbo { reason, .. } if reason == "header_len exceeds file length"));

    let err = swifty_pbo_parts_zero_md5_from_reader("x.pbo", b"abc", 3).unwrap_err();
    assert!(matches!(err, SwiftyError::InvalidPbo { reason, .. } if reason == "failed to fill whole buffer"));
}

#[test]
fn pbo_plan_waits_for_a_complete_header() {
    let bytes = small_pbo(b"payload");
    let len = bytes.len() as u64;
    assert!(swifty_pbo_part_plan_from_prefix("x.pbo", &bytes[..10], len).unwrap().is_none());
    let plan = swifty_pbo_part_plan_from_prefix("x.pbo", &bytes[..bytes.len() - 7], len).unwrap().unwrap();
    assert_eq!(plan.len(), 3);
    assert_eq!(plan[1].path, "a.txt");
    assert_eq!(plan[1].start, len - 7);
    assert!(swifty_pbo_part_plan_from_prefix("x.pbo", b"abc\0\x01\x02\x03\x04", len).is_err());
}

#[test]
fn pbo_entry_names_decode_lossily() {
    let mut bytes = Vec::new();
    pbo_entry(&mut bytes, "dummy", 0);
    bytes.extend_from_slice(&[0x61, 0xFF, 0x62, 0]);
    for value in [0_u32, 0, 0, 0, 1] {
        bytes.extend_from_slice(&value.to_le_bytes());
    }
    pbo_entry(&mut bytes, "", 0);
    bytes.push(b'z');
    let parts = swifty_artifacts::swifty_pbo_parts_from_bytes("x.pbo", &bytes).unwrap();
    assert_eq!(parts[1].path, "a\u{FFFD}b");
}

// --- streaming ----------------------------------------------------------------

#[test]
fn streaming_scanner_checks_the_declared_length() {
    let mut s = SwiftyStreamingPartScanner::new("a.bin", 2);
    assert!(matches!(s.push(b"abc"), Err(SwiftyError::InvalidPbo { reason, .. }) if reason == "stream exceeded declared file length"));
    assert_eq!(s.total_bytes(), 0);
    assert!(s.push(b"a").unwrap().is_empty());
    assert!(matches!(s.finish(), Err(SwiftyError::InvalidPbo { reason, .. }) if reason == "stream ended before declared file length"));
}

#[test]
fn streaming_scanner_gives_up_on_huge_pbo_headers() {
    let mut bytes = Vec::new();
    pbo_entry(&mut bytes, "dummy", 0);
    while bytes.len() <= 1024 * 1024 {
        pbo_entry(&mut bytes, "entry", 0);
    }
    let mut s = SwiftyStreamingPartScanner::new("big.pbo", bytes.len() as u64 + 10);
    let err = s.push(&bytes).unwrap_err();
    assert!(matches!(err, SwiftyError::InvalidPbo { file, reason } if file == "big.pbo" && reason == "PBO header exceeded streaming prefix limit"));
}

#[test]
fn streaming_matches_scan_across_chunkings_and_sizes() {
    let mut big = vec![0u8; RAW_PART_SIZE as usize + 11];
    for (i, b) in big.iter_mut().enumerate() {
        *b = (i % 7) as u8;
    }
    let pbo = small_pbo(b"some payload bytes");
    for (bytes, rel, chunks) in [
        (&big, "d/big.bin", vec![4096usize, 1_000_003, big.len()]),
        (&pbo, "d/p.pbo", vec![1usize, 5, pbo.len()]),
        (&pbo, "d/p.bin", vec![1usize, 2, pbo.len()]),
    ] {
        let scanned = scan_file(rel, bytes, &settings(SignatureMode::Real, "", PboMode::Auto)).unwrap();
        for chunk in chunks {
            let mut s = SwiftyStreamingPartScanner::new(rel, bytes.len() as u64);
            let mut parts = Vec::new();
            for c in bytes.chunks(chunk) {
                parts.extend(s.push(c).unwrap());
            }
            parts.extend(s.finish().unwrap());
            let got: Vec<_> = parts.iter().map(|p| (p.path.clone(), p.start, p.length, p.checksum)).collect();
            let want: Vec<_> = scanned.parts.iter().map(|p| (p.path.clone(), p.start, p.length, p.checksum)).collect();
            assert_eq!(got, want, "{rel} in chunks of {chunk}");
        }
    }
}

#[test]
fn streaming_validator_length_errors() {
    let mut v = SwiftyStreamingPartValidator::new(md5_of(b"ab"), 2);
    assert!(matches!(v.push(b"abc"), Err(SwiftyError::InvalidPartLength { expected: 2, actual: 3 })));
    let v = SwiftyStreamingPartValidator::new(md5_of(b"ab"), 2);
    assert!(matches!(v.finish(), Err(SwiftyError::InvalidPartLength { expected: 2, actual: 0 })));
    let mut v = SwiftyStreamingPartValidator::new(md5_of(b"ab"), 2);
    v.push(b"ax").unwrap();
    assert!(matches!(v.finish(), Err(SwiftyError::PartChecksumMismatch)));
}

// --- repo.json ----------------------------------------------------------------

#[test]
fn bom_is_stripped() {
    assert_eq!(strip_utf8_bom(b"\xEF\xBB\xBF{}"), b"{}");
    assert_eq!(strip_utf8_bom(b"{}"), b"{}");
    assert_eq!(strip_utf8_bom(b"\xEF\xBB"), b"\xEF\xBB");
}

#[test]
fn ports_parse_like_std() {
    for s in ["2302", "+80", "0", "65535", "65536", "", "+", "-", "-1", "12a", "99999999", "00012"] {
        let mine = parse_u16_text(s);
        let std = s.parse::<u16>();
        match (mine, std) {
            (Ok(a), Ok(b)) => assert_eq!(a, b),
            (Err(e), Err(f)) => assert_eq!(u16_text_error_message(e), f.to_string(), "{s:?}"),
            (a, b) => panic!("{s:?}: {a:?} vs {b:?}"),
        }
    }
    assert_eq!(parse_u16_text("70000"), Err(U16TextError::PosOverflow));
}

#[test]
fn repo_images_take_sha1_of_their_bytes() {
    let mut repo = empty_repo("r");
    repo.icon_image_path = Some("old.png".into());
    apply_repo_images(&mut repo, None, Some(b"png"));
    assert_eq!(repo.icon_image_path, None);
    assert_eq!(repo.icon_image_checksum, None);
    assert_eq!(repo.repo_image_path.as_deref(), Some("repo.png"));
    assert_eq!(repo.repo_image_checksum, Some(sha1_hex(b"png")));
    assert_eq!(file_sha1_hex(b""), "DA39A3EE5E6B4B0D3255BFEF95601890AFD80709");
}

#[test]
fn rehash_keeps_listed_images_and_adopts_defaults() {
    let mut repo = empty_repo("r");
    repo.icon_image_path = Some("img/i.png".into());
    assert_eq!(image_path_to_hash(&repo.icon_image_path, "icon.png"), "img/i.png");
    assert_eq!(image_path_to_hash(&repo.repo_image_path, "repo.png"), "repo.png");
    rehash_repo_images(&mut repo, Some(b"i"), None);
    assert_eq!(repo.icon_image_path.as_deref(), Some("img/i.png"));
    assert_eq!(repo.icon_image_checksum, Some(sha1_hex(b"i")));
    assert_eq!(repo.repo_image_path, None);
    assert_eq!(repo.repo_image_checksum, None);
    rehash_repo_images(&mut repo, Some(b"i"), Some(b"r"));
    assert_eq!(repo.repo_image_path.as_deref(), Some("repo.png"));
    assert_eq!(repo.repo_image_checksum, Some(sha1_hex(b"r")));
}

#[test]
fn repo_spec_keeps_existing_fields() {
    let mut old = empty_repo("old-name");
    old.version = "  ".into();
    old.client_parameters = "-old".into();
    old.required_dlcs = vec!["dlc".into()];
    old.icon_image_path = Some("i.png".into());
    let req = vec![repo_mod("@a", "AAAAAAAAAAAAAAAAAAAAAAAAAAAAAAAA", true)];
    let spec = build_repo_spec(Some(old), None, None, None, Some("folder".into()), req.clone(), Vec::new(), 1).unwrap();
    assert_eq!(spec.repo_name, "old-name");
    assert_eq!(spec.version, "3.2.0.0");
    assert_eq!(spec.client_parameters, "-old");
    assert_eq!(spec.required_dlcs, vec!["dlc".to_string()]);
    assert_eq!(spec.icon_image_path.as_deref(), Some("i.png"));
    assert_eq!(spec.icon_image_checksum, None);
    assert_eq!(spec.checksum, swifty_artifacts::compute_repo_checksum_with_ticks(&req, &[], 1));

    let spec = build_repo_spec(None, None, Some("9".into()), Some("-c".into()), Some("folder".into()), Vec::new(), Vec::new(), 1).unwrap();
    assert_eq!(spec.repo_name, "folder");
    assert_eq!(spec.version, "9");
    assert_eq!(spec.client_parameters, "-c");
    assert!(build_repo_spec(None, None, None, None, None, Vec::new(), Vec::new(), 1).is_none());
    assert!(is_blank_str(" \t\u{3000}"));
    assert!(!is_blank_str(" x "));
}

#[test]
fn mod_lists_keep_existing_entries_and_append_new_mods() {
    let file = |p: &str| SrfFile { path: p.into(), length: 0, checksum: md5_of(b""), file_type: None, parts: Vec::new() };
    let scanned = vec![
        ("@A".to_string(), SrfMod { name: "@A".into(), checksum: Md5Digest::default(), files: vec![file("b.txt"), file("A.txt")] }),
        ("@new".to_string(), SrfMod { name: "@New".into(), checksum: Md5Digest::default(), files: vec![] }),
        ("@opt".to_string(), SrfMod { name: "@opt".into(), checksum: Md5Digest::default(), files: vec![] }),
    ];
    let mut old = empty_repo("r");
    old.required_mods = vec![repo_mod("@a", "AAAAAAAAAAAAAAAAAAAAAAAAAAAAAAAA", false), repo_mod("@gone", "BBBBBBBBBBBBBBBBBBBBBBBBBBBBBBBB", true)];
    old.optional_mods = vec![repo_mod("@OPT", "CCCCCCCCCCCCCCCCCCCCCCCCCCCCCCCC", true)];
    let (mods, req, opt) = build_mod_lists(scanned, Some(&old)).unwrap();
    assert_eq!(mods[0].0, "@A");
    assert_eq!(mods[0].1.name, "@a");
    assert_eq!(mods[0].1.files[0].path, "A.txt");
    assert_eq!(mods[0].1.checksum, swifty_artifacts::compute_mod_checksum(&mods[0].1.files).unwrap());
    let names: Vec<_> = req.iter().map(|m| (m.mod_name.as_str(), m.enabled)).collect();
    assert_eq!(names, vec![("@a", false), ("@new", true)]);
    assert_eq!(req[0].checksum, mods[0].1.checksum);
    assert_eq!(opt.len(), 1);
    assert_eq!(opt[0].mod_name, "@opt");

    let bad = vec![("@b".to_string(), SrfMod { name: "@b".into(), checksum: Md5Digest::default(), files: vec![file("ü")] })];
    assert!(matches!(build_mod_lists(bad, None), Err(SwiftyError::NonAsciiPath(m)) if m == "file path: ü"));
}

#[test]
fn folder_walk_rules() {
    assert!(is_mod_dir_name("@mod"));
    assert!(!is_mod_dir_name("mod"));
    assert!(is_skipped_dir_name(".git"));
    assert!(is_skipped_dir_name(".svn"));
    assert!(!is_skipped_dir_name(".github"));
    assert!(is_mod_srf_name("MOD.SRF"));
    assert!(!is_mod_srf_name("mod.srf.bak"));
    assert_eq!(path_to_forward_slashes("a\\b/c"), "a/b/c");
    let order = text_sort_order(&vec!["b".to_string(), "B".to_string(), "a".to_string(), "b".to_string()]);
    assert_eq!(order, vec![1, 2, 0, 3]);
}

#[test]
fn overlong_header_strings_are_rejected() {
    let bytes = vec![b'a'; 1024 * 1024 + 1];
    let err = swifty_pbo_parts_zero_md5_from_reader("x.pbo", &bytes, bytes.len() as u64).unwrap_err();
    assert!(matches!(err, SwiftyError::InvalidPbo { reason, .. } if reason == "cstring too long"));
    assert_eq!(read_failure_message(PboReadFailure::CstringTooLong), "cstring too long");
    assert_eq!(read_failure_message(PboReadFailure::UnexpectedEof), "failed to fill whole buffer");
}

#[test]
fn mod_checksum_ignores_listing_order() {
    let file = |p: &str, d: &[u8]| SrfFile {
        path: p.into(),
        length: 1,
        checksum: md5_of(d),
        file_type: None,
        parts: Vec::new(),
    };
    let a = vec![file("x/a.txt", b"1"), file("b.txt", b"2"), file("C.txt", b"3")];
    let b = vec![file("C.txt", b"3"), file("x/a.txt", b"1"), file("b.txt", b"2")];
    assert_eq!(
        swifty_artifacts::compute_mod_checksum(&a).unwrap(),
        swifty_artifacts::compute_mod_checksum(&b).unwrap()
    );
}

#[test]
fn scanned_files_build_into_a_repo() {
    let raw = scan_file("addons/readme.txt", b"hello", &settings(SignatureMode::Real, "", PboMode::Auto)).unwrap();
    let pbo = scan_file("addons/data.pbo", &small_pbo(b"xyz"), &settings(SignatureMode::Real, "", PboMode::Auto)).unwrap();
    let empty = scan_file("addons/empty.bin", b"", &settings(SignatureMode::Real, "", PboMode::Auto)).unwrap();
    let m = SrfMod { name: "@My_Mod".into(), checksum: Md5Digest::default(), files: vec![raw, pbo, empty] };
    let built = RepoBuilder::from_mods(vec![m], "my-repo").build_with_ticks(638400000000000000).unwrap();
    assert_eq!(built.mods[0].name, "@my_mod");
    assert_eq!(built.repo.required_mods[0].mod_name, "@my_mod");
    assert_eq!(built.repo.required_mods[0].checksum, built.mods[0].checksum);
}

#[test]
fn header_plans_agree_on_every_prefix() {
    let bytes = small_pbo(b"payload");
    let len = bytes.len() as u64;
    let full = swifty_pbo_part_plan_from_prefix("x.pbo", &bytes, len).unwrap().unwrap();
    let mut settled = false;
    for n in 0..=bytes.len() {
        match swifty_pbo_part_plan_from_prefix("x.pbo", &bytes[..n], len).unwrap() {
            None => assert!(!settled, "a longer prefix went back to waiting"),
            Some(plan) => {
                settled = true;
                let got: Vec<_> = plan.iter().map(|p| (p.path.clone(), p.start, p.length)).collect();
                let want: Vec<_> = full.iter().map(|p| (p.path.clone(), p.start, p.length)).collect();
                assert_eq!(got, want);
            }
        }
    }
    assert!(settled);
}

#[test]
fn file_check_failure_leaves_the_normalized_file() {
    let mut f = SrfFile {
        path: "a/b.txt".into(),
        length: 4,
        checksum: md5_of(b"x"),
        file_type: None,
        parts: Vec::new(),
    };
    let err = swifty_artifacts::builder::ensure_file_metadata(&mut f).unwrap_err();
    assert!(matches!(err, SwiftyError::MissingParts(p) if p == "a\\b.txt"));
    assert_eq!(f.path, "a\\b.txt");
    assert_eq!(f.length, 4);
    assert_eq!(f.checksum, md5_of(b"x"));
    assert!(f.parts.is_empty());
    assert_eq!(f.file_type, None);
}

#[test]
fn repo_checksum_is_forty_hex_digits() {
    let c = swifty_artifacts::compute_repo_checksum_with_ticks(&[], &[], 638400000000000000);
    assert_eq!(c.len(), 40);
    assert!(c.chars().all(|ch| ch.is_ascii_digit() || ('A'..='F').contains(&ch)));
}

#[test]
fn mod_lists_are_reproducible() {
    let scanned = || {
        vec![
            ("@x".to_string(), SrfMod { name: "@X".into(), checksum: Md5Digest::default(), files: vec![] }),
            ("@y".to_string(), SrfMod { name: "@Y".into(), checksum: Md5Digest::default(), files: vec![] }),
        ]
    };
    let (_, r1, _) = build_mod_lists(scanned(), None).unwrap();
    let (_, r2, _) = build_mod_lists(scanned(), None).unwrap();
    let n1: Vec<_> = r1.iter().map(|m| (m.mod_name.clone(), m.checksum)).collect();
    let n2: Vec<_> = r2.iter().map(|m| (m.mod_name.clone(), m.checksum)).collect();
    assert_eq!(n1, n2);
    assert_eq!(n1[0].0, "@x");
    assert_eq!(n1[1].0, "@y");
}

#[test]
fn streaming_whole_files_in_chunks_matches_scan() {
    let pbo = small_pbo(b"payload");
    for (bytes, rel) in [(pbo.as_slice(), "x/a.pbo"), (b"abcdefg".as_slice(), "x/a.bin"), (b"junk".as_slice(), "x/f.pbo")] {
        let scanned = scan_file(rel, bytes, &settings(SignatureMode::Real, "", PboMode::Auto)).unwrap();
        for chunk in [1usize, 3, 64] {
            let streamed = swifty_artifacts::streaming::stream_file_parts(rel, bytes, chunk).unwrap();
            let got: Vec<_> = streamed.iter().map(|p| (p.path.clone(), p.start, p.length, p.checksum)).collect();
            let want: Vec<_> = scanned.parts.iter().map(|p| (p.path.clone(), p.start, p.length, p.checksum)).collect();
            assert_eq!(got, want);
        }
    }
}

#[test]
fn ticks_fit_up_to_the_last_u64_value() {
    let max_secs = (u64::MAX - DOTNET_EPOCH_TICKS) / 10_000_000;
    let rest = (u64::MAX - DOTNET_EPOCH_TICKS) % 10_000_000;
    assert_eq!(ticks_checked(max_secs, (rest * 100) as u32), Some(u64::MAX));
    assert_eq!(ticks_checked(max_secs, (rest * 100 + 100) as u32), None);
    assert_eq!(ticks_checked(max_secs + 1, 0), None);
    assert_eq!(ticks_checked(1, 150), Some(DOTNET_EPOCH_TICKS + 10_000_001));
}
