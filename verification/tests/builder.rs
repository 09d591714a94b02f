use md5::Context;
use swifty_artifacts::{
    compute_mod_checksum, compute_repo_checksum_with_ticks, Md5Digest, RepoArtifacts, RepoBuilder, RepoMod,
    SrfFile, SrfMod, SrfPart, SwiftyError,
};

fn file(rel: &str, md5_hex_upper: &str, size: u64) -> SrfFile {
    SrfFile {
        path: rel.replace('/', "\\"),
        length: size,
        checksum: Md5Digest::parse_hex(md5_hex_upper).unwrap(),
        file_type: None,
        parts: Vec::new(),
    }
}

fn clean_path_sort_key(path: &str) -> Vec<u8> {
    // `ToUpperInvariant(CleanPath(path))` for ASCII-only paths.
    let mut out = Vec::with_capacity(path.len());
    for b in path.bytes() {
        match b {
            b'/' | b'\\' | b';' => {}
            _ => out.push(b.to_ascii_uppercase()),
        }
    }
    out
}

#[test]
fn mod_checksum_uses_lowercased_paths_for_swifty_compat() {
    let files = vec![
        file("README.md", "AAAAAAAAAAAAAAAAAAAAAAAAAAAAAAAA", 1),
        file("docs/README_PL.md", "BBBBBBBBBBBBBBBBBBBBBBBBBBBBBBBB", 1),
    ];

    let got = compute_mod_checksum(&files).unwrap().to_hex_upper();

    let mut sorted = files.iter().collect::<Vec<_>>();
    sorted.sort_unstable_by_key(|f| clean_path_sort_key(&f.path));

    let mut hasher = Context::new();
    for f in &sorted {
        hasher.consume(f.checksum.to_hex_upper().as_bytes());
        hasher.consume(f.path.replace('\\', "/").to_ascii_lowercase().as_bytes());
    }
    let expected = hex::encode_upper(hasher.finalize().0);

    assert_eq!(got, expected);
}

#[test]
fn mod_checksum_sorting_removes_separators_but_hash_keeps_them() {
    let files = vec![
        file("A/Z;Z.txt", "AAAAAAAAAAAAAAAAAAAAAAAAAAAAAAAA", 1),
        file("Ay.txt", "BBBBBBBBBBBBBBBBBBBBBBBBBBBBBBBB", 1),
    ];

    let got = compute_mod_checksum(&files).unwrap().to_hex_upper();

    let mut hasher = Context::new();
    hasher.consume("BBBBBBBBBBBBBBBBBBBBBBBBBBBBBBBB".as_bytes());
    hasher.consume("ay.txt".as_bytes());
    hasher.consume("AAAAAAAAAAAAAAAAAAAAAAAAAAAAAAAA".as_bytes());
    hasher.consume("a/z;z.txt".as_bytes());
    let expected = hex::encode_upper(hasher.finalize().0);

    assert_eq!(got, expected);
}

#[test]
fn file_checksum_from_parts_matches_swifty_part_md5_concat() {
    let mut bytes = vec![0u8; swifty_artifacts::RAW_PART_SIZE as usize + 1];
    for (idx, byte) in bytes.iter_mut().enumerate() {
        *byte = (idx % 251) as u8;
    }

    let (file_md5, parts) = swifty_artifacts::swifty_file_info_from_bytes("file.bin", &bytes);
    assert_eq!(parts.len(), 2);
    assert_eq!(parts[0].length, swifty_artifacts::RAW_PART_SIZE);
    assert_eq!(parts[1].length, 1);

    let mut hasher = Context::new();
    for chunk in bytes.chunks(swifty_artifacts::RAW_PART_SIZE as usize) {
        let part_hex = hex::encode_upper(md5::compute(chunk).0);
        hasher.consume(part_hex.as_bytes());
    }
    let expected = hex::encode_upper(hasher.finalize().0);

    assert_eq!(file_md5.to_hex_upper(), expected);
}

#[test]
fn mod_checksum_sorting_matches_ordinal_ignore_case_upper_invariant_regression() {
    // '_' (U+005F) sorts before 's' (U+0073) in a plain ordinal compare, but
    // OrdinalIgnoreCase compares it with 'S' (U+0053), which flips the order.
    let files = vec![
        file(r"addons\ace_compat_rh_acc.pbo", "AAAAAAAAAAAAAAAAAAAAAAAAAAAAAAAA", 1),
        file(r"addons\ace_compat_rhs_afrf3.pbo", "BBBBBBBBBBBBBBBBBBBBBBBBBBBBBBBB", 1),
    ];

    let got = compute_mod_checksum(&files).unwrap().to_hex_upper();

    let mut hasher = Context::new();
    hasher.consume("BBBBBBBBBBBBBBBBBBBBBBBBBBBBBBBB".as_bytes());
    hasher.consume("addons/ace_compat_rhs_afrf3.pbo".as_bytes());
    hasher.consume("AAAAAAAAAAAAAAAAAAAAAAAAAAAAAAAA".as_bytes());
    hasher.consume("addons/ace_compat_rh_acc.pbo".as_bytes());
    let expected = hex::encode_upper(hasher.finalize().0);

    assert_eq!(got, expected);
}

#[test]
fn repo_builder_emits_repo_spec_and_mod_srf() {
    let mut bytes = [0u8; 16];
    hex::decode_to_slice("AAAAAAAAAAAAAAAAAAAAAAAAAAAAAAAA", &mut bytes).unwrap();
    let parts = vec![SrfPart {
        path: "a.txt_5".to_string(),
        start: 0,
        length: 5,
        checksum: Md5Digest::from_bytes(bytes),
    }];
    let md5 = swifty_artifacts::file_md5_from_parts(&parts);
    let files = vec![SrfFile {
        path: "addons\\a.txt".to_string(),
        length: 5,
        checksum: md5,
        file_type: None,
        parts,
    }];
    let mod_mod_srf = SrfMod { name: "@m".to_string(), checksum: Md5Digest::default(), files };

    let RepoArtifacts { repo, mods: srfs } =
        RepoBuilder::from_mods(vec![mod_mod_srf], "test-repo").build().unwrap();

    assert_eq!(repo.repo_name, "test-repo");
    assert_eq!(repo.required_mods.len(), 1);
    assert_eq!(repo.required_mods[0].mod_name, "@m");
    assert_eq!(srfs.len(), 1);
    assert_eq!(srfs[0].name, "@m");
    assert_eq!(srfs[0].files.len(), 1);
    assert!(!srfs[0].files[0].parts.is_empty());
}

#[test]
fn repo_checksum_matches_swifty_algorithm() {
    let required = vec![
        RepoMod {
            mod_name: "@a".to_string(),
            checksum: Md5Digest::parse_hex("AAAAAAAAAAAAAAAAAAAAAAAAAAAAAAAA").unwrap(),
            enabled: true,
        },
        RepoMod {
            mod_name: "@b".to_string(),
            checksum: Md5Digest::parse_hex("BBBBBBBBBBBBBBBBBBBBBBBBBBBBBBBB").unwrap(),
            enabled: true,
        },
    ];
    let optional = vec![RepoMod {
        mod_name: "@c".to_string(),
        checksum: Md5Digest::parse_hex("CCCCCCCCCCCCCCCCCCCCCCCCCCCCCCCC").unwrap(),
        enabled: true,
    }];

    let checksum = compute_repo_checksum_with_ticks(&required, &optional, 1);

    assert_eq!(checksum, "B2BFDC9EF0FA5A4BFCCC5648F31303545EDC6DCB");
}

#[test]
fn builder_rejects_file_md5_from_bytes() {
    let bytes = b"not-swifty";
    let (file_md5, parts) = swifty_artifacts::swifty_file_info_from_bytes("bad.bin", bytes);
    let wrong = Md5Digest::from_bytes(md5::compute(bytes).0);
    assert_ne!(file_md5.as_bytes(), wrong.as_bytes());

    let entry = SrfFile {
        path: "addons\\bad.bin".to_string(),
        length: bytes.len() as u64,
        checksum: wrong,
        file_type: None,
        parts,
    };
    let mod_mod_srf = SrfMod { name: "@bad".to_string(), checksum: Md5Digest::default(), files: vec![entry] };

    let err = RepoBuilder::from_mods(vec![mod_mod_srf], "test-repo")
        .build()
        .expect_err("expected swifty checksum mismatch");
    assert!(matches!(err, SwiftyError::FileChecksumMismatch(_)));
}
