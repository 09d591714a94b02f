use swifty_artifacts::scan::{PboMode, ScanSettings, SignatureMode};

fn minimal_pbo_with_non_ascii_entry() -> Vec<u8> {
    // First entry: empty name, type "sreV", four u32 fields, then empty extensions;
    // one file entry with a non-ASCII UTF-8 name; the terminator entry; the payload.
    let mut bytes = Vec::<u8>::new();
    bytes.push(0);
    bytes.extend_from_slice(b"sreV");
    for _ in 0..4 {
        bytes.extend_from_slice(&0u32.to_le_bytes());
    }
    bytes.push(0);

    let name = "land_vehicles\\Handling\\GetOut\\Mrap_§.ogg";
    bytes.extend_from_slice(name.as_bytes());
    bytes.push(0);
    for _ in 0..4 {
        bytes.extend_from_slice(&0u32.to_le_bytes());
    }
    bytes.extend_from_slice(&3u32.to_le_bytes());

    bytes.push(0);
    for _ in 0..5 {
        bytes.extend_from_slice(&0u32.to_le_bytes());
    }

    bytes.extend_from_slice(b"abc");
    bytes
}

#[test]
fn scan_file_allows_pbo_with_non_ascii_entry_name() {
    let bytes = minimal_pbo_with_non_ascii_entry();
    let total_len = bytes.len() as u64;
    let settings = ScanSettings { signature: SignatureMode::Real, salt: String::new(), pbo: PboMode::Auto };

    let scanned = swifty_artifacts::scan_file("addons/test.pbo", &bytes, &settings)
        .expect("scan_file should not fail on non-ascii pbo entry names");

    assert_eq!(scanned.path, "addons\\test.pbo");
    assert_eq!(scanned.length, total_len);
    assert_eq!(scanned.file_type.as_deref(), Some("SwiftyPboFile"));
    assert!(
        scanned.parts.iter().any(|p| p.path.contains("Mrap_§.ogg")),
        "expected a part containing the non-ascii entry name"
    );
}
