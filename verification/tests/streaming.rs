use swifty_artifacts::scan::{PboMode, ScanSettings, SignatureMode};
use swifty_artifacts::{scan_file, Md5Digest, SwiftyStreamingPartScanner, SwiftyStreamingPartValidator};

fn real_settings() -> ScanSettings {
    ScanSettings { signature: SignatureMode::Real, salt: String::new(), pbo: PboMode::Auto }
}

fn assert_stream_matches_scan_file(bytes: &[u8], rel_path: &str) {
    let scanned = scan_file(rel_path, bytes, &real_settings()).unwrap();
    let mut scanner = SwiftyStreamingPartScanner::new(rel_path, bytes.len() as u64);
    let mut parts = Vec::new();
    for chunk in bytes.chunks(3) {
        parts.extend(scanner.push(chunk).unwrap());
    }
    parts.extend(scanner.finish().unwrap());
    assert_eq!(parts.len(), scanned.parts.len());
    for (left, right) in parts.iter().zip(scanned.parts.iter()) {
        assert_eq!(left.path, right.path);
        assert_eq!(left.start, right.start);
        assert_eq!(left.length, right.length);
        assert_eq!(left.checksum, right.checksum);
    }
}

fn minimal_pbo_bytes(payload: &[u8]) -> Vec<u8> {
    let mut bytes = Vec::new();
    write_entry(&mut bytes, "dummy", 0);
    write_entry(&mut bytes, "a.txt", payload.len() as u32);
    write_entry(&mut bytes, "", 0);
    bytes.extend_from_slice(payload);
    bytes
}

fn write_entry(bytes: &mut Vec<u8>, name: &str, data_size: u32) {
    bytes.extend_from_slice(name.as_bytes());
    bytes.push(0);
    for value in [0_u32, 0, 0, 0, data_size] {
        bytes.extend_from_slice(&value.to_le_bytes());
    }
}

#[test]
fn streaming_raw_matches_scan_file() {
    assert_stream_matches_scan_file(b"abcdefghijklmnopqrstuvwxyz", "file.bin");
}

#[test]
fn streaming_real_pbo_matches_scan_file() {
    assert_stream_matches_scan_file(&minimal_pbo_bytes(b"payload"), "real.pbo");
}

#[test]
fn streaming_fake_pbo_errors_like_scan_file() {
    assert_stream_matches_scan_file(b"not a valid pbo", "fake.pbo");
}

#[test]
fn non_pbo_with_pbo_like_bytes_uses_raw_semantics() {
    let bytes = minimal_pbo_bytes(b"payload");
    assert_stream_matches_scan_file(&bytes, "not-pbo.bin");
    let scanned = scan_file("not-pbo.bin", &bytes, &real_settings()).unwrap();
    assert_eq!(scanned.parts.len(), 1);
}

#[test]
fn streaming_part_validator_accepts_matching_md5() {
    let expected = Md5Digest::from_bytes(md5::compute(b"abcdef").0);
    let mut validator = SwiftyStreamingPartValidator::new(expected, 6);

    validator.push(b"abc").unwrap();
    validator.push(b"def").unwrap();

    assert_eq!(validator.finish().unwrap(), 6);
}

#[test]
fn streaming_part_validator_rejects_digest_mismatch() {
    let expected = Md5Digest::from_bytes(md5::compute(b"abcdef").0);
    let mut validator = SwiftyStreamingPartValidator::new(expected, 6);

    validator.push(b"abcdeg").unwrap();

    assert!(validator.finish().is_err());
}
