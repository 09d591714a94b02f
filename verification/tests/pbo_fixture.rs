use swifty_artifacts::swifty_pbo_parts_from_bytes;

fn push_cstring(buf: &mut Vec<u8>, s: &str) {
    buf.extend_from_slice(s.as_bytes());
    buf.push(0);
}

fn push_u32_le(buf: &mut Vec<u8>, v: u32) {
    buf.extend_from_slice(&v.to_le_bytes());
}

fn push_entry(buf: &mut Vec<u8>, filename: &str, t: u32, data_size: u32) {
    push_cstring(buf, filename);
    push_u32_le(buf, t); // type
    push_u32_le(buf, 0); // unpacked size (ignored)
    push_u32_le(buf, 0); // offset (ignored)
    push_u32_le(buf, 0); // timestamp (ignored)
    push_u32_le(buf, data_size); // data size
}

#[test]
fn can_read_and_partition_minimal_pbo() {
    // first "dummy" entry with data_size=0, one payload entry, then the terminator
    // record (empty name, type 0); payload and a tail byte follow the header.
    let payload = b"PAYLOAD";
    let tail = b"Z";

    let mut bytes = Vec::new();
    push_entry(&mut bytes, "dummy", 0x0000_0000, 0);
    push_entry(&mut bytes, "a.txt", 0x0000_0000, payload.len() as u32);
    push_entry(&mut bytes, "", 0x0000_0000, 0);

    let expected_header_len = bytes.len() as u64;

    bytes.extend_from_slice(payload);
    bytes.extend_from_slice(tail);

    let file_len = bytes.len() as u64;
    let header_bytes = bytes.clone();
    let parts = swifty_pbo_parts_from_bytes("minimal.pbo", &bytes).expect("partition pbo");

    assert!(!parts.is_empty(), "expected non-empty partitions");
    assert_eq!(parts.len(), 3, "expected header, one entry, and tail");
    assert_eq!(parts.first().map(|p| p.path.as_str()), Some("$$HEADER$$"));
    assert_eq!(parts.last().map(|p| p.path.as_str()), Some("$$END$$"));
    assert_eq!(parts[0].length, expected_header_len, "header length mismatch");
    assert_eq!(parts[1].path.as_str(), "a.txt");
    assert_eq!(parts[1].length, payload.len() as u64);
    assert_eq!(parts[2].length, tail.len() as u64);
    assert_eq!(
        parts[0].checksum.to_hex_upper(),
        format!("{:X}", md5::compute(&header_bytes[..expected_header_len as usize]))
    );
    let payload_start = expected_header_len as usize;
    let payload_end = payload_start + payload.len();
    assert_eq!(
        parts[1].checksum.to_hex_upper(),
        format!("{:X}", md5::compute(&header_bytes[payload_start..payload_end]))
    );
    assert_eq!(parts[2].checksum.to_hex_upper(), format!("{:X}", md5::compute(&header_bytes[payload_end..])));

    let mut offset = 0u64;
    for p in &parts {
        assert_eq!(p.start, offset, "expected contiguous partitioning");
        offset = offset.saturating_add(p.length);
        assert!(!p.path.is_empty(), "expected part name");
    }
    assert_eq!(offset, file_len, "expected partitions cover full file");
}

#[test]
fn pbo_allows_zero_length_parts() {
    let mut bytes = Vec::new();
    push_entry(&mut bytes, "dummy", 0x5665_7273, 0);
    bytes.push(0); // no extensions
    push_entry(&mut bytes, "a.txt", 0x0000_0000, 3);
    push_entry(&mut bytes, "empty.txt", 0x0000_0000, 0);
    push_entry(&mut bytes, "b.txt", 0x0000_0000, 2);
    push_entry(&mut bytes, "", 0x0000_0000, 0);
    bytes.extend_from_slice(b"abcde");

    let parts = swifty_pbo_parts_from_bytes("zero.pbo", &bytes).expect("partition pbo");
    swifty_artifacts::validate_parts_swifty_strict("zero.pbo", bytes.len() as u64, &parts).expect("validate parts");
    assert!(parts.iter().any(|p| p.length == 0), "expected a zero-length part");
    let names: Vec<_> = parts.iter().map(|p| p.path.as_str()).collect();
    assert_eq!(names, vec!["$$HEADER$$", "a.txt", "empty.txt", "b.txt", "$$END$$"]);

    let mut offset = 0u64;
    for p in &parts {
        assert_eq!(p.start, offset, "expected contiguous partitioning");
        offset += p.length;
    }
    assert_eq!(offset, bytes.len() as u64, "expected partitions cover full file");

    let mut scanner = swifty_artifacts::SwiftyStreamingPartScanner::new("zero.pbo", bytes.len() as u64);
    let mut streamed = Vec::new();
    for chunk in bytes.chunks(2) {
        streamed.extend(scanner.push(chunk).unwrap());
    }
    streamed.extend(scanner.finish().unwrap());
    let streamed_names: Vec<_> = streamed.iter().map(|p| p.path.as_str()).collect();
    assert_eq!(streamed_names, names);
    for (s, p) in streamed.iter().zip(parts.iter()) {
        assert_eq!(s.checksum, p.checksum);
    }
}
