use file_history::codec::{decode, encode, format_hash, u64_to_dec, DecodeError, HashType, JournalEntry};

fn sample_digest() -> Vec<u8> {
    let mut d = Vec::new();
    for i in 0..64u16 {
        d.push((i * 3 % 256) as u8);
    }
    d
}

#[test]
fn encode_delete_line() {
    let e = JournalEntry::Delete { path: String::from("a.txt") };
    assert_eq!(encode(&e), "D a.txt");
}

#[test]
fn encode_upsert_line_exact() {
    let e = JournalEntry::Upsert {
        modify: true,
        hash_type: HashType::Sha512,
        digest: vec![0xab; 64],
        modified: 1000,
        path: String::from("a.txt"),
    };
    let expected = format!("M sha512 {} 1000 a.txt", "ab".repeat(64));
    assert_eq!(encode(&e), expected);
}

#[test]
fn encode_add_line_exact() {
    let e = JournalEntry::Upsert {
        modify: false,
        hash_type: HashType::Sha512,
        digest: vec![0u8; 64],
        modified: 0,
        path: String::from("dir/b.txt"),
    };
    let expected = format!("A sha512 {} 0 dir/b.txt", "00".repeat(64));
    assert_eq!(encode(&e), expected);
}

#[test]
fn format_hash_lowercase_pairs() {
    assert_eq!(format_hash(&[0x00, 0x0f, 0xf0, 0xff]), "000ff0ff");
    assert_eq!(format_hash(&[]), "");
}

#[test]
fn u64_to_dec_values() {
    assert_eq!(u64_to_dec(0), "0");
    assert_eq!(u64_to_dec(7), "7");
    assert_eq!(u64_to_dec(1000), "1000");
    assert_eq!(u64_to_dec(u64::MAX), "18446744073709551615");
}

#[test]
fn round_trip_upsert() {
    let e = JournalEntry::Upsert {
        modify: false,
        hash_type: HashType::Sha512,
        digest: sample_digest(),
        modified: 123456789,
        path: String::from("some dir/with spaces.bin"),
    };
    let line = encode(&e);
    match decode(&line) {
        Ok(JournalEntry::Upsert { modify, digest, modified, path, .. }) => {
            assert!(!modify);
            assert_eq!(digest, sample_digest());
            assert_eq!(modified, 123456789);
            assert_eq!(path, "some dir/with spaces.bin");
        },
        _ => panic!("expected an upsert entry"),
    }
}

#[test]
fn round_trip_delete() {
    let e = JournalEntry::Delete { path: String::from("x/y z.txt") };
    let line = encode(&e);
    match decode(&line) {
        Ok(JournalEntry::Delete { path }) => assert_eq!(path, "x/y z.txt"),
        _ => panic!("expected a delete entry"),
    }
}

#[test]
fn decode_rejects_wrong_digest_width() {
    // 127 hex chars instead of 128
    let line = format!("M sha512 {} 1000 a.txt", "a".repeat(127));
    assert!(matches!(decode(&line), Err(DecodeError::MalformedRecord)));
    // 130 hex chars
    let line = format!("M sha512 {} 1000 a.txt", "a".repeat(130));
    assert!(matches!(decode(&line), Err(DecodeError::MalformedRecord)));
}

#[test]
fn decode_rejects_uppercase_hex() {
    let line = format!("M sha512 {} 1000 a.txt", "AB".repeat(64));
    assert!(matches!(decode(&line), Err(DecodeError::MalformedRecord)));
}

#[test]
fn decode_rejects_bad_opcode_and_tag() {
    let line = format!("X sha512 {} 1000 a.txt", "ab".repeat(64));
    assert!(matches!(decode(&line), Err(DecodeError::MalformedRecord)));
    let line = format!("M sha256 {} 1000 a.txt", "ab".repeat(64));
    assert!(matches!(decode(&line), Err(DecodeError::MalformedRecord)));
    assert!(matches!(decode(""), Err(DecodeError::MalformedRecord)));
    assert!(matches!(decode("D"), Err(DecodeError::MalformedRecord)));
    assert!(matches!(decode("garbage"), Err(DecodeError::MalformedRecord)));
}

#[test]
fn decode_rejects_missing_or_bad_modified() {
    // no digits before the path separator space
    let line = format!("M sha512 {}  a.txt", "ab".repeat(64));
    assert!(matches!(decode(&line), Err(DecodeError::MalformedRecord)));
    // digits run to end of line: no path field at all
    let line = format!("M sha512 {} 1000", "ab".repeat(64));
    assert!(matches!(decode(&line), Err(DecodeError::MalformedRecord)));
    // value beyond u64::MAX
    let line = format!("M sha512 {} 18446744073709551616 a.txt", "ab".repeat(64));
    assert!(matches!(decode(&line), Err(DecodeError::MalformedRecord)));
}

#[test]
fn decode_accepts_boundary_modified() {
    let line = format!("M sha512 {} 18446744073709551615 a.txt", "ab".repeat(64));
    match decode(&line) {
        Ok(JournalEntry::Upsert { modified, .. }) => assert_eq!(modified, u64::MAX),
        _ => panic!("expected an upsert entry"),
    }
}

#[test]
fn decode_delete_keeps_whole_remainder() {
    match decode("D a b c.txt") {
        Ok(JournalEntry::Delete { path }) => assert_eq!(path, "a b c.txt"),
        _ => panic!("expected a delete entry"),
    }
}

#[test]
fn decode_empty_path() {
    // the path field may be empty; the line is still well-formed
    match decode("D ") {
        Ok(JournalEntry::Delete { path }) => assert_eq!(path, ""),
        _ => panic!("expected a delete entry"),
    }
}
