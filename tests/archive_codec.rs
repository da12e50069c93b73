use serde_cbor::Value;
use szdat::{is_safe_path, Archive, DecodeError, File};

fn file(path: &str, content: &[u8]) -> File {
    File::new(path.to_string(), content.to_vec())
}

fn sample() -> Archive {
    Archive {
        created_at: 1_700_000_000,
        files: vec![
            file("a.txt", b"hello"),
            file("sub/b.bin", &[0x00, 0xFF]),
            file("empty", b""),
            file("caf\u{e9}/\u{1F600}.dat", &[0xC3, 0x28, 0xFE]),
        ],
    }
}

#[test]
fn round_trip_keeps_archive() {
    let a = sample();
    let bytes = a.to_cbor_bytes();
    assert_eq!(Archive::from_cbor_bytes(&bytes), Ok(a));
}

#[test]
fn round_trip_empty_archive() {
    let a = Archive { created_at: 0, files: vec![] };
    let bytes = a.to_cbor_bytes();
    assert_eq!(Archive::from_cbor_bytes(&bytes), Ok(a));
}

#[test]
fn round_trip_large_values() {
    let big = vec![7u8; 70_000];
    let a = Archive { created_at: u64::MAX, files: vec![file("big", &big)] };
    let bytes = a.to_cbor_bytes();
    assert_eq!(Archive::from_cbor_bytes(&bytes), Ok(a));
}

#[test]
fn encoding_is_deterministic() {
    let a = sample();
    let b = a.clone();
    assert_eq!(a.to_cbor_bytes(), a.to_cbor_bytes());
    assert_eq!(a.to_cbor_bytes(), b.to_cbor_bytes());
}

#[test]
fn encoding_exact_bytes() {
    let a = Archive { created_at: 1, files: vec![file("x", &[0xAB])] };
    let mut expected: Vec<u8> = vec![0xA2, 0x6A];
    expected.extend_from_slice(b"created_at");
    expected.push(0x01);
    expected.push(0x65);
    expected.extend_from_slice(b"files");
    expected.push(0x81);
    expected.push(0xA2);
    expected.push(0x64);
    expected.extend_from_slice(b"path");
    expected.extend_from_slice(&[0x61, b'x', 0x67]);
    expected.extend_from_slice(b"content");
    expected.extend_from_slice(&[0x41, 0xAB]);
    assert_eq!(a.to_cbor_bytes(), expected);
}

#[test]
fn timestamp_heads_are_shortest() {
    let enc = |t: u64| Archive { created_at: t, files: vec![] }.to_cbor_bytes();
    // map head, key "created_at" (11 bytes), then the timestamp
    assert_eq!(&enc(23)[12..13], &[0x17]);
    assert_eq!(&enc(24)[12..14], &[0x18, 0x18]);
    assert_eq!(&enc(256)[12..15], &[0x19, 0x01, 0x00]);
    assert_eq!(&enc(65_536)[12..17], &[0x1A, 0x00, 0x01, 0x00, 0x00]);
    assert_eq!(
        &enc(1 << 32)[12..21],
        &[0x1B, 0x00, 0x00, 0x00, 0x01, 0x00, 0x00, 0x00, 0x00]
    );
}

#[test]
fn encoding_is_standard_cbor() {
    let bytes = sample().to_cbor_bytes();
    let v: Value = serde_cbor::from_slice(&bytes).unwrap();
    let Value::Map(m) = v else { panic!("not a map") };
    assert_eq!(
        m.get(&Value::Text("created_at".to_string())),
        Some(&Value::Integer(1_700_000_000))
    );
    let Some(Value::Array(files)) = m.get(&Value::Text("files".to_string())) else {
        panic!("no files")
    };
    assert_eq!(files.len(), 4);
    let Value::Map(f) = &files[1] else { panic!("file is not a map") };
    assert_eq!(
        f.get(&Value::Text("path".to_string())),
        Some(&Value::Text("sub/b.bin".to_string()))
    );
    assert_eq!(
        f.get(&Value::Text("content".to_string())),
        Some(&Value::Bytes(vec![0x00, 0xFF]))
    );
}

#[test]
fn truncated_input_is_malformed() {
    let bytes = sample().to_cbor_bytes();
    for n in 0..bytes.len() {
        assert_eq!(Archive::from_cbor_bytes(&bytes[..n]), Err(DecodeError::Malformed));
    }
}

#[test]
fn trailing_byte_is_malformed() {
    let mut bytes = sample().to_cbor_bytes();
    bytes.push(0);
    assert_eq!(Archive::from_cbor_bytes(&bytes), Err(DecodeError::Malformed));
}

#[test]
fn wrong_type_tag_is_malformed() {
    let mut bytes = sample().to_cbor_bytes();
    bytes[0] = 0x82; // an array instead of a map
    assert_eq!(Archive::from_cbor_bytes(&bytes), Err(DecodeError::Malformed));
}

#[test]
fn non_shortest_head_is_malformed() {
    let a = Archive { created_at: 5, files: vec![] };
    let mut bytes = a.to_cbor_bytes();
    assert_eq!(bytes[12], 0x05);
    bytes[12] = 0x18;
    bytes.insert(13, 0x05);
    assert_eq!(Archive::from_cbor_bytes(&bytes), Err(DecodeError::Malformed));
}

#[test]
fn invalid_utf8_path_is_malformed() {
    let a = Archive { created_at: 1, files: vec![file("ab", b"")] };
    let mut bytes = a.to_cbor_bytes();
    let at = bytes.windows(2).position(|w| w == b"ab").unwrap();
    bytes[at] = 0xFF;
    assert_eq!(Archive::from_cbor_bytes(&bytes), Err(DecodeError::Malformed));
}

#[test]
fn empty_input_is_malformed() {
    assert_eq!(Archive::from_cbor_bytes(&[]), Err(DecodeError::Malformed));
}

#[test]
fn new_keeps_files_and_stamps_time() {
    let files = vec![file("a.txt", b"hello")];
    let a = Archive::new(files.clone()).unwrap();
    assert_eq!(a.files, files);
    assert!(a.created_at > 1_600_000_000);
}

#[test]
fn file_new_keeps_fields() {
    let f = File::new("p".to_string(), vec![1, 2]);
    assert_eq!(f.path, "p");
    assert_eq!(f.content, vec![1, 2]);
}

#[test]
fn safe_paths() {
    assert!(is_safe_path("a.txt"));
    assert!(is_safe_path("sub/b.bin"));
    assert!(is_safe_path("..a/b"));
    assert!(is_safe_path("a/..b"));
    assert!(is_safe_path("./a"));
}

#[test]
fn unsafe_paths() {
    assert!(!is_safe_path(""));
    assert!(!is_safe_path("/etc/passwd"));
    assert!(!is_safe_path(".."));
    assert!(!is_safe_path("../x"));
    assert!(!is_safe_path("a/../../x"));
    assert!(!is_safe_path("a/.."));
    assert!(!is_safe_path("a\\b"));
    assert!(!is_safe_path("a\0b"));
}

#[test]
fn archive_paths_checked() {
    let mut a = sample();
    assert!(a.paths_are_safe());
    a.files.push(file("../evil", b"x"));
    assert!(!a.paths_are_safe());
}
