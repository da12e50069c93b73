use szdat::{
    format_key_base32, generate_private_key, parse_key_base32, public_key, sign,
    signature_valid, Archive, DecodeError, Envelope, File, KeyFormatError, VerificationError,
    ARCHIVE_CONTENT_TYPE,
};

fn hex(s: &str) -> Vec<u8> {
    (0..s.len()).step_by(2).map(|i| u8::from_str_radix(&s[i..i + 2], 16).unwrap()).collect()
}

fn key32(s: &str) -> [u8; 32] {
    hex(s).try_into().unwrap()
}

const RFC_SECRET: &str = "9d61b19deffd5a60ba844af492ec2cc44449c5697b326919703bac031cae7f60";
const RFC_PUBLIC: &str = "d75a980182b10ab7d54bfed3c964073a0ee172f3daa62325af021a68f707511a";
const RFC_SIG: &str = "e5564300c360ac729086e2cc806e828a84877f1eb8e5d974d873e065224901555fb8821590a33bacc61e39701cf9b46bd25bf5f0595bbe24655141438e7a100b";

fn two_files() -> Archive {
    Archive {
        created_at: 1_700_000_000,
        files: vec![
            File::new("a.txt".to_string(), b"hello".to_vec()),
            File::new("sub/b.bin".to_string(), vec![0x00, 0xFF]),
        ],
    }
}

fn write(e: &Envelope) -> Vec<u8> {
    let mut out = Vec::new();
    e.write_cbor(&mut out);
    out
}

#[test]
fn known_key_and_signature() {
    let sk = key32(RFC_SECRET);
    assert_eq!(public_key(&sk).to_vec(), hex(RFC_PUBLIC));
    assert_eq!(sign(&sk, b""), hex(RFC_SIG));
    assert!(signature_valid(&key32(RFC_PUBLIC), b"", &hex(RFC_SIG)));
}

#[test]
fn short_signature_is_invalid() {
    let sk = key32(RFC_SECRET);
    let pk = public_key(&sk);
    assert!(!signature_valid(&pk, b"", &hex(RFC_SIG)[..63]));
}

#[test]
fn sealed_body_verifies() {
    let sk = generate_private_key().unwrap();
    let pk = public_key(&sk);
    for body in [vec![], b"abc".to_vec(), vec![0xFF; 1000]] {
        let e = Envelope::seal("t".to_string(), body.clone(), &sk);
        assert_eq!(e.body, body);
        assert_eq!(e.signature.len(), 64);
        assert_eq!(e.verify(&pk), Ok(()));
    }
}

#[test]
fn other_key_is_rejected() {
    let sk = generate_private_key().unwrap();
    let other = public_key(&generate_private_key().unwrap());
    assert_ne!(other, public_key(&sk));
    let e = Envelope::seal("t".to_string(), b"body".to_vec(), &sk);
    assert_eq!(e.verify(&other), Err(VerificationError::InvalidSignature));
}

#[test]
fn flipped_body_bit_is_rejected() {
    let sk = generate_private_key().unwrap();
    let pk = public_key(&sk);
    let e = Envelope::new(two_files(), &sk);
    for i in 0..e.body.len() {
        for bit in 0..8 {
            let mut t = e.clone();
            t.body[i] ^= 1 << bit;
            assert_eq!(t.verify(&pk), Err(VerificationError::InvalidSignature));
        }
    }
}

#[test]
fn full_cycle() {
    let sk = generate_private_key().unwrap();
    let pk = public_key(&sk);
    let a = two_files();
    assert_eq!(a.files.len(), 2);
    let e = Envelope::new(a.clone(), &sk);
    assert_eq!(e.content_type, ARCHIVE_CONTENT_TYPE);
    let stored = write(&e);
    let read = Envelope::read_cbor(&stored).unwrap();
    assert_eq!(read, e);
    assert_eq!(read.verify(&pk), Ok(()));
    let opened = read.open().unwrap();
    assert_eq!(opened, a);
    assert_eq!(opened.files[0].path, "a.txt");
    assert_eq!(opened.files[0].content, b"hello");
    assert_eq!(opened.files[1].path, "sub/b.bin");
    assert_eq!(opened.files[1].content, vec![0x00, 0xFF]);
}

#[test]
fn corrupted_signature_is_read_but_rejected() {
    let sk = generate_private_key().unwrap();
    let pk = public_key(&sk);
    let e = Envelope::new(two_files(), &sk);
    let stored = write(&e);
    let sig_at = stored.len() - 64;
    for i in sig_at..stored.len() {
        let mut bad = stored.clone();
        bad[i] ^= 0x5A;
        let read = Envelope::read_cbor(&bad).unwrap();
        assert_eq!(read.verify(&pk), Err(VerificationError::InvalidSignature));
    }
}

#[test]
fn empty_archive_cycle() {
    let sk = generate_private_key().unwrap();
    let pk = public_key(&sk);
    let a = Archive::new(vec![]).unwrap();
    assert!(a.files.is_empty());
    let e = Envelope::new(a.clone(), &sk);
    let read = Envelope::read_cbor(&write(&e)).unwrap();
    assert_eq!(read.verify(&pk), Ok(()));
    let opened = read.open().unwrap();
    assert_eq!(opened, a);
    assert!(opened.files.is_empty());
}

#[test]
fn content_type_is_not_signed() {
    let sk = generate_private_key().unwrap();
    let pk = public_key(&sk);
    let mut e = Envelope::seal("one".to_string(), b"x".to_vec(), &sk);
    e.content_type = "two".to_string();
    assert_eq!(e.verify(&pk), Ok(()));
}

#[test]
fn envelope_bytes_exact() {
    let e = Envelope {
        content_type: "t".to_string(),
        body: vec![1],
        signature: vec![2; 64],
    };
    let mut expected: Vec<u8> = vec![0xA3, 0x6C];
    expected.extend_from_slice(b"content_type");
    expected.extend_from_slice(&[0x61, b't', 0x64]);
    expected.extend_from_slice(b"body");
    expected.extend_from_slice(&[0x41, 0x01, 0x69]);
    expected.extend_from_slice(b"signature");
    expected.extend_from_slice(&[0x58, 0x40]);
    expected.extend_from_slice(&[2; 64]);
    assert_eq!(write(&e), expected);
    assert_eq!(Envelope::read_cbor(&expected), Ok(e));
}

#[test]
fn short_stored_signature_is_malformed() {
    let e = Envelope { content_type: "t".to_string(), body: vec![], signature: vec![0; 63] };
    assert_eq!(Envelope::read_cbor(&write(&e)), Err(DecodeError::Malformed));
}

#[test]
fn truncated_envelope_is_malformed() {
    let sk = generate_private_key().unwrap();
    let stored = write(&Envelope::new(two_files(), &sk));
    for n in 0..stored.len() {
        assert_eq!(Envelope::read_cbor(&stored[..n]), Err(DecodeError::Malformed));
    }
}

#[test]
fn body_that_is_no_archive_does_not_open() {
    let sk = generate_private_key().unwrap();
    let e = Envelope::seal("t".to_string(), b"not cbor".to_vec(), &sk);
    assert_eq!(e.open(), Err(DecodeError::Malformed));
}

#[test]
fn key_text_round_trip() {
    for _ in 0..8 {
        let k = generate_private_key().unwrap();
        assert_eq!(parse_key_base32(&format_key_base32(&k)), Ok(k));
    }
}

#[test]
fn key_text_exact() {
    let zero = [0u8; 32];
    let text = format_key_base32(&zero);
    assert_eq!(text, format!("{}====", "A".repeat(52)));
    let mut k = [0u8; 32];
    k[0] = 0xFF;
    assert!(format_key_base32(&k).starts_with("74"));
}

#[test]
fn key_text_any_case() {
    let k = generate_private_key().unwrap();
    let text = format_key_base32(&k).to_lowercase();
    assert_eq!(parse_key_base32(&text), Ok(k));
}

#[test]
fn key_text_malformed() {
    assert_eq!(parse_key_base32("not base32!"), Err(KeyFormatError::Malformed));
    assert_eq!(parse_key_base32("AAAA"), Err(KeyFormatError::Malformed));
}

#[test]
fn key_text_wrong_length() {
    assert_eq!(parse_key_base32("AAAAAAAA"), Err(KeyFormatError::WrongLength));
    assert_eq!(parse_key_base32(""), Err(KeyFormatError::WrongLength));
}

#[test]
fn key_text_concatenated_blocks_malformed() {
    // Each block decodes alone, but the whole is no single base32 text.
    assert_eq!(parse_key_base32(&"AA======".repeat(32)), Err(KeyFormatError::Malformed));
    assert_eq!(parse_key_base32("AE======AE======"), Err(KeyFormatError::Malformed));
}

#[test]
fn key_text_shape() {
    let text = format_key_base32(&generate_private_key().unwrap());
    assert_eq!(text.len(), 56);
    assert!(text.ends_with("===="));
    assert!(text[..52].chars().all(|c| c.is_ascii_uppercase() || ('2'..='7').contains(&c)));
}
