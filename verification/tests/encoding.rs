use yuanjing_core::error::LedgerError;
use yuanjing_core::evidence::{
    bits_of, check_confidence_text, check_sha256_text, encode, encode_fields, encode_tail,
    push_be32, push_bytes, push_framed, Evidence, ENCODING_VERSION,
};

fn sample() -> Evidence {
    Evidence {
        image_phash: "AAEC".to_string(),
        image_sha256: "ab".repeat(32),
        verdict: true,
        confidence: "0.99".to_string(),
        activated_prompts: vec![1, 2, 99],
        prompt_pool_hash: "p".to_string(),
        external_knowledge_hash: String::new(),
        timestamp: 1234567890,
    }
}

fn sample_bytes() -> Vec<u8> {
    let mut expected: Vec<u8> = vec![1];
    expected.extend_from_slice(&[0, 0, 0, 64]);
    expected.extend_from_slice("ab".repeat(32).as_bytes());
    expected.extend_from_slice(&[0, 0, 0, 4]);
    expected.extend_from_slice(b"AAEC");
    expected.push(1);
    expected.extend_from_slice(&[0, 0, 0, 4]);
    expected.extend_from_slice(b"0.99");
    expected.extend_from_slice(&[0, 0, 0, 3]);
    expected.extend_from_slice(&[0, 0, 0, 1, 0, 0, 0, 2, 0, 0, 0, 99]);
    expected.extend_from_slice(&[0, 0, 0, 1]);
    expected.extend_from_slice(b"p");
    expected.extend_from_slice(&[0, 0, 0, 0]);
    expected.extend_from_slice(&[0, 0, 0, 0, 0x49, 0x96, 0x02, 0xd2]);
    expected
}

#[test]
fn canonical_bytes_of_a_sample_record() {
    assert_eq!(ENCODING_VERSION, 1);
    assert_eq!(encode(&sample()), Ok(sample_bytes()));
}

#[test]
fn encoding_is_deterministic() {
    let record = sample();
    assert_eq!(encode(&record), encode(&record));
    assert_eq!(encode(&record), encode(&record.clone()));
}

#[test]
fn changing_any_field_changes_the_bytes() {
    let base = encode(&sample()).unwrap();
    let mut changed: Vec<Evidence> = Vec::new();
    let mut r = sample();
    r.image_phash = "AAED".to_string();
    changed.push(r);
    let mut r = sample();
    r.image_sha256 = "ac".repeat(32);
    changed.push(r);
    let mut r = sample();
    r.verdict = false;
    changed.push(r);
    let mut r = sample();
    r.confidence = "0.98".to_string();
    changed.push(r);
    let mut r = sample();
    r.activated_prompts = vec![1, 99, 2];
    changed.push(r);
    let mut r = sample();
    r.activated_prompts = vec![1, 2];
    changed.push(r);
    let mut r = sample();
    r.prompt_pool_hash = "q".to_string();
    changed.push(r);
    let mut r = sample();
    r.external_knowledge_hash = "k".to_string();
    changed.push(r);
    let mut r = sample();
    r.timestamp = 1234567891;
    changed.push(r);
    let mut seen: Vec<Vec<u8>> = vec![base];
    for record in changed.iter() {
        let bytes = encode(record).unwrap();
        assert!(!seen.contains(&bytes));
        seen.push(bytes);
    }
}

#[test]
fn text_cannot_move_between_neighbouring_fields() {
    let mut a = sample();
    a.prompt_pool_hash = "ab".to_string();
    a.external_knowledge_hash = "c".to_string();
    let mut b = sample();
    b.prompt_pool_hash = "a".to_string();
    b.external_knowledge_hash = "bc".to_string();
    assert_ne!(encode(&a).unwrap(), encode(&b).unwrap());
}

#[test]
fn text_outside_ascii_is_written_as_utf8() {
    let mut r = sample();
    r.image_phash = "é€".to_string();
    let bytes = encode(&r).unwrap();
    let at = 1 + 4 + 64;
    assert_eq!(&bytes[at..at + 4], &[0, 0, 0, 5]);
    assert_eq!(&bytes[at + 4..at + 9], "é€".as_bytes());
}

#[test]
fn timestamps_are_written_in_twos_complement() {
    assert_eq!(bits_of(0), 0);
    assert_eq!(bits_of(1234567890), 1234567890);
    assert_eq!(bits_of(i64::MAX), 0x7fff_ffff_ffff_ffff);
    assert_eq!(bits_of(-1), u64::MAX);
    assert_eq!(bits_of(i64::MIN), 0x8000_0000_0000_0000);
    assert_eq!(bits_of(-1234567890), (-1234567890i64) as u64);
    let mut r = sample();
    r.timestamp = -2;
    let bytes = encode(&r).unwrap();
    assert_eq!(&bytes[bytes.len() - 8..], &[0xff, 0xff, 0xff, 0xff, 0xff, 0xff, 0xff, 0xfe]);
}

#[test]
fn integers_are_big_endian() {
    let mut out = vec![7u8];
    push_be32(&mut out, 0x0102_0304);
    assert_eq!(out, vec![7, 1, 2, 3, 4]);
    push_be32(&mut out, u32::MAX);
    assert_eq!(&out[5..], &[255, 255, 255, 255]);
    let mut out = Vec::new();
    push_be32(&mut out, 0x1234_5678u32);
    assert_eq!(out, 0x1234_5678u32.to_be_bytes().to_vec());
}

#[test]
fn framed_bytes_carry_their_length() {
    let mut out = vec![9u8];
    push_bytes(&mut out, b"xy");
    assert_eq!(out, vec![9, b'x', b'y']);
    push_framed(&mut out, b"abc");
    assert_eq!(out, vec![9, b'x', b'y', 0, 0, 0, 3, b'a', b'b', b'c']);
    push_framed(&mut out, b"");
    assert_eq!(&out[10..], &[0, 0, 0, 0]);
}

#[test]
fn tail_and_head_layout() {
    let tail = encode_tail(&vec![5, 6], b"po", b"kn", 3);
    assert_eq!(
        tail,
        vec![
            0, 0, 0, 2, 0, 0, 0, 5, 0, 0, 0, 6, 0, 0, 0, 2, b'p', b'o', 0, 0, 0, 2, b'k', b'n', 0,
            0, 0, 0, 0, 0, 0, 3
        ]
    );
    let whole = encode_fields(b"s", b"ph", false, b"0", &[0xaa, 0xbb]);
    assert_eq!(
        whole,
        vec![1, 0, 0, 0, 1, b's', 0, 0, 0, 2, b'p', b'h', 0, 0, 0, 0, 1, b'0', 0xaa, 0xbb]
    );
}

#[test]
fn digest_text_must_be_64_lower_case_hex_digits() {
    assert!(check_sha256_text("0123456789abcdef".repeat(4).as_bytes()));
    assert!(!check_sha256_text("0123456789abcdef".repeat(4)[1..].as_bytes()));
    assert!(!check_sha256_text(("0123456789abcdef".repeat(4) + "0").as_bytes()));
    assert!(!check_sha256_text("0123456789ABCDEF".repeat(4).as_bytes()));
    assert!(!check_sha256_text("0123456789abcdeg".repeat(4).as_bytes()));
    assert!(!check_sha256_text(b""));
    assert!(!check_sha256_text(b"mock_sha256"));
}

#[test]
fn confidence_text_must_be_a_number_from_zero_to_one() {
    for good in ["0", "1", "0.0", "1.0", "1.000", "0.99", "0.5", "0.123456789", "0.000001"] {
        assert!(check_confidence_text(good.as_bytes()), "{}", good);
    }
    for bad in [
        "", "2", "9", "1.5", "1.01", "1.10", "0.", "1.", ".5", "0,5", "00.5", "01", "10", "-0.5",
        "+1", "abc", "0.5a", "0.5 ", " 0.5", "0..5", "0.5.1", "1e-3", "NaN", "inf", "0x1",
    ] {
        assert!(!check_confidence_text(bad.as_bytes()), "{}", bad);
    }
}

#[test]
fn confidence_from_a_float_is_accepted() {
    for value in [0.0f32, 0.25, 0.5, 0.99, 1.0, 0.000001] {
        let mut r = sample();
        r.confidence = value.to_string();
        assert!(encode(&r).is_ok(), "{}", value);
    }
    for value in [1.5f32, -0.5, f32::NAN, f32::INFINITY, 2.0] {
        let mut r = sample();
        r.confidence = value.to_string();
        assert_eq!(encode(&r), Err(LedgerError::EncodingError), "{}", value);
    }
}

#[test]
fn malformed_records_are_refused() {
    let mut r = sample();
    r.image_sha256 = "mock_sha256".to_string();
    assert_eq!(encode(&r), Err(LedgerError::EncodingError));
    let mut r = sample();
    r.image_sha256 = "AB".repeat(32);
    assert_eq!(encode(&r), Err(LedgerError::EncodingError));
    let mut r = sample();
    r.image_sha256 = "é".repeat(32);
    assert_eq!(encode(&r), Err(LedgerError::EncodingError));
    let mut r = sample();
    r.confidence = "1.5".to_string();
    assert_eq!(encode(&r), Err(LedgerError::EncodingError));
    let mut r = sample();
    r.confidence = String::new();
    assert_eq!(encode(&r), Err(LedgerError::EncodingError));
}

#[test]
fn empty_lists_and_texts_are_encodable() {
    let mut r = sample();
    r.image_phash = String::new();
    r.activated_prompts = Vec::new();
    r.prompt_pool_hash = String::new();
    r.confidence = "0".to_string();
    let bytes = encode(&r).unwrap();
    assert_eq!(bytes.len(), 1 + 4 + 64 + 4 + 1 + 4 + 1 + 4 + 4 + 4 + 8);
}
