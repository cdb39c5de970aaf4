use beam_audit::validity::classify_zip_tail;

#[test]
fn test_rejects_file_below_minimum_size() {
    let tail: Vec<u8> = vec![0; 21];
    let (valid, reason) = classify_zip_tail(21, &tail);
    assert!(!valid);
    assert_eq!(reason.unwrap(), "File too small (21 bytes, minimum 22 bytes required)");
}

#[test]
fn test_rejects_window_without_signature() {
    // A large file whose final 65557 bytes hold no signature
    let tail: Vec<u8> = vec![0x50; 65557];
    let (valid, reason) = classify_zip_tail(1_000_000, &tail);
    assert!(!valid);
    assert_eq!(reason.unwrap(), "Missing ZIP signature (corrupted or incomplete transfer)");
}

#[test]
fn test_accepts_signature_at_window_start() {
    let mut tail: Vec<u8> = vec![0; 65557];
    tail[0] = 0x50;
    tail[1] = 0x4b;
    tail[2] = 0x05;
    tail[3] = 0x06;
    let (valid, reason) = classify_zip_tail(1_000_000, &tail);
    assert!(valid);
    assert!(reason.is_none());
}

#[test]
fn test_accepts_signature_after_lookalikes() {
    // Look-alike byte runs before the true signature: the scan must find
    // the signature itself, not stop at near misses, and a comment may
    // follow the record
    let mut tail: Vec<u8> = Vec::new();
    for _ in 0..100 {
        tail.extend_from_slice(&[0x50, 0x4b, 0x05, 0x07]); // wrong last byte
        tail.extend_from_slice(&[0x50, 0x4b, 0x06, 0x06]);
    }
    tail.extend_from_slice(&[0x50, 0x4b, 0x05, 0x06]);
    tail.extend_from_slice(b"trailing comment bytes");
    let (valid, _) = classify_zip_tail(10_000, &tail);
    assert!(valid);
}

#[test]
fn test_minimum_size_with_signature() {
    let mut tail: Vec<u8> = vec![0; 22];
    tail[0] = 0x50;
    tail[1] = 0x4b;
    tail[2] = 0x05;
    tail[3] = 0x06;
    let (valid, _) = classify_zip_tail(22, &tail);
    assert!(valid);
}
