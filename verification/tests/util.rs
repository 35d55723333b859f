use ferrum::util::{face_offset, offline_uuid, push_decimal, push_digits, uuid_from_digest};

#[test]
fn offline_uuid_of_a_known_name() {
    // MD5("OfflinePlayer:Notch") stamped as version 3.
    let u = offline_uuid("Notch");
    assert_eq!(u, "b50ad385-829d-3141-a216-7e7d7539ba7f");
}

#[test]
fn uuid_layout() {
    let d: Vec<u8> = (0u8..16).map(|i| i * 17).collect();
    let u = uuid_from_digest(&d);
    assert_eq!(u.len(), 36);
    assert_eq!(u, "00112233-4455-3677-8899-aabbccddeeff");
    let d = vec![0xFFu8; 16];
    let u = uuid_from_digest(&d);
    assert_eq!(&u[14..15], "3");
    assert_eq!(&u[19..20], "b");
}

#[test]
fn uuids_differ_by_name() {
    assert_ne!(offline_uuid("Alice"), offline_uuid("Bob"));
    assert_eq!(offline_uuid("Alice"), offline_uuid("Alice"));
}

#[test]
fn decimal_text() {
    let mut s = String::new();
    push_decimal(&mut s, -1200);
    s.push(' ');
    push_decimal(&mut s, 0);
    s.push(' ');
    push_digits(&mut s, 18446744073709551615);
    s.push(' ');
    push_decimal(&mut s, i64::MIN);
    assert_eq!(s, format!("-1200 0 18446744073709551615 {}", i64::MIN));
}

#[test]
fn faces() {
    assert_eq!(face_offset(5, 64, 5, 0), (5, 63, 5));
    assert_eq!(face_offset(5, 64, 5, 1), (5, 65, 5));
    assert_eq!(face_offset(5, 64, 5, 2), (5, 64, 4));
    assert_eq!(face_offset(5, 64, 5, 3), (5, 64, 6));
    assert_eq!(face_offset(5, 64, 5, 4), (4, 64, 5));
    assert_eq!(face_offset(5, 64, 5, 5), (6, 64, 5));
    assert_eq!(face_offset(5, 64, 5, 9), (5, 64, 5));
}
