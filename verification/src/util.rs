//! Small helpers: face offsets, text building and the offline-mode UUID.

use vstd::prelude::*;
use vstd::string::{StringExecFns, StringSliceAdditionalSpecFns};

verus! {

/// Appends one character to a string (`String::push`, which the standard
/// library documents as appending the char to the end).
#[verifier::external_body]
pub(crate) fn push_char(s: &mut String, c: char)
    ensures
        final(s)@ == old(s)@.push(c),
{
    s.push(c);
}

/// Decimal digit character for `d` in 0..10.
pub open spec fn digit_char(d: nat) -> char {
    if d == 0 {
        '0'
    } else if d == 1 {
        '1'
    } else if d == 2 {
        '2'
    } else if d == 3 {
        '3'
    } else if d == 4 {
        '4'
    } else if d == 5 {
        '5'
    } else if d == 6 {
        '6'
    } else if d == 7 {
        '7'
    } else if d == 8 {
        '8'
    } else {
        '9'
    }
}

/// Decimal digits of a natural number, most significant first, no leading
/// zero.
pub open spec fn digits(n: nat) -> Seq<char>
    decreases n,
{
    if n < 10 {
        seq![digit_char(n)]
    } else {
        digits(n / 10).push(digit_char(n % 10))
    }
}

/// Decimal text of an integer, with a leading '-' when negative.
pub open spec fn decimal(v: int) -> Seq<char> {
    if v < 0 {
        seq!['-'] + digits((-v) as nat)
    } else {
        digits(v as nat)
    }
}

fn digit_of(d: u64) -> (c: char)
    requires
        d < 10,
    ensures
        c == digit_char(d as nat),
{
    match d {
        0 => '0',
        1 => '1',
        2 => '2',
        3 => '3',
        4 => '4',
        5 => '5',
        6 => '6',
        7 => '7',
        8 => '8',
        _ => '9',
    }
}

/// Appends the decimal digits of `n`.
pub fn push_digits(s: &mut String, n: u64)
    ensures
        final(s)@ == old(s)@ + digits(n as nat),
    decreases n,
{
    if n < 10 {
        push_char(s, digit_of(n));
        assert(digits(n as nat) == seq![digit_char(n as nat)]);
    } else {
        push_digits(s, n / 10);
        push_char(s, digit_of(n % 10));
        assert(old(s)@ + digits(n as nat) =~= old(s)@ + digits((n / 10) as nat) + seq![
            digit_char((n % 10) as nat),
        ]);
    }
}

/// Appends the decimal text of `v` (as `{}` formatting writes it).
pub fn push_decimal(s: &mut String, v: i64)
    ensures
        final(s)@ == old(s)@ + decimal(v as int),
{
    if v < 0 {
        push_char(s, '-');
        let magnitude: u64 = ((-(v + 1)) as u64) + 1;
        push_digits(s, magnitude);
        assert(final(s)@ =~= old(s)@ + decimal(v as int));
    } else {
        push_digits(s, v as u64);
    }
}

/// x step across a face.
pub open spec fn face_dx(face: u8) -> int {
    if face == 4 {
        -1
    } else if face == 5 {
        1
    } else {
        0
    }
}

/// y step across a face.
pub open spec fn face_dy(face: u8) -> int {
    if face == 0 {
        -1
    } else if face == 1 {
        1
    } else {
        0
    }
}

/// z step across a face.
pub open spec fn face_dz(face: u8) -> int {
    if face == 2 {
        -1
    } else if face == 3 {
        1
    } else {
        0
    }
}

/// Block position next to (x, y, z) across `face` (0: below, 1: above,
/// 2: -z, 3: +z, 4: -x, 5: +x; any other face: the same block).
pub fn face_offset(x: i32, y: u8, z: i32, face: u8) -> (r: (i32, i32, i32))
    requires
        face == 2 ==> z > i32::MIN,
        face == 3 ==> z < i32::MAX,
        face == 4 ==> x > i32::MIN,
        face == 5 ==> x < i32::MAX,
    ensures
        r.0 == x + face_dx(face),
        r.1 == y + face_dy(face),
        r.2 == z + face_dz(face),
{
    match face {
        0 => (x, y as i32 - 1, z),
        1 => (x, y as i32 + 1, z),
        2 => (x, y as i32, z - 1),
        3 => (x, y as i32, z + 1),
        4 => (x - 1, y as i32, z),
        5 => (x + 1, y as i32, z),
        _ => (x, y as i32, z),
    }
}

/// MD5 digest of `data` as computed by the `md-5` crate.
pub uninterp spec fn md5_of(data: Seq<u8>) -> Seq<u8>;

/// Runs the `md-5` crate's `Md5` hasher over `data` (`new`, `update`,
/// `finalize`). The digest is named by `md5_of`; its size is the crate's
/// `OutputSize`, 16 bytes.
#[verifier::external_body]
fn md5_digest(data: &[u8]) -> (d: Vec<u8>)
    ensures
        d@ == md5_of(data@),
        d@.len() == 16,
{
    let mut hasher = <md5::Md5 as md5::Digest>::new();
    md5::Digest::update(&mut hasher, data);
    md5::Digest::finalize(hasher).to_vec()
}

/// Lowercase hexadecimal digit for `d` in 0..16.
pub open spec fn hex_char(d: nat) -> char {
    if d < 10 {
        digit_char(d)
    } else if d == 10 {
        'a'
    } else if d == 11 {
        'b'
    } else if d == 12 {
        'c'
    } else if d == 13 {
        'd'
    } else if d == 14 {
        'e'
    } else {
        'f'
    }
}

fn hex_of(d: u8) -> (c: char)
    requires
        d < 16,
    ensures
        c == hex_char(d as nat),
{
    if d < 10 {
        digit_of(d as u64)
    } else {
        match d {
            10 => 'a',
            11 => 'b',
            12 => 'c',
            13 => 'd',
            14 => 'e',
            _ => 'f',
        }
    }
}

/// Byte `i` of a digest after stamping version 3 (byte 6) and the RFC 4122
/// variant (byte 8).
pub open spec fn uuid_byte(d: Seq<u8>, i: int) -> u8 {
    if i == 6 {
        (d[6] % 16 + 0x30) as u8
    } else if i == 8 {
        (d[8] % 64 + 0x80) as u8
    } else {
        d[i]
    }
}

/// Two lowercase hex digits of a byte.
pub open spec fn hex_pair(b: u8) -> Seq<char> {
    seq![hex_char((b / 16) as nat), hex_char((b % 16) as nat)]
}

/// Hex text of bytes `from..to` of the stamped digest.
pub open spec fn uuid_hex(d: Seq<u8>, from: int, to: int) -> Seq<char>
    decreases to - from,
{
    if to <= from {
        Seq::<char>::empty()
    } else {
        uuid_hex(d, from, to - 1) + hex_pair(uuid_byte(d, to - 1))
    }
}

/// Canonical 8-4-4-4-12 text of a version-3 UUID built from a 16-byte digest.
pub open spec fn uuid_text(d: Seq<u8>) -> Seq<char> {
    uuid_hex(d, 0, 4) + seq!['-'] + uuid_hex(d, 4, 6) + seq!['-'] + uuid_hex(d, 6, 8) + seq!['-']
        + uuid_hex(d, 8, 10) + seq!['-'] + uuid_hex(d, 10, 16)
}

fn push_hex_range(s: &mut String, d: &[u8], from: usize, to: usize)
    requires
        d@.len() == 16,
        from <= to <= 16,
    ensures
        final(s)@ == old(s)@ + uuid_hex(d@, from as int, to as int),
{
    let mut i = from;
    while i < to
        invariant
            from <= i <= to <= 16,
            d@.len() == 16,
            s@ == old(s)@ + uuid_hex(d@, from as int, i as int),
        decreases to - i,
    {
        let b: u8 = if i == 6 {
            d[6] % 16 + 0x30
        } else if i == 8 {
            d[8] % 64 + 0x80
        } else {
            d[i]
        };
        push_char(s, hex_of(b / 16));
        push_char(s, hex_of(b % 16));
        assert(uuid_hex(d@, from as int, (i + 1) as int) == uuid_hex(d@, from as int, i as int)
            + hex_pair(uuid_byte(d@, i as int)));
        assert(s@ =~= old(s)@ + uuid_hex(d@, from as int, (i + 1) as int));
        i = i + 1;
    }
}

/// UUID text (version 3, RFC 4122 variant) of a 16-byte MD5 digest.
pub fn uuid_from_digest(d: &[u8]) -> (s: String)
    requires
        d@.len() == 16,
    ensures
        s@ == uuid_text(d@),
{
    let mut s = String::new();
    push_hex_range(&mut s, d, 0, 4);
    push_char(&mut s, '-');
    push_hex_range(&mut s, d, 4, 6);
    push_char(&mut s, '-');
    push_hex_range(&mut s, d, 6, 8);
    push_char(&mut s, '-');
    push_hex_range(&mut s, d, 8, 10);
    push_char(&mut s, '-');
    push_hex_range(&mut s, d, 10, 16);
    assert(s@ =~= uuid_text(d@));
    s
}

proof fn lemma_uuid_hex_len(d: Seq<u8>, from: int, to: int)
    requires
        from <= to,
    ensures
        uuid_hex(d, from, to).len() == 2 * (to - from),
    decreases to - from,
{
    if from < to {
        lemma_uuid_hex_len(d, from, to - 1);
    }
}

/// A UUID built from a digest has the 8-4-4-4-12 layout, version 3 (the
/// first digit of the third group) and the RFC 4122 variant (the first digit
/// of the fourth group is 8, 9, a or b), whatever the digest.
pub proof fn uuid_is_version3(d: Seq<u8>)
    requires
        d.len() == 16,
    ensures
        uuid_text(d).len() == 36,
        uuid_text(d)[8] == '-' && uuid_text(d)[13] == '-' && uuid_text(d)[18] == '-' && uuid_text(d)[23] == '-',
        uuid_text(d)[14] == '3',
        uuid_text(d)[19] == '8' || uuid_text(d)[19] == '9' || uuid_text(d)[19] == 'a' || uuid_text(d)[19] == 'b',
{
    lemma_uuid_hex_len(d, 0, 4);
    lemma_uuid_hex_len(d, 4, 6);
    lemma_uuid_hex_len(d, 6, 8);
    lemma_uuid_hex_len(d, 8, 10);
    lemma_uuid_hex_len(d, 10, 16);
    reveal_with_fuel(uuid_hex, 3);
    let g3 = uuid_hex(d, 6, 8);
    let g4 = uuid_hex(d, 8, 10);
    assert(g3[0] == hex_char((uuid_byte(d, 6) / 16) as nat));
    assert(g4[0] == hex_char((uuid_byte(d, 8) / 16) as nat));
    assert(uuid_byte(d, 6) / 16 == 3);
    assert(8 <= uuid_byte(d, 8) / 16 <= 11);
    assert(uuid_text(d)[14] == g3[0]);
    assert(uuid_text(d)[19] == g4[0]);
}

/// Bytes hashed for an offline-mode UUID: "OfflinePlayer:" then the name.
pub open spec fn offline_seed(username: Seq<u8>) -> Seq<u8> {
    seq![79u8, 102, 102, 108, 105, 110, 101, 80, 108, 97, 121, 101, 114, 58] + username
}

/// Offline-mode UUID of a player name: the MD5 of "OfflinePlayer:<name>",
/// stamped as a version-3 UUID.
pub fn offline_uuid(username: &str) -> (s: String)
    ensures
        s@ == uuid_text(md5_of(offline_seed(username.spec_bytes()))),
{
    let mut data: Vec<u8> = vec![79u8, 102, 102, 108, 105, 110, 101, 80, 108, 97, 121, 101, 114, 58];
    data.extend_from_slice(username.as_bytes());
    assert(data@ =~= offline_seed(username.spec_bytes()));
    let digest = md5_digest(data.as_slice());
    uuid_from_digest(digest.as_slice())
}

} // verus!
