//! Server settings and their one-line JSON form.

use vstd::prelude::*;
use vstd::string::{StringExecFns, StringSliceAdditionalSpecFns};
use vstd::utf8::{encode_utf8, is_ascii_chars, is_ascii_chars_encode_utf8};
use crate::util::{decimal, digit_char, digits, push_char, push_decimal};

verus! {

/// Listening port, player limit and message of the day.
#[derive(Clone)]
pub struct ServerConfig {
    pub port: u16,
    pub max_players: u16,
    pub motd: String,
}

/// Default message of the day.
pub open spec fn default_motd() -> Seq<char> {
    "A Rust Minecraft Server"@
}

impl Default for ServerConfig {
    /// Port 25565, 20 players, the default message of the day.
    fn default() -> (c: Self)
        ensures
            c.port == 25565,
            c.max_players == 20,
            c.motd@ == default_motd(),
    {
        ServerConfig { port: 25565, max_players: 20, motd: String::from_str("A Rust Minecraft Server") }
    }
}

/// `{"port":P,"max_players":M,"motd":"S"}` with the message written as is.
pub open spec fn config_json(port: u16, max_players: u16, motd: Seq<char>) -> Seq<char> {
    "{\"port\":"@ + decimal(port as int) + ",\"max_players\":"@ + decimal(max_players as int)
        + ",\"motd\":\""@ + motd + "\"}"@
}

/// `data[p..p + key.len()] == key`.
pub open spec fn matches_at(data: Seq<u8>, key: Seq<u8>, p: int) -> bool {
    0 <= p && p + key.len() <= data.len() && data.subrange(p, p + key.len()) == key
}

/// First position at or after `p` where `key` occurs.
pub open spec fn find_from(data: Seq<u8>, key: Seq<u8>, p: int) -> Option<int>
    decreases data.len() + 1 - p,
{
    if p < 0 || p + key.len() > data.len() {
        None
    } else if matches_at(data, key, p) {
        Some(p)
    } else {
        find_from(data, key, p + 1)
    }
}

/// First position at or after `p` holding byte `b`.
pub open spec fn find_byte(data: Seq<u8>, b: u8, p: int) -> Option<int>
    decreases data.len() - p,
{
    if p < 0 || p >= data.len() {
        None
    } else if data[p] == b {
        Some(p)
    } else {
        find_byte(data, b, p + 1)
    }
}

/// ASCII digit byte.
pub open spec fn is_digit(b: u8) -> bool {
    48 <= b <= 57
}

/// End of the run of digits that starts at `p`.
pub open spec fn digit_end(data: Seq<u8>, p: int) -> int
    decreases data.len() - p,
{
    if p < 0 || p >= data.len() || !is_digit(data[p]) {
        p
    } else {
        digit_end(data, p + 1)
    }
}

/// Value of a string of ASCII digits.
pub open spec fn decimal_value(d: Seq<u8>) -> nat
    decreases d.len(),
{
    if d.len() == 0 {
        0
    } else {
        decimal_value(d.drop_last()) * 10 + (d.last() - 48) as nat
    }
}

/// JSON whitespace byte: space, tab, line feed or carriage return.
pub open spec fn is_space(b: u8) -> bool {
    b == 32 || b == 9 || b == 10 || b == 13
}

/// End of the run of whitespace that starts at `p`.
pub open spec fn space_end(data: Seq<u8>, p: int) -> int
    decreases data.len() - p,
{
    if p < 0 || p >= data.len() || !is_space(data[p]) {
        p
    } else {
        space_end(data, p + 1)
    }
}

/// Integer after `key`: the digits following the first ':' after the key
/// and the whitespace after it, if there is at least one digit and the
/// number fits in an `i64`.
pub open spec fn json_int(data: Seq<u8>, key: Seq<u8>) -> Option<int> {
    match find_from(data, key, 0) {
        None => None,
        Some(pos) => match find_byte(data, 58, pos + key.len()) {
            None => None,
            Some(colon) => {
                let start = space_end(data, colon + 1);
                let end = digit_end(data, start);
                let v = decimal_value(data.subrange(start, end));
                if end == start || v > i64::MAX {
                    None
                } else {
                    Some(v as int)
                }
            },
        },
    }
}

/// Text after `key`: the bytes between the first '"' after the key and the
/// next '"', each byte read as the character of the same code.
pub open spec fn json_str(data: Seq<u8>, key: Seq<u8>) -> Option<Seq<char>> {
    match find_from(data, key, 0) {
        None => None,
        Some(pos) => match find_byte(data, 34, pos + key.len()) {
            None => None,
            Some(q1) => match find_byte(data, 34, q1 + 1) {
                None => None,
                Some(q2) => Some(data.subrange(q1 + 1, q2).map_values(|b: u8| b as char)),
            },
        },
    }
}

/// `"port"` as bytes.
pub open spec fn key_port() -> Seq<u8> {
    seq![34u8, 112, 111, 114, 116, 34]
}

/// `"max_players"` as bytes.
pub open spec fn key_max_players() -> Seq<u8> {
    seq![34u8, 109, 97, 120, 95, 112, 108, 97, 121, 101, 114, 115, 34]
}

/// `"motd"` as bytes.
pub open spec fn key_motd() -> Seq<u8> {
    seq![34u8, 109, 111, 116, 100, 34]
}

fn find_key(data: &[u8], key: &[u8]) -> (r: Option<usize>)
    requires
        key@.len() > 0,
    ensures
        match r {
            Some(p) => find_from(data@, key@, 0) == Some(p as int) && p + key@.len() <= data@.len(),
            None => find_from(data@, key@, 0) is None,
        },
{
    if key.len() > data.len() {
        return None;
    }
    let n = data.len();
    let last = n - key.len();
    let mut p: usize = 0;
    while p <= last
        invariant
            n == data@.len(),
            last == data@.len() - key@.len(),
            key@.len() > 0,
            p <= last + 1,
            find_from(data@, key@, 0) == find_from(data@, key@, p as int),
        decreases last + 1 - p,
    {
        let mut k: usize = 0;
        let mut same = true;
        while k < key.len()
            invariant
                k <= key@.len(),
                n == data@.len(),
                p + key@.len() <= n,
                same == (forall|j: int| 0 <= j < k ==> data@[p + j] == key@[j]),
            decreases key@.len() - k,
        {
            if data[p + k] != key[k] {
                same = false;
            }
            k = k + 1;
        }
        if same {
            assert(data@.subrange(p as int, p + key@.len()) =~= key@);
            return Some(p);
        }
        proof {
            if matches_at(data@, key@, p as int) {
                let j = choose|j: int| 0 <= j < key@.len() && data@[p + j] != key@[j];
                assert(data@.subrange(p as int, p + key@.len())[j] == data@[p + j]);
            }
        }
        p = p + 1;
    }
    None
}

fn find_byte_exec(data: &[u8], b: u8, from: usize) -> (r: Option<usize>)
    requires
        from <= data@.len(),
    ensures
        match r {
            Some(p) => find_byte(data@, b, from as int) == Some(p as int),
            None => find_byte(data@, b, from as int) is None,
        },
{
    let mut p = from;
    while p < data.len()
        invariant
            from <= p <= data@.len(),
            find_byte(data@, b, from as int) == find_byte(data@, b, p as int),
        decreases data@.len() - p,
    {
        if data[p] == b {
            return Some(p);
        }
        p = p + 1;
    }
    None
}

fn extract_int(data: &[u8], key: &[u8]) -> (r: Option<i64>)
    requires
        key@.len() > 0,
    ensures
        match r {
            Some(v) => json_int(data@, key@) == Some(v as int),
            None => json_int(data@, key@) is None,
        },
{
    let n = data.len();
    let pos = match find_key(data, key) {
        Some(p) => p,
        None => return None,
    };
    let colon = match find_byte_exec(data, 58, pos + key.len()) {
        Some(c) => c,
        None => return None,
    };
    proof {
        lemma_find_byte_bounds(data@, 58, (pos + key@.len()) as int);
    }
    let mut start = colon + 1;
    while start < data.len() && (data[start] == 32 || data[start] == 9 || data[start] == 10 || data[start] == 13)
        invariant
            colon + 1 <= start <= data@.len(),
            colon < data@.len(),
            space_end(data@, colon + 1) == space_end(data@, start as int),
        decreases data@.len() - start,
    {
        start = start + 1;
    }
    assert(start == space_end(data@, colon + 1));
    let mut end = start;
    let mut value: u64 = 0;
    let mut overflow = false;
    let ghost dd = data@.subrange(start as int, digit_end(data@, start as int));
    proof {
        lemma_digit_end(data@, start as int);
    }
    while end < data.len() && 48 <= data[end] && data[end] <= 57
        invariant
            start <= end <= data@.len(),
            start == space_end(data@, colon + 1),
            colon < data@.len(),
            digit_end(data@, start as int) == digit_end(data@, end as int),
            start <= digit_end(data@, start as int) <= data@.len(),
            forall|i: int| start <= i < end ==> is_digit(#[trigger] data@[i]),
            dd == data@.subrange(start as int, digit_end(data@, start as int)),
            !overflow ==> value == decimal_value(data@.subrange(start as int, end as int)),
            !overflow ==> value <= i64::MAX,
            overflow ==> decimal_value(data@.subrange(start as int, end as int)) > i64::MAX,
        decreases data@.len() - end,
    {
        let d = (data[end] - 48) as u64;
        proof {
            assert(data@.subrange(start as int, end + 1).drop_last() =~= data@.subrange(start as int, end as int));
            assert(decimal_value(data@.subrange(start as int, end + 1)) == decimal_value(data@.subrange(start as int, end as int)) * 10 + d);
        }
        if !overflow {
            if value > (9223372036854775807u64 - d) / 10 {
                overflow = true;
            } else {
                value = value * 10 + d;
            }
        } else {
            proof {
                let x = decimal_value(data@.subrange(start as int, end as int));
                assert(x * 10 + d >= x);
            }
        }
        end = end + 1;
    }
    proof {
        assert(end == digit_end(data@, start as int));
        assert(dd =~= data@.subrange(start as int, end as int));
    }
    if end == start || overflow {
        None
    } else {
        Some(value as i64)
    }
}

proof fn lemma_digit_end(data: Seq<u8>, p: int)
    requires
        0 <= p <= data.len(),
    ensures
        p <= digit_end(data, p) <= data.len(),
    decreases data.len() - p,
{
    if p < data.len() && is_digit(data[p]) {
        lemma_digit_end(data, p + 1);
    }
}

fn extract_string(data: &[u8], key: &[u8]) -> (r: Option<String>)
    requires
        key@.len() > 0,
    ensures
        match r {
            Some(s) => json_str(data@, key@) == Some(s@),
            None => json_str(data@, key@) is None,
        },
{
    let n = data.len();
    let pos = match find_key(data, key) {
        Some(p) => p,
        None => return None,
    };
    let q1 = match find_byte_exec(data, 34, pos + key.len()) {
        Some(q) => q,
        None => return None,
    };
    proof {
        lemma_find_byte_bounds(data@, 34, (pos + key@.len()) as int);
    }
    let q2 = match find_byte_exec(data, 34, q1 + 1) {
        Some(q) => q,
        None => return None,
    };
    proof {
        lemma_find_byte_bounds(data@, 34, q1 + 1);
    }
    let mut s = String::new();
    let mut i = q1 + 1;
    while i < q2
        invariant
            q1 + 1 <= i <= q2 < data@.len(),
            s@ == data@.subrange(q1 + 1, i as int).map_values(|b: u8| b as char),
        decreases q2 - i,
    {
        push_char(&mut s, data[i] as char);
        assert(s@ =~= data@.subrange(q1 + 1, i + 1).map_values(|b: u8| b as char));
        i = i + 1;
    }
    Some(s)
}

proof fn lemma_find_byte_bounds(data: Seq<u8>, b: u8, p: int)
    ensures
        find_byte(data, b, p) matches Some(q) ==> p <= q < data.len(),
    decreases data.len() - p,
{
    if 0 <= p < data.len() && data[p] != b {
        lemma_find_byte_bounds(data, b, p + 1);
    }
}

impl ServerConfig {
    /// `{"port":P,"max_players":M,"motd":"S"}`.
    pub fn to_json(&self) -> (s: String)
        ensures
            s@ == config_json(self.port, self.max_players, self.motd@),
    {
        let mut s = String::from_str("{\"port\":");
        push_decimal(&mut s, self.port as i64);
        s.append(",\"max_players\":");
        push_decimal(&mut s, self.max_players as i64);
        s.append(",\"motd\":\"");
        s.append(self.motd.as_str());
        s.append("\"}");
        s
    }

    /// Reads the three settings from JSON text, each field that is missing
    /// or unreadable keeping its default. A number is taken modulo 2^16.
    pub fn from_json(s: &str) -> (c: Self)
        ensures
            c.port == match json_int(s.spec_bytes(), key_port()) {
                Some(p) => (p % 65536) as u16,
                None => 25565u16,
            },
            c.max_players == match json_int(s.spec_bytes(), key_max_players()) {
                Some(m) => (m % 65536) as u16,
                None => 20u16,
            },
            c.motd@ == match json_str(s.spec_bytes(), key_motd()) {
                Some(m) => m,
                None => default_motd(),
            },
    {
        let mut c = Self::default();
        let data = s.as_bytes();
        let kp: Vec<u8> = vec![34u8, 112, 111, 114, 116, 34];
        let km: Vec<u8> = vec![34u8, 109, 97, 120, 95, 112, 108, 97, 121, 101, 114, 115, 34];
        let kd: Vec<u8> = vec![34u8, 109, 111, 116, 100, 34];
        assert(kp@ =~= key_port());
        assert(km@ =~= key_max_players());
        assert(kd@ =~= key_motd());
        if let Some(p) = extract_int(data, kp.as_slice()) {
            c.port = (p % 65536) as u16;
        }
        if let Some(m) = extract_int(data, km.as_slice()) {
            c.max_players = (m % 65536) as u16;
        }
        if let Some(m) = extract_string(data, kd.as_slice()) {
            c.motd = m;
        }
        c
    }
}


/// ASCII text without a double quote.
pub open spec fn plain_text(m: Seq<char>) -> bool {
    forall|i: int| 0 <= i < m.len() ==> '\0' <= #[trigger] m[i] <= '\u{7f}' && m[i] != '"'
}

/// Bytes of ASCII characters, one each.
pub open spec fn ascii_bytes(cs: Seq<char>) -> Seq<u8> {
    cs.map_values(|c: char| c as u8)
}

proof fn lemma_digit_char(d: nat)
    requires
        d < 10,
    ensures
        '0' <= digit_char(d) <= '9',
        digit_char(d) as u8 == 48 + d,
{
}

proof fn lemma_digits_bytes(n: nat)
    ensures
        digits(n).len() >= 1,
        forall|i: int| 0 <= i < digits(n).len() ==> '0' <= #[trigger] digits(n)[i] <= '9',
        decimal_value(ascii_bytes(digits(n))) == n,
    decreases n,
{
    if n < 10 {
        lemma_digit_char(n);
        let s = ascii_bytes(digits(n));
        assert(s.drop_last() =~= Seq::<u8>::empty());
        assert(s.last() == digit_char(n) as u8);
        assert(decimal_value(s.drop_last()) == 0);
    } else {
        lemma_digits_bytes(n / 10);
        lemma_digit_char(n % 10);
        let p = digits(n / 10);
        assert(digits(n) == p.push(digit_char(n % 10)));
        assert(ascii_bytes(digits(n)).drop_last() =~= ascii_bytes(p));
        assert forall|i: int| 0 <= i < digits(n).len() implies '0' <= #[trigger] digits(n)[i] <= '9' by {
            if i < p.len() {
                assert(digits(n)[i] == p[i]);
            }
        }
        let s = ascii_bytes(digits(n));
        assert(s.last() == digit_char(n % 10) as u8);
        assert(decimal_value(s) == decimal_value(s.drop_last()) * 10 + (s.last() - 48) as nat);
        assert(n == (n / 10) * 10 + n % 10);
    }
}

proof fn lemma_find_from_first(data: Seq<u8>, key: Seq<u8>, p: int, q: int)
    requires
        0 <= p <= q,
        matches_at(data, key, q),
        forall|r: int| p <= r < q ==> !#[trigger] matches_at(data, key, r),
    ensures
        find_from(data, key, p) == Some(q),
    decreases q - p,
{
    if p < q {
        lemma_find_from_first(data, key, p + 1, q);
    }
}

proof fn lemma_find_byte_first(data: Seq<u8>, b: u8, p: int, q: int)
    requires
        0 <= p <= q < data.len(),
        data[q] == b,
        forall|r: int| p <= r < q ==> #[trigger] data[r] != b,
    ensures
        find_byte(data, b, p) == Some(q),
    decreases q - p,
{
    if p < q {
        lemma_find_byte_first(data, b, p + 1, q);
    }
}

proof fn lemma_digit_run(data: Seq<u8>, p: int, e: int)
    requires
        0 <= p <= e < data.len(),
        forall|i: int| p <= i < e ==> is_digit(#[trigger] data[i]),
        !is_digit(data[e]),
    ensures
        digit_end(data, p) == e,
    decreases e - p,
{
    if p < e {
        lemma_digit_run(data, p + 1, e);
    }
}

proof fn lemma_no_match(data: Seq<u8>, key: Seq<u8>, r: int, k: int)
    requires
        0 <= k < key.len(),
        0 <= r && r + key.len() <= data.len() ==> data[r + k] != key[k],
    ensures
        !matches_at(data, key, r),
{
    if matches_at(data, key, r) {
        assert(data.subrange(r, r + key.len())[k] == data[r + k]);
    }
}

/// Reading back the JSON written for a configuration gives its port, its
/// player limit and its message of the day, for a message in plain ASCII
/// without a double quote.
#[verifier::rlimit(100)]
pub proof fn config_json_roundtrip(port: u16, max_players: u16, motd: Seq<char>)
    requires
        plain_text(motd),
    ensures
        json_int(encode_utf8(config_json(port, max_players, motd)), key_port()) == Some(port as int),
        json_int(encode_utf8(config_json(port, max_players, motd)), key_max_players()) == Some(
            max_players as int,
        ),
        json_str(encode_utf8(config_json(port, max_players, motd)), key_motd()) == Some(motd),
{
    reveal_strlit("{\"port\":");
    reveal_strlit(",\"max_players\":");
    reveal_strlit(",\"motd\":\"");
    reveal_strlit("\"}");
    let a = "{\"port\":"@;
    let b = ",\"max_players\":"@;
    let c = ",\"motd\":\""@;
    let e = "\"}"@;
    lemma_digits_bytes(port as nat);
    lemma_digits_bytes(max_players as nat);
    let d1 = digits(port as nat);
    let d2 = digits(max_players as nat);
    let j = config_json(port, max_players, motd);
    assert(j =~= a + d1 + b + d2 + c + motd + e);
    let o2: int = 8 + d1.len() as int;
    let o3: int = o2 + 15;
    let o4: int = o3 + d2.len();
    let o5: int = o4 + 9;
    let o6: int = o5 + motd.len();
    assert(j.len() == o6 + 2);
    assert forall|i: int| 0 <= i < 8 implies #[trigger] j[i] == a[i] by {}
    assert forall|i: int| 8 <= i < o2 implies #[trigger] j[i] == d1[i - 8] by {}
    assert forall|i: int| o2 <= i < o3 implies #[trigger] j[i] == b[i - o2] by {}
    assert forall|i: int| o3 <= i < o4 implies #[trigger] j[i] == d2[i - o3] by {}
    assert forall|i: int| o4 <= i < o5 implies #[trigger] j[i] == c[i - o4] by {}
    assert forall|i: int| o5 <= i < o6 implies #[trigger] j[i] == motd[i - o5] by {}
    assert forall|i: int| o6 <= i < o6 + 2 implies #[trigger] j[i] == e[i - o6] by {}
    assert(is_ascii_chars(j)) by {
        assert forall|i: int| 0 <= i < j.len() implies '\0' <= #[trigger] j[i] <= '\u{7f}' by {
            if i < 8 {
            } else if i < o2 {
                assert(j[i] == d1[i - 8]);
            } else if i < o3 {
            } else if i < o4 {
                assert(j[i] == d2[i - o3]);
            } else if i < o5 {
            } else if i < o6 {
                assert(j[i] == motd[i - o5]);
            }
        }
    }
    is_ascii_chars_encode_utf8(j);
    let data = encode_utf8(j);
    assert(data.len() == j.len());
    assert forall|i: int| 0 <= i < data.len() implies #[trigger] data[i] == j[i] as u8 by {
        assert(j[i] as u8 == encode_utf8(j)[i]);
    }
    // "port": the key at 1, the colon at 7, the digits up to o2.
    assert(matches_at(data, key_port(), 1)) by {
        assert(data.subrange(1, 7) =~= key_port());
    }
    assert forall|r: int| 0 <= r < 1 implies !#[trigger] matches_at(data, key_port(), r) by {
        lemma_no_match(data, key_port(), r, 0);
    }
    lemma_find_from_first(data, key_port(), 0, 1);
    lemma_find_byte_first(data, 58, 7, 7);
    assert forall|i: int| 8 <= i < o2 implies is_digit(#[trigger] data[i]) by {
        assert(data[i] == j[i] as u8);
        assert(j[i] == d1[i - 8]);
    }
    lemma_digit_run(data, 8, o2);
    assert(data.subrange(8, o2) =~= ascii_bytes(d1)) by {
        assert forall|i: int| 0 <= i < d1.len() implies data.subrange(8, o2)[i] == #[trigger] ascii_bytes(d1)[i] by {
            assert(data[8 + i] == j[8 + i] as u8);
        }
    }
    // "max_players": the key at o2 + 1, the colon at o2 + 14, digits from o3.
    let kmp = key_max_players();
    assert(matches_at(data, kmp, o2 + 1)) by {
        assert forall|k: int| 0 <= k < 13 implies data.subrange(o2 + 1, o2 + 14)[k] == #[trigger] kmp[k] by {
            assert(data[o2 + 1 + k] == j[o2 + 1 + k] as u8);
        }
        assert(data.subrange(o2 + 1, o2 + 14) =~= kmp);
    }
    assert forall|r: int| 0 <= r < o2 + 1 implies !#[trigger] matches_at(data, kmp, r) by {
        if r == 1 || r == 6 {
            lemma_no_match(data, kmp, r, 1);
        } else {
            if 8 <= r < o2 {
                assert(j[r] == d1[r - 8]);
            }
            lemma_no_match(data, kmp, r, 0);
        }
    }
    lemma_find_from_first(data, kmp, 0, o2 + 1);
    lemma_find_byte_first(data, 58, o2 + 14, o2 + 14);
    assert forall|i: int| o3 <= i < o4 implies is_digit(#[trigger] data[i]) by {
        assert(data[i] == j[i] as u8);
        assert(j[i] == d2[i - o3]);
    }
    lemma_digit_run(data, o3, o4);
    assert(data.subrange(o3, o4) =~= ascii_bytes(d2)) by {
        assert forall|i: int| 0 <= i < d2.len() implies data.subrange(o3, o4)[i] == #[trigger] ascii_bytes(d2)[i] by {
            assert(data[o3 + i] == j[o3 + i] as u8);
        }
    }
    // "motd": the key at o4 + 1, the opening quote at o4 + 8, the closing one at o6.
    let km = key_motd();
    assert(matches_at(data, km, o4 + 1)) by {
        assert forall|k: int| 0 <= k < 6 implies data.subrange(o4 + 1, o4 + 7)[k] == #[trigger] km[k] by {
            assert(data[o4 + 1 + k] == j[o4 + 1 + k] as u8);
        }
        assert(data.subrange(o4 + 1, o4 + 7) =~= km);
    }
    assert forall|r: int| 0 <= r < o4 + 1 implies !#[trigger] matches_at(data, km, r) by {
        if r == 1 || r == 6 || r == o2 + 13 {
            lemma_no_match(data, km, r, 1);
        } else if r == o2 + 1 {
            lemma_no_match(data, km, r, 2);
        } else {
            if 8 <= r < o2 {
                assert(j[r] == d1[r - 8]);
            } else if o3 <= r < o4 {
                assert(j[r] == d2[r - o3]);
            }
            lemma_no_match(data, km, r, 0);
        }
    }
    lemma_find_from_first(data, km, 0, o4 + 1);
    lemma_find_byte_first(data, 34, o4 + 7, o4 + 8);
    assert forall|r: int| o5 <= r < o6 implies #[trigger] data[r] != 34 by {
        assert(j[r] == motd[r - o5]);
    }
    lemma_find_byte_first(data, 34, o5, o6);
    let text = data.subrange(o5, o6).map_values(|x: u8| x as char);
    assert(text =~= motd) by {
        assert forall|k: int| 0 <= k < motd.len() implies #[trigger] text[k] == motd[k] by {
            assert(data[o5 + k] == j[o5 + k] as u8);
            assert(j[o5 + k] == motd[k]);
        }
    }
}

} // verus!
