use vstd::prelude::*;
use vstd::utf8::{decode_utf8, encode_utf8, valid_utf8};
use crate::net::writing::{
    i32_bits, i32_from_bits, string_bytes, varint_bytes, lemma_varint_bytes_len,
};

verus! {

/// Number of bytes a VarInt reader takes from `s`: up to and including the
/// first byte without the continuation bit, or `s.len() + 1` when every byte
/// of `s` carries it.
pub open spec fn varint_len(s: Seq<u8>) -> nat
    decreases s.len(),
{
    if s.len() == 0 {
        1
    } else if s[0] < 128 {
        1
    } else {
        1 + varint_len(s.drop_first())
    }
}

/// Number assembled from the 7-bit groups of the VarInt at the start of `s`.
pub open spec fn varint_num(s: Seq<u8>) -> nat
    decreases s.len(),
{
    if s.len() == 0 {
        0
    } else if s[0] < 128 {
        s[0] as nat
    } else {
        (s[0] - 128) as nat + 128 * varint_num(s.drop_first())
    }
}

/// A VarInt that the reader accepts: terminated within `s` and at most five
/// bytes long (a sixth byte would shift past 32 bits).
pub open spec fn varint_readable(s: Seq<u8>) -> bool {
    varint_len(s) <= 5 && varint_len(s) <= s.len()
}

/// Value a VarInt reader returns for the bytes `s`.
pub open spec fn varint_value(s: Seq<u8>) -> int {
    i32_from_bits(varint_num(s))
}

/// Big-endian unsigned value of `n` bytes of `s` starting at `i`.
pub open spec fn be_num(s: Seq<u8>, i: int, n: nat) -> nat
    decreases n,
{
    if n == 0 {
        0
    } else {
        be_num(s, i, (n - 1) as nat) * 256 + s[i + n - 1] as nat
    }
}

/// The signed value of an `bits`-bit two's-complement pattern `x`.
pub open spec fn signed_from_bits(x: nat, modulus: nat) -> int {
    let r = x % modulus;
    if r < modulus / 2 {
        r as int
    } else {
        r - modulus
    }
}

/// Text decoded by `String::from_utf8_lossy` from `bytes`.
pub uninterp spec fn lossy_utf8(bytes: Seq<u8>) -> Seq<char>;

/// Calls `String::from_utf8_lossy` and takes ownership of its result.
/// Its documentation says that it returns the decoded text unchanged when
/// the bytes are valid UTF-8; for invalid input (where it substitutes
/// U+FFFD) only the name `lossy_utf8` is claimed.
#[verifier::external_body]
fn utf8_lossy(bytes: &[u8]) -> (s: String)
    ensures
        s@ == lossy_utf8(bytes@),
        valid_utf8(bytes@) ==> s@ == decode_utf8(bytes@),
{
    String::from_utf8_lossy(bytes).into_owned()
}

proof fn lemma_varint_step(s: Seq<u8>, k: int)
    requires
        0 <= k < s.len(),
    ensures
        s.skip(k)[0] == s[k],
        s.skip(k).drop_first() == s.skip(k + 1),
        s[k] < 128 ==> varint_num(s.skip(k)) == s[k] as nat && varint_len(s.skip(k)) == 1,
        s[k] >= 128 ==> varint_num(s.skip(k)) == (s[k] - 128) as nat + 128 * varint_num(
            s.skip(k + 1),
        ) && varint_len(s.skip(k)) == 1 + varint_len(s.skip(k + 1)),
{
    assert(s.skip(k).drop_first() =~= s.skip(k + 1));
}

/// Reads a VarInt at `*idx` and advances `*idx` past it.
pub fn read_varint_buf(buf: &[u8], idx: &mut usize) -> (value: i32)
    requires
        *old(idx) <= buf@.len(),
        varint_readable(buf@.skip(*old(idx) as int)),
    ensures
        *final(idx) == *old(idx) + varint_len(buf@.skip(*old(idx) as int)),
        value == varint_value(buf@.skip(*old(idx) as int)),
{
    let ghost s = buf@.skip(*idx as int);
    let ghost start = *idx;
    let mut acc: u64 = 0;
    let mut pow: u64 = 1;
    let mut k: usize = 0;
    assert(s.skip(0) =~= s);
    loop
        invariant_except_break
            k < varint_len(s),
            k < 5,
            *idx == start + k,
            s == buf@.skip(start as int),
            start + varint_len(s) <= buf@.len(),
            varint_len(s) <= 5,
            pow == (if k == 0 {
                1u64
            } else if k == 1 {
                128u64
            } else if k == 2 {
                16384u64
            } else if k == 3 {
                2097152u64
            } else {
                268435456u64
            }),
            acc < pow,
            acc + pow * varint_num(s.skip(k as int)) == varint_num(s),
            varint_len(s) == k + varint_len(s.skip(k as int)),
        ensures
            *idx == start + varint_len(s),
            acc == varint_num(s),
            acc < 0x8_0000_0000,
        decreases 5 - k,
    {
        proof {
            lemma_varint_step(s, k as int);
        }
        let byte = buf[*idx];
        *idx = *idx + 1;
        if byte < 128 {
            assert(pow * (byte as u64) <= 268435456 * 127) by (nonlinear_arith)
                requires
                    pow <= 268435456u64,
                    byte < 128,
            ;
            acc = acc + pow * (byte as u64);
            break;
        }
        let digit: u64 = (byte - 128) as u64;
        let ghost rest = varint_num(s.skip(k + 1));
        assert(acc + pow * varint_num(s.skip(k as int)) == (acc + pow * digit) + (pow * 128)
            * rest) by (nonlinear_arith)
            requires
                varint_num(s.skip(k as int)) == digit + 128 * rest,
        ;
        assert(acc + pow * digit < pow * 128) by (nonlinear_arith)
            requires
                acc < pow,
                digit < 128,
        ;
        acc = acc + pow * digit;
        assert(k < 4) by {
            assert(varint_len(s.skip(k + 1)) >= 1) by {
                lemma_varint_len_pos(s.skip(k + 1));
            }
        }
        pow = pow * 128;
        k = k + 1;
    }
    let low: u32 = (acc % 0x1_0000_0000) as u32;
    u32_to_i32(low)
}

proof fn lemma_varint_len_pos(s: Seq<u8>)
    ensures
        varint_len(s) >= 1,
    decreases s.len(),
{
    if s.len() > 0 && s[0] >= 128 {
        lemma_varint_len_pos(s.drop_first());
    }
}

/// The signed value with bit pattern `u`.
pub fn u32_to_i32(u: u32) -> (v: i32)
    ensures
        v == i32_from_bits(u as nat),
{
    if u < 0x8000_0000 {
        u as i32
    } else {
        ((u - 0x8000_0000) as i32) + i32::MIN
    }
}

/// Reads a protocol string (VarInt byte length, then that many bytes decoded
/// leniently as UTF-8) and advances `*idx` past it.
pub fn read_string_buf(buf: &[u8], idx: &mut usize) -> (s: String)
    requires
        *old(idx) <= buf@.len(),
        varint_readable(buf@.skip(*old(idx) as int)),
        varint_value(buf@.skip(*old(idx) as int)) >= 0,
        *old(idx) + varint_len(buf@.skip(*old(idx) as int)) + varint_value(
            buf@.skip(*old(idx) as int),
        ) <= buf@.len(),
    ensures
        ({
            let start = *old(idx) + varint_len(buf@.skip(*old(idx) as int));
            let n = varint_value(buf@.skip(*old(idx) as int));
            &&& *final(idx) == start + n
            &&& s@ == lossy_utf8(buf@.subrange(start as int, start + n))
            &&& valid_utf8(buf@.subrange(start as int, start + n)) ==> s@ == decode_utf8(
                buf@.subrange(start as int, start + n),
            )
        }),
{
    let total = buf.len();
    let v = read_varint_buf(buf, idx);
    let length = v as usize;
    assert(*idx + length <= total);
    let end = *idx + length;
    let s = utf8_lossy(slice_range(buf, *idx, end));
    *idx = end;
    s
}

/// `buf[from..to]`.
fn slice_range(buf: &[u8], from: usize, to: usize) -> (out: &[u8])
    requires
        from <= to <= buf@.len(),
    ensures
        out@ == buf@.subrange(from as int, to as int),
{
    &buf[from..to]
}

/// Reads a big-endian `i32` and advances `*idx` by four.
pub fn read_i32_buf(buf: &[u8], idx: &mut usize) -> (v: i32)
    requires
        *old(idx) + 4 <= buf@.len(),
    ensures
        *final(idx) == *old(idx) + 4,
        v == i32_from_bits(be_num(buf@, *old(idx) as int, 4)),
{
    let i = *idx;
    let x: u32 = (buf[i] as u32) * 16777216 + (buf[i + 1] as u32) * 65536 + (buf[i + 2] as u32)
        * 256 + (buf[i + 3] as u32);
    proof {
        reveal_with_fuel(be_num, 5);
    }
    *idx = i + 4;
    u32_to_i32(x)
}

/// Reads a big-endian `i64` and advances `*idx` by eight.
pub fn read_i64_buf(buf: &[u8], idx: &mut usize) -> (v: i64)
    requires
        *old(idx) + 8 <= buf@.len(),
    ensures
        *final(idx) == *old(idx) + 8,
        v == signed_from_bits(be_num(buf@, *old(idx) as int, 8), 0x1_0000_0000_0000_0000),
{
    let i = *idx;
    let mut x: u64 = 0;
    let mut k: usize = 0;
    while k < 8
        invariant
            k <= 8,
            i + 8 <= buf.len(),
            x as nat == be_num(buf@, i as int, k as nat),
            x < pow256(k as nat),
        decreases 8 - k,
    {
        proof {
            reveal_with_fuel(pow256, 9);
        }
        assert(x * 256 + buf[(i + k) as int] < pow256((k + 1) as nat)) by (nonlinear_arith)
            requires
                x < pow256(k as nat),
                pow256((k + 1) as nat) == 256 * pow256(k as nat),
                buf[(i + k) as int] < 256,
        ;
        x = x * 256 + buf[i + k] as u64;
        k = k + 1;
    }
    *idx = i + 8;
    if x < 0x8000_0000_0000_0000 {
        x as i64
    } else {
        ((x - 0x8000_0000_0000_0000) as i64) + i64::MIN
    }
}

/// 256 to the power `k`.
pub open spec fn pow256(k: nat) -> nat
    decreases k,
{
    if k == 0 {
        1
    } else {
        256 * pow256((k - 1) as nat)
    }
}

/// Reads one byte and advances `*idx` by one.
pub fn read_u8_buf(buf: &[u8], idx: &mut usize) -> (v: u8)
    requires
        *old(idx) < buf@.len(),
    ensures
        *final(idx) == *old(idx) + 1,
        v == buf@[*old(idx) as int],
{
    let v = buf[*idx];
    *idx = *idx + 1;
    v
}

/// The signed value of a big-endian 16-bit pattern.
pub open spec fn be_i16(b0: u8, b1: u8) -> int {
    signed_from_bits(b0 as nat * 256 + b1 as nat, 0x1_0000)
}

fn i16_of(b0: u8, b1: u8) -> (v: i16)
    ensures
        v == be_i16(b0, b1),
{
    let x: u16 = (b0 as u16) * 256 + b1 as u16;
    if x < 0x8000 {
        x as i16
    } else {
        ((x - 0x8000) as i16) + i16::MIN
    }
}

/// Reads a big-endian `i16` and advances `*idx` by two.
pub fn read_i16_buf(buf: &[u8], idx: &mut usize) -> (v: i16)
    requires
        *old(idx) + 2 <= buf@.len(),
    ensures
        *final(idx) == *old(idx) + 2,
        v == be_i16(buf@[*old(idx) as int], buf@[*old(idx) + 1]),
{
    let v = i16_of(buf[*idx], buf[*idx + 1]);
    *idx = *idx + 2;
    v
}

/// Bytes that `read_slot_full` consumes for a slot starting at `i`: the
/// item id, and for a present item its count, damage, NBT length and NBT.
pub open spec fn slot_len(s: Seq<u8>, i: int) -> int {
    let id = be_i16(s[i], s[i + 1]);
    if id < 0 {
        2
    } else {
        let nbt = be_i16(s[i + 5], s[i + 6]);
        7 + if nbt > 0 {
            nbt
        } else {
            0
        }
    }
}

/// A slot header that lies inside the buffer (the NBT payload itself is
/// skipped without being read).
pub open spec fn slot_readable(s: Seq<u8>, i: int) -> bool {
    &&& 0 <= i
    &&& i + 2 <= s.len()
    &&& be_i16(s[i], s[i + 1]) >= 0 ==> i + 7 <= s.len() && i + slot_len(s, i) <= usize::MAX
}

/// Reads an inventory slot: returns (item id, count) and skips the damage
/// and NBT data. An empty slot (negative id) has count 1 and no more bytes.
pub fn read_slot_full(buf: &[u8], idx: &mut usize) -> (r: (i16, u8))
    requires
        slot_readable(buf@, *old(idx) as int),
    ensures
        r.0 == be_i16(buf@[*old(idx) as int], buf@[*old(idx) + 1]),
        r.0 < 0 ==> r.1 == 1,
        r.0 >= 0 ==> r.1 == buf@[*old(idx) + 2],
        *final(idx) == *old(idx) + slot_len(buf@, *old(idx) as int),
{
    let item_id = i16_of(buf[*idx], buf[*idx + 1]);
    *idx = *idx + 2;
    let mut count: u8 = 1;
    if item_id >= 0 {
        count = buf[*idx];
        *idx = *idx + 1;
        *idx = *idx + 2;
        let nbt_len = i16_of(buf[*idx], buf[*idx + 1]);
        *idx = *idx + 2;
        if nbt_len > 0 {
            *idx = *idx + nbt_len as usize;
        }
    }
    (item_id, count)
}

/// Reads an inventory slot and returns only its item id.
pub fn read_slot(buf: &[u8], idx: &mut usize) -> (id: i16)
    requires
        slot_readable(buf@, *old(idx) as int),
    ensures
        id == be_i16(buf@[*old(idx) as int], buf@[*old(idx) + 1]),
        *final(idx) == *old(idx) + slot_len(buf@, *old(idx) as int),
{
    read_slot_full(buf, idx).0
}

/// Whether a VarInt that `read_varint_buf` accepts starts at `idx`.
pub fn varint_ready(buf: &[u8], idx: usize) -> (r: bool)
    ensures
        r == (idx <= buf@.len() && varint_readable(buf@.skip(idx as int))),
{
    if idx > buf.len() {
        return false;
    }
    let ghost s = buf@.skip(idx as int);
    assert(s.skip(0) =~= s);
    let mut k: usize = 0;
    while k < 5
        invariant
            idx <= buf@.len(),
            s == buf@.skip(idx as int),
            k <= 5,
            k <= s.len(),
            varint_len(s) == k + varint_len(s.skip(k as int)),
        decreases 5 - k,
    {
        if k >= buf.len() - idx {
            assert(s.skip(k as int).len() == 0);
            return false;
        }
        proof {
            lemma_varint_step(s, k as int);
            assert(s[k as int] == buf@[idx + k]);
        }
        if buf[idx + k] < 128 {
            return true;
        }
        assert(s.skip(k as int).drop_first() =~= s.skip(k + 1));
        k = k + 1;
    }
    false
}

/// Whether a string that `read_string_buf` accepts starts at `idx`: a
/// readable, non-negative length that the buffer holds in full.
pub fn string_ready(buf: &[u8], idx: usize) -> (r: bool)
    ensures
        r == (idx <= buf@.len() && varint_readable(buf@.skip(idx as int)) && varint_value(
            buf@.skip(idx as int),
        ) >= 0 && idx + varint_len(buf@.skip(idx as int)) + varint_value(buf@.skip(idx as int))
            <= buf@.len()),
{
    if !varint_ready(buf, idx) {
        return false;
    }
    let mut j = idx;
    let v = read_varint_buf(buf, &mut j);
    v >= 0 && (v as usize) <= buf.len() - j
}

/// Whether a slot that `read_slot_full` accepts starts at `idx`.
pub fn slot_ready(buf: &[u8], idx: usize) -> (r: bool)
    ensures
        r == slot_readable(buf@, idx as int),
{
    if buf.len() < 2 || idx > buf.len() - 2 {
        return false;
    }
    let id = i16_of(buf[idx], buf[idx + 1]);
    if id < 0 {
        return true;
    }
    if buf.len() < 7 || idx > buf.len() - 7 {
        return false;
    }
    let nbt = i16_of(buf[idx + 5], buf[idx + 6]);
    let extra: usize = if nbt > 0 {
        nbt as usize
    } else {
        0
    };
    idx <= usize::MAX - 7 - extra
}

proof fn lemma_varint_decode(u: nat, rest: Seq<u8>)
    ensures
        varint_len(varint_bytes(u) + rest) == varint_bytes(u).len(),
        varint_num(varint_bytes(u) + rest) == u,
    decreases u,
{
    let t = varint_bytes(u) + rest;
    if u < 128 {
        assert(t[0] == u as u8);
    } else {
        lemma_varint_decode(u / 128, rest);
        assert(t[0] == (u % 128 + 128) as u8);
        assert(t.drop_first() =~= varint_bytes(u / 128) + rest);
    }
}

/// Reading back a written VarInt: whatever bytes follow it, the reader
/// consumes exactly the encoding of `v` and returns `v`.
pub proof fn varint_roundtrip(v: i32, rest: Seq<u8>)
    ensures
        varint_readable(varint_bytes(i32_bits(v)) + rest),
        varint_len(varint_bytes(i32_bits(v)) + rest) == varint_bytes(i32_bits(v)).len(),
        varint_value(varint_bytes(i32_bits(v)) + rest) == v,
{
    lemma_varint_decode(i32_bits(v), rest);
    lemma_varint_bytes_len(i32_bits(v));
}

/// Reading back a written string: for text of fewer than 2^31 bytes, the
/// reader returns the same text and consumes exactly its encoding.
pub proof fn string_roundtrip(s: Seq<char>, rest: Seq<u8>)
    requires
        encode_utf8(s).len() < 0x8000_0000,
    ensures
        ({
            let t = string_bytes(s) + rest;
            let hdr = varint_len(t);
            &&& varint_readable(t)
            &&& varint_value(t) == encode_utf8(s).len()
            &&& hdr + varint_value(t) <= t.len()
            &&& hdr + varint_value(t) == string_bytes(s).len()
            &&& valid_utf8(t.subrange(hdr as int, hdr + varint_value(t)))
            &&& decode_utf8(t.subrange(hdr as int, hdr + varint_value(t))) == s
        }),
{
    let n = encode_utf8(s).len();
    let b = encode_utf8(s);
    let t = string_bytes(s) + rest;
    assert(t =~= varint_bytes(n) + (b + rest));
    lemma_varint_decode(n, b + rest);
    lemma_varint_bytes_len(n);
    let hdr = varint_bytes(n).len();
    assert(t.subrange(hdr as int, (hdr + n) as int) =~= b);
    vstd::utf8::encode_utf8_valid_utf8(s);
    vstd::utf8::encode_utf8_decode_utf8(s);
}

} // verus!
