use vstd::prelude::*;
use vstd::utf8::encode_utf8;

verus! {

/// Two's-complement bit pattern of a signed 32-bit value, as a natural
/// number below 2^32.
pub open spec fn i32_bits(v: i32) -> nat {
    if v >= 0 {
        v as nat
    } else {
        (v + 0x1_0000_0000) as nat
    }
}

/// The signed 32-bit value whose bit pattern is `x` modulo 2^32.
pub open spec fn i32_from_bits(x: nat) -> int {
    let r = x % 0x1_0000_0000;
    if r < 0x8000_0000 {
        r as int
    } else {
        r - 0x1_0000_0000
    }
}

/// VarInt encoding of an unsigned number: groups of 7 bits, lowest group
/// first, with the high bit set on every byte except the last one.
pub open spec fn varint_bytes(u: nat) -> Seq<u8>
    decreases u,
{
    if u < 128 {
        seq![u as u8]
    } else {
        seq![(u % 128 + 128) as u8] + varint_bytes(u / 128)
    }
}

/// Protocol string: VarInt byte length (taken modulo 2^32, as the cast to
/// `i32` does) followed by the UTF-8 bytes.
pub open spec fn string_bytes(s: Seq<char>) -> Seq<u8> {
    varint_bytes(encode_utf8(s).len() % 0x1_0000_0000) + encode_utf8(s)
}

/// A framed packet: VarInt length of (VarInt id + body), then the id, then
/// the body.
pub open spec fn packet_bytes(id: i32, body: Seq<u8>) -> Seq<u8> {
    let corps = varint_bytes(i32_bits(id)) + body;
    varint_bytes(corps.len() % 0x1_0000_0000) + corps
}

/// Bit pattern of `v` as an unsigned 32-bit number.
pub fn i32_to_u32_bits(v: i32) -> (u: u32)
    ensures
        u as nat == i32_bits(v),
{
    if v >= 0 {
        v as u32
    } else {
        ((v + 0x7fff_ffff + 1) as u32) + 0x8000_0000
    }
}

/// VarInt encoding of an unsigned 32-bit number.
pub fn write_varint_u32(u: u32) -> (out: Vec<u8>)
    ensures
        out@ == varint_bytes(u as nat),
        out@.len() <= 5,
{
    proof {
        lemma_varint_bytes_len(u as nat);
    }
    let mut out: Vec<u8> = Vec::new();
    let mut rest: u32 = u;
    loop
        invariant_except_break
            out@ + varint_bytes(rest as nat) == varint_bytes(u as nat),
        ensures
            out@ == varint_bytes(u as nat),
        decreases rest,
    {
        if rest < 128 {
            let ghost before = out@;
            out.push(rest as u8);
            assert(varint_bytes(rest as nat) == seq![rest as u8]);
            assert(out@ =~= before + varint_bytes(rest as nat));
            break;
        }
        let byte: u8 = (rest % 128 + 128) as u8;
        assert(varint_bytes(rest as nat) == seq![byte] + varint_bytes((rest / 128) as nat));
        out.push(byte);
        assert(out@ + varint_bytes((rest / 128) as nat) =~= (out@.drop_last() + seq![byte])
            + varint_bytes((rest / 128) as nat));
        rest = rest / 128;
    }
    out
}

/// VarInt encoding of `value` (its two's-complement bit pattern, so a
/// negative value always takes five bytes).
pub fn write_varint(value: i32) -> (out: Vec<u8>)
    ensures
        out@ == varint_bytes(i32_bits(value)),
        1 <= out@.len() <= 5,
{
    write_varint_u32(i32_to_u32_bits(value))
}

/// A length prefix: the value is cast to `i32`, so it is taken modulo 2^32.
fn write_len_varint(len: usize) -> (out: Vec<u8>)
    ensures
        out@ == varint_bytes(len as nat % 0x1_0000_0000),
{
    let l = len as u64;
    let low: u32 = (l % 0x1_0000_0000) as u32;
    write_varint_u32(low)
}

/// Protocol string: VarInt byte length, then the UTF-8 bytes.
pub fn write_string(s: &str) -> (out: Vec<u8>)
    ensures
        out@ == string_bytes(s@),
{
    let bytes = s.as_bytes();
    let mut result = write_len_varint(bytes.len());
    result.extend_from_slice(bytes);
    result
}

/// Frames `content` as packet `id`; `content` is drained into the result.
pub fn build_packet(id: i32, content: &mut Vec<u8>) -> (packet: Vec<u8>)
    ensures
        packet@ == packet_bytes(id, old(content)@),
        final(content)@ == Seq::<u8>::empty(),
{
    let mut corps = write_varint(id);
    corps.append(content);
    let mut packet = write_len_varint(corps.len());
    packet.append(&mut corps);
    packet
}

/// 128 to the power `k`.
pub open spec fn pow128(k: nat) -> nat
    decreases k,
{
    if k == 0 {
        1
    } else {
        128 * pow128((k - 1) as nat)
    }
}

proof fn lemma_varint_bytes_len_k(u: nat, k: nat)
    requires
        u < pow128(k + 1),
    ensures
        varint_bytes(u).len() <= k + 1,
    decreases k,
{
    if u >= 128 {
        if k == 0 {
            assert(pow128(1) == 128);
        } else {
            assert(pow128(k + 1) == 128 * pow128(k));
            assert(u / 128 < pow128(k)) by (nonlinear_arith)
                requires
                    u < 128 * pow128(k),
            ;
            lemma_varint_bytes_len_k(u / 128, (k - 1) as nat);
        }
    }
}

/// Every 32-bit number takes between one and five bytes.
pub proof fn lemma_varint_bytes_len(u: nat)
    requires
        u < 0x1_0000_0000,
    ensures
        1 <= varint_bytes(u).len() <= 5,
{
    reveal_with_fuel(pow128, 6);
    lemma_varint_bytes_len_k(u, 4);
    if u >= 128 {
        assert(varint_bytes(u).len() == 1 + varint_bytes(u / 128).len());
    }
}

/// Big-endian encoding of `x` modulo 256^n, on `n` bytes.
pub open spec fn be_bytes(x: nat, n: nat) -> Seq<u8>
    decreases n,
{
    if n == 0 {
        Seq::<u8>::empty()
    } else {
        be_bytes(x / 256, (n - 1) as nat) + seq![(x % 256) as u8]
    }
}

/// Two's-complement bit pattern of a signed 16-bit value.
pub open spec fn i16_bits(v: i16) -> nat {
    if v >= 0 {
        v as nat
    } else {
        (v + 0x1_0000) as nat
    }
}

/// Appends the big-endian bytes of a 32-bit pattern.
pub fn push_u32_be(out: &mut Vec<u8>, u: u32)
    ensures
        final(out)@ == old(out)@ + be_bytes(u as nat, 4),
{
    proof {
        reveal_with_fuel(be_bytes, 5);
        assert(u as nat / 256 / 256 == u as nat / 65536);
        assert(u as nat / 256 / 256 / 256 == u as nat / 16777216);
    }
    out.push((u / 16777216) as u8);
    out.push((u / 65536 % 256) as u8);
    out.push((u / 256 % 256) as u8);
    out.push((u % 256) as u8);
    proof {
        let b = be_bytes(u as nat, 4);
        assert(b =~= seq![(u / 16777216) as u8, (u / 65536 % 256) as u8, (u / 256 % 256) as u8, (u % 256) as u8]);
    }
}

/// Appends the big-endian bytes of an `i32`.
pub fn push_i32_be(out: &mut Vec<u8>, v: i32)
    ensures
        final(out)@ == old(out)@ + be_bytes(i32_bits(v), 4),
{
    push_u32_be(out, i32_to_u32_bits(v));
}

/// Appends the big-endian bytes of a 16-bit pattern.
pub fn push_u16_be(out: &mut Vec<u8>, u: u16)
    ensures
        final(out)@ == old(out)@ + be_bytes(u as nat, 2),
{
    proof {
        reveal_with_fuel(be_bytes, 3);
    }
    out.push((u / 256) as u8);
    out.push((u % 256) as u8);
    proof {
        assert(be_bytes(u as nat, 2) =~= seq![(u / 256) as u8, (u % 256) as u8]);
    }
}

/// Appends the big-endian bytes of an `i16`.
pub fn push_i16_be(out: &mut Vec<u8>, v: i16)
    ensures
        final(out)@ == old(out)@ + be_bytes(i16_bits(v), 2),
{
    let u: u16 = if v >= 0 {
        v as u16
    } else {
        ((v + 0x7fff + 1) as u16) + 0x8000
    };
    push_u16_be(out, u);
}

} // verus!
