//! On-disk formats: chunk files (sections of little-endian block values)
//! and player files, plus their paths.

use vstd::prelude::*;
use vstd::string::{StringExecFns, StringSliceAdditionalSpecFns};
use crate::net::reading::signed_from_bits;
use crate::net::writing::i16_bits;
use crate::util::{decimal, push_char, push_decimal};
use crate::world::CHUNK_LEN;
use crate::config::{decimal_value, is_digit};

verus! {

/// `world/chunks/<cx>_<cz>.dat`.
pub open spec fn chunk_path_text(cx: i32, cz: i32) -> Seq<char> {
    "world/chunks/"@ + decimal(cx as int) + seq!['_'] + decimal(cz as int) + ".dat"@
}

/// `world/players/<uuid>.dat`.
pub open spec fn player_path_text(uuid: Seq<char>) -> Seq<char> {
    "world/players/"@ + uuid + ".dat"@
}

/// Path of the file of chunk (cx, cz).
pub fn chunk_path(cx: i32, cz: i32) -> (p: String)
    ensures
        p@ == chunk_path_text(cx, cz),
{
    let mut p = String::from_str("world/chunks/");
    push_decimal(&mut p, cx as i64);
    push_char(&mut p, '_');
    push_decimal(&mut p, cz as i64);
    p.append(".dat");
    p
}

/// Path of the file of the player with this UUID.
pub fn player_path(uuid: &str) -> (p: String)
    ensures
        p@ == player_path_text(uuid@),
{
    let mut p = String::from_str("world/players/");
    p.append(uuid);
    p.append(".dat");
    p
}

/// Some block of section `s` (blocks s*4096 .. s*4096+4096) is not air.
pub open spec fn section_has_blocks(data: Seq<u16>, s: int) -> bool {
    exists|i: int| s * 4096 <= i < s * 4096 + 4096 && #[trigger] data[i] != 0
}

/// Number of sections up to the highest one holding a block, among the
/// first `s` sections.
pub open spec fn saved_sections_below(data: Seq<u16>, s: int) -> int
    decreases s,
{
    if s <= 0 {
        0
    } else if section_has_blocks(data, s - 1) {
        s
    } else {
        saved_sections_below(data, s - 1)
    }
}

/// Sections written to a chunk file: up to the highest non-empty one.
pub open spec fn saved_sections(data: Seq<u16>) -> int {
    saved_sections_below(data, 16)
}

/// Little-endian bytes of a sequence of 16-bit values.
pub open spec fn le_u16s(d: Seq<u16>) -> Seq<u8> {
    Seq::new(
        2 * d.len(),
        |i: int|
            if i % 2 == 0 {
                (d[i / 2] % 256) as u8
            } else {
                (d[i / 2] / 256) as u8
            },
    )
}

/// Chunk file contents: the section count, then the blocks of those
/// sections in array order, two bytes each.
pub open spec fn chunk_file(data: Seq<u16>) -> Seq<u8> {
    seq![saved_sections(data) as u8] + le_u16s(data.take(saved_sections(data) * 4096))
}

proof fn lemma_saved_sections_bounds(data: Seq<u16>, s: int)
    requires
        0 <= s <= 16,
    ensures
        0 <= saved_sections_below(data, s) <= s,
        forall|t: int| saved_sections_below(data, s) <= t < s ==> !section_has_blocks(data, t),
    decreases s,
{
    if s > 0 {
        lemma_saved_sections_bounds(data, s - 1);
    }
}

/// Encodes a chunk array in the file format (section count, then blocks).
pub fn encode_chunk_data(data: &[u16]) -> (out: Vec<u8>)
    requires
        data@.len() == CHUNK_LEN,
    ensures
        out@ == chunk_file(data@),
{
    let mut section_count: usize = 0;
    let mut sy: usize = 16;
    while sy > 0
        invariant_except_break
            section_count == 0,
        invariant
            sy <= 16,
            data@.len() == CHUNK_LEN,
            saved_sections(data@) == saved_sections_below(data@, sy as int),
        ensures
            section_count == saved_sections(data@),
        decreases sy,
    {
        let y_start = (sy - 1) * 4096;
        let mut i = y_start;
        let mut any = false;
        while i < y_start + 4096
            invariant
                y_start == (sy - 1) * 4096,
                y_start <= i <= y_start + 4096,
                1 <= sy <= 16,
                data@.len() == CHUNK_LEN,
                any == exists|j: int| y_start <= j < i && #[trigger] data@[j] != 0,
            decreases y_start + 4096 - i,
        {
            if data[i] != 0 {
                any = true;
            }
            i = i + 1;
        }
        if any {
            proof {
                let j = choose|j: int| y_start <= j < i && #[trigger] data@[j] != 0;
                assert(section_has_blocks(data@, sy - 1));
            }
            section_count = sy;
            break;
        }
        sy = sy - 1;
    }
    proof {
        lemma_saved_sections_bounds(data@, 16);
    }
    let end = section_count * 4096;
    let mut out: Vec<u8> = Vec::with_capacity(1 + end * 2);
    out.push(section_count as u8);
    let mut i: usize = 0;
    while i < end
        invariant
            i <= end <= CHUNK_LEN,
            end == section_count * 4096,
            data@.len() == CHUNK_LEN,
            section_count == saved_sections(data@),
            out@ =~= seq![section_count as u8] + le_u16s(data@.take(i as int)),
        decreases end - i,
    {
        let b = data[i];
        out.push((b % 256) as u8);
        out.push((b / 256) as u8);
        proof {
            assert(le_u16s(data@.take(i + 1)) =~= le_u16s(data@.take(i as int)) + seq![(b % 256) as u8, (b / 256) as u8]);
        }
        i = i + 1;
    }
    out
}

/// Blocks stored in a chunk file: for each of the announced sections, the
/// blocks in array order, stopping at the first incomplete value. An empty
/// file holds none.
pub open spec fn chunk_file_blocks(buf: Seq<u8>) -> Seq<u16> {
    if buf.len() == 0 {
        Seq::<u16>::empty()
    } else {
        let avail = (buf.len() - 1) / 2;
        let n = if buf[0] * 4096 < avail {
            buf[0] * 4096
        } else {
            avail
        };
        Seq::new(n as nat, |j: int| (buf[1 + 2 * j] + 256 * buf[2 + 2 * j]) as u16)
    }
}

/// Decodes the blocks of a chunk file, in array order (entry j is block j
/// of the chunk, so entries past the chunk's height lie above the world).
pub fn decode_chunk_data(buf: &[u8]) -> (blocks: Vec<u16>)
    ensures
        blocks@ == chunk_file_blocks(buf@),
{
    let mut blocks: Vec<u16> = Vec::new();
    if buf.len() == 0 {
        return blocks;
    }
    let total: usize = (buf[0] as usize) * 4096;
    let mut idx: usize = 1;
    let mut j: usize = 0;
    let ghost avail: int = (buf@.len() - 1) / 2;
    while j < total
        invariant_except_break
            j <= avail,
        invariant
            avail == (buf@.len() - 1) / 2,
            total == buf@[0] * 4096,
            buf@.len() >= 1,
            j <= total,
            idx == 1 + 2 * j,
            idx <= buf@.len() + 1,
            blocks@.len() == j,
            1 + 2 * j <= buf@.len(),
            forall|k: int| 0 <= k < j ==> #[trigger] blocks@[k] == (buf@[1 + 2 * k] + 256 * buf@[2 + 2 * k]) as u16,
        ensures
            j == (if total < avail {
                total as int
            } else {
                avail
            }),
            blocks@.len() == j,
            forall|k: int| 0 <= k < j ==> #[trigger] blocks@[k] == (buf@[1 + 2 * k] + 256 * buf@[2 + 2 * k]) as u16,
        decreases total - j,
    {
        if idx + 2 > buf.len() {
            break;
        }
        let v: u16 = (buf[idx] as u16) + 256 * (buf[idx + 1] as u16);
        blocks.push(v);
        idx = idx + 2;
        j = j + 1;
    }
    proof {
        assert(blocks@ =~= chunk_file_blocks(buf@));
    }
    blocks
}

/// Reading back a written chunk file gives the blocks of the saved
/// sections, and every block above them is air.
pub proof fn chunk_file_roundtrip(data: Seq<u16>)
    requires
        data.len() == CHUNK_LEN,
    ensures
        chunk_file_blocks(chunk_file(data)) == data.take(saved_sections(data) * 4096),
        forall|j: int| saved_sections(data) * 4096 <= j < CHUNK_LEN ==> #[trigger] data[j] == 0,
{
    lemma_saved_sections_bounds(data, 16);
    let n = saved_sections(data);
    let f = chunk_file(data);
    let t = data.take(n * 4096);
    assert(f[0] == n as u8);
    assert(f.len() == 1 + 2 * n * 4096);
    let d = chunk_file_blocks(f);
    assert forall|j: int| 0 <= j < n * 4096 implies #[trigger] d[j] == t[j] by {
        assert(f[1 + 2 * j] == le_u16s(t)[2 * j]);
        assert(f[2 + 2 * j] == le_u16s(t)[2 * j + 1]);
    }
    assert(d =~= t);
    assert forall|j: int| n * 4096 <= j < CHUNK_LEN implies #[trigger] data[j] == 0 by {
        let s = j / 4096;
        assert(n <= s < 16);
        assert(!section_has_blocks(data, s));
    }
}

/// Overlays stored blocks on a chunk array (entries past the chunk are
/// ignored).
pub fn apply_edits(data: &mut Vec<u16>, edits: &[u16])
    requires
        old(data)@.len() == CHUNK_LEN,
    ensures
        final(data)@.len() == CHUNK_LEN,
        forall|j: int|
            0 <= j < CHUNK_LEN ==> #[trigger] final(data)@[j] == if j < edits@.len() {
                edits@[j]
            } else {
                old(data)@[j]
            },
{
    let n = if edits.len() < CHUNK_LEN {
        edits.len()
    } else {
        CHUNK_LEN
    };
    let mut j: usize = 0;
    while j < n
        invariant
            n <= CHUNK_LEN,
            n == if edits@.len() < CHUNK_LEN {
                edits@.len()
            } else {
                CHUNK_LEN as nat
            },
            j <= n,
            data@.len() == CHUNK_LEN,
            forall|k: int|
                0 <= k < CHUNK_LEN ==> #[trigger] data@[k] == if k < j {
                    edits@[k]
                } else {
                    old(data)@[k]
                },
        decreases n - j,
    {
        data.set(j, edits[j]);
        j = j + 1;
    }
}

/// Little-endian bytes of `x` on `n` bytes.
pub open spec fn le_bytes(x: nat, n: nat) -> Seq<u8>
    decreases n,
{
    if n == 0 {
        Seq::<u8>::empty()
    } else {
        seq![(x % 256) as u8] + le_bytes(x / 256, (n - 1) as nat)
    }
}

/// Little-endian value of `n` bytes of `s` from `i`.
pub open spec fn le_num(s: Seq<u8>, i: int, n: nat) -> nat
    decreases n,
{
    if n == 0 {
        0
    } else {
        s[i] as nat + 256 * le_num(s, i + 1, (n - 1) as nat)
    }
}

/// 256 to the power `n`.
pub open spec fn pow256(n: nat) -> nat
    decreases n,
{
    if n == 0 {
        1
    } else {
        256 * pow256((n - 1) as nat)
    }
}

fn push_le(out: &mut Vec<u8>, x: u64, n: usize)
    requires
        n <= 8,
    ensures
        final(out)@ == old(out)@ + le_bytes(x as nat, n as nat),
{
    let mut k: usize = 0;
    let mut rest: u64 = x;
    while k < n
        invariant
            k <= n <= 8,
            out@ + le_bytes(rest as nat, (n - k) as nat) == old(out)@ + le_bytes(x as nat, n as nat),
        decreases n - k,
    {
        let ghost before = out@;
        out.push((rest % 256) as u8);
        proof {
            assert(le_bytes(rest as nat, (n - k) as nat) == seq![(rest % 256) as u8] + le_bytes((rest / 256) as nat, (n - k - 1) as nat));
            assert(out@ + le_bytes((rest / 256) as nat, (n - k - 1) as nat) =~= before + le_bytes(rest as nat, (n - k) as nat));
        }
        rest = rest / 256;
        k = k + 1;
    }
}

fn read_le(buf: &[u8], i: usize, n: usize) -> (v: u64)
    requires
        n <= 8,
        i + n <= buf@.len(),
    ensures
        v == le_num(buf@, i as int, n as nat),
{
    let len = buf.len();
    let mut v: u64 = 0;
    let mut k: usize = n;
    while k > 0
        invariant
            k <= n <= 8,
            len == buf@.len(),
            i + n <= len,
            v == le_num(buf@, (i + k) as int, (n - k) as nat),
            v < pow256((n - k) as nat),
        decreases k,
    {
        proof {
            reveal_with_fuel(pow256, 9);
            assert(le_num(buf@, (i + k - 1) as int, (n - k + 1) as nat) == buf@[i + k - 1] as nat + 256 * le_num(buf@, (i + k) as int, (n - k) as nat));
            assert(pow256((n - k + 1) as nat) == 256 * pow256((n - k) as nat));
            assert(pow256((n - k) as nat) <= 72057594037927936) by {
                lemma_pow256_le((n - k) as nat, 7);
            }
            assert(buf@[i + k - 1] + 256 * v < pow256((n - k + 1) as nat)) by (nonlinear_arith)
                requires
                    v < pow256((n - k) as nat),
                    buf@[i + k - 1] < 256,
                    pow256((n - k + 1) as nat) == 256 * pow256((n - k) as nat),
            ;
        }
        v = buf[i + k - 1] as u64 + 256 * v;
        k = k - 1;
    }
    v
}

proof fn lemma_pow256_le(a: nat, b: nat)
    requires
        a <= b <= 7,
    ensures
        pow256(a) <= pow256(b),
        pow256(7) == 72057594037927936,
    decreases b,
{
    reveal_with_fuel(pow256, 8);
    if a < b {
        lemma_pow256_le(a, (b - 1) as nat);
    }
}

/// Text after its optional leading '+' or '-'.
pub open spec fn unsigned_part(s: Seq<u8>) -> Seq<u8> {
    if s.len() > 0 && (s[0] == 45 || s[0] == 43) {
        s.drop_first()
    } else {
        s
    }
}

/// Only ASCII digits.
pub open spec fn all_digits(d: Seq<u8>) -> bool {
    forall|i: int| 0 <= i < d.len() ==> is_digit(#[trigger] d[i])
}

/// Value of decimal text as `str::parse::<i32>` reads it: an optional '+'
/// or '-', then at least one ASCII digit and nothing else, within the range
/// of `i32`.
pub open spec fn i32_text_value(s: Seq<u8>) -> Option<int> {
    let d = unsigned_part(s);
    let v = if s.len() > 0 && s[0] == 45 {
        -(decimal_value(d) as int)
    } else {
        decimal_value(d) as int
    };
    if d.len() == 0 || !all_digits(d) {
        None
    } else if i32::MIN <= v <= i32::MAX {
        Some(v)
    } else {
        None
    }
}

proof fn lemma_decimal_value_step(d: Seq<u8>, i: int)
    requires
        0 <= i < d.len(),
        48 <= d[i],
    ensures
        decimal_value(d.subrange(0, i + 1)) == decimal_value(d.subrange(0, i)) * 10 + (d[i] - 48),
{
    assert(d.subrange(0, i + 1).drop_last() =~= d.subrange(0, i));
    assert(d.subrange(0, i + 1).last() == d[i]);
}

/// Reads a decimal `i32` (see `i32_text_value`).
pub fn parse_i32(s: &[u8]) -> (r: Option<i32>)
    ensures
        match r {
            Some(v) => i32_text_value(s@) == Some(v as int),
            None => i32_text_value(s@) is None,
        },
{
    let n = s.len();
    let signed = n > 0 && (s[0] == 45 || s[0] == 43);
    let neg = n > 0 && s[0] == 45;
    let start: usize = if signed {
        1
    } else {
        0
    };
    let ghost d = unsigned_part(s@);
    assert(d =~= s@.subrange(start as int, n as int));
    if start >= n {
        return None;
    }
    let mut acc: u64 = 0;
    let mut over = false;
    let mut i = start;
    while i < n
        invariant
            start <= i <= n,
            n == s@.len(),
            d == unsigned_part(s@),
            d =~= s@.subrange(start as int, n as int),
            forall|j: int| 0 <= j < i - start ==> is_digit(#[trigger] d[j]),
            !over ==> acc == decimal_value(d.subrange(0, i - start)) && acc <= 0x8000_0000,
            over ==> decimal_value(d.subrange(0, i - start)) > 0x8000_0000,
        decreases n - i,
    {
        let c = s[i];
        assert(d[i - start] == c);
        if c < 48 || c > 57 {
            assert(!is_digit(d[i - start]));
            assert(!all_digits(d));
            return None;
        }
        proof {
            lemma_decimal_value_step(d, i - start);
        }
        let dg = (c - 48) as u64;
        if !over {
            let next = acc * 10 + dg;
            if next > 0x8000_0000 {
                over = true;
            } else {
                acc = next;
            }
        }
        i = i + 1;
    }
    assert(d.subrange(0, d.len() as int) =~= d);
    if over {
        return None;
    }
    if neg {
        Some((0i64 - acc as i64) as i32)
    } else if acc <= 0x7fff_ffff {
        Some(acc as i32)
    } else {
        None
    }
}

/// `s` holds exactly one '_', at `k`.
pub open spec fn lone_underscore_at(s: Seq<u8>, k: int) -> bool {
    &&& 0 <= k < s.len()
    &&& s[k] == 95
    &&& forall|j: int| 0 <= j < s.len() && j != k ==> #[trigger] s[j] != 95
}

/// Chunk coordinates named by a file of the chunk directory: the name is
/// `<cx>_<cz>.dat`, with exactly one '_' and two decimal `i32`s.
pub open spec fn chunk_file_coords_of(name: Seq<u8>) -> Option<(int, int)> {
    let n = name.len();
    if n < 4 || name.subrange(n - 4, n as int) != seq![46u8, 100, 97, 116] {
        None
    } else {
        let stem = name.subrange(0, n - 4);
        if exists|k: int| lone_underscore_at(stem, k) {
            let k = choose|k: int| lone_underscore_at(stem, k);
            match (i32_text_value(stem.subrange(0, k)), i32_text_value(stem.subrange(k + 1, stem.len() as int))) {
                (Some(a), Some(b)) => Some((a, b)),
                _ => None,
            }
        } else {
            None
        }
    }
}

/// Chunk coordinates of a chunk file name (`<cx>_<cz>.dat`), if it is one.
pub fn chunk_file_coords(name: &str) -> (r: Option<(i32, i32)>)
    ensures
        match r {
            Some((a, b)) => chunk_file_coords_of(name.spec_bytes()) == Some((a as int, b as int)),
            None => chunk_file_coords_of(name.spec_bytes()) is None,
        },
{
    let bytes = name.as_bytes();
    let n = bytes.len();
    if n < 4 {
        return None;
    }
    let ghost tail = bytes@.subrange(n - 4, n as int);
    if !(bytes[n - 4] == 46 && bytes[n - 3] == 100 && bytes[n - 2] == 97 && bytes[n - 1] == 116) {
        proof {
            if tail == seq![46u8, 100, 97, 116] {
                assert(tail[0] == bytes@[n - 4] && tail[1] == bytes@[n - 3]);
                assert(tail[2] == bytes@[n - 2] && tail[3] == bytes@[n - 1]);
            }
        }
        return None;
    }
    assert(tail =~= seq![46u8, 100, 97, 116]);
    let m = n - 4;
    let ghost stem = bytes@.subrange(0, m as int);
    let mut k: usize = 0;
    while k < m && bytes[k] != 95
        invariant
            k <= m,
            m + 4 == n,
            n == bytes@.len(),
            bytes@ == name.spec_bytes(),
            bytes@.subrange(n - 4, n as int) == seq![46u8, 100, 97, 116],
            stem == bytes@.subrange(0, m as int),
            forall|j: int| 0 <= j < k ==> #[trigger] stem[j] != 95,
        decreases m - k,
    {
        k = k + 1;
    }
    if k == m {
        proof {
            if exists|q: int| lone_underscore_at(stem, q) {
                let q = choose|q: int| lone_underscore_at(stem, q);
                assert(stem[q] == 95);
            }
        }
        return None;
    }
    assert(stem[k as int] == 95);
    let mut j = k + 1;
    while j < m
        invariant
            k < j <= m,
            m + 4 == n,
            n == bytes@.len(),
            bytes@ == name.spec_bytes(),
            bytes@.subrange(n - 4, n as int) == seq![46u8, 100, 97, 116],
            stem == bytes@.subrange(0, m as int),
            stem[k as int] == 95,
            forall|t: int| 0 <= t < k ==> #[trigger] stem[t] != 95,
            forall|t: int| k < t < j ==> #[trigger] stem[t] != 95,
        decreases m - j,
    {
        if bytes[j] == 95 {
            proof {
                assert(stem[j as int] == 95);
                if exists|q: int| lone_underscore_at(stem, q) {
                    let q = choose|q: int| lone_underscore_at(stem, q);
                    if q != k as int {
                        assert(stem[k as int] != 95);
                    } else {
                        assert(stem[j as int] != 95);
                    }
                }
            }
            return None;
        }
        j = j + 1;
    }
    assert(lone_underscore_at(stem, k as int));
    proof {
        let q = choose|q: int| lone_underscore_at(stem, q);
        if q != k as int {
            assert(stem[k as int] != 95);
        }
    }
    let left = parse_i32(&bytes[0..k]);
    let right = parse_i32(&bytes[k + 1..m]);
    assert(bytes@.subrange(0, k as int) =~= stem.subrange(0, k as int));
    assert(bytes@.subrange(k + 1, m as int) =~= stem.subrange(k + 1, stem.len() as int));
    match (left, right) {
        (Some(a), Some(b)) => Some((a, b)),
        _ => None,
    }
}

/// A player's saved state with every number as its bit pattern: position
/// (f64 bits), yaw and pitch (f32 bits), game mode, health (f32 bits), the
/// 45 inventory slots with their counts, the selected hotbar slot and the
/// stack held by the cursor.
pub struct PlayerRecord {
    pub x_bits: u64,
    pub y_bits: u64,
    pub z_bits: u64,
    pub yaw_bits: u32,
    pub pitch_bits: u32,
    pub gamemode: u8,
    pub health_bits: u32,
    pub inventory: Vec<i16>,
    pub counts: Vec<u8>,
    pub selected_slot: usize,
    pub cursor_item: i16,
    pub cursor_count: u8,
}

/// Length of a player file.
pub const PLAYER_FILE_LEN: usize = 176;

impl PlayerRecord {
    /// Inventory arrays of 45 slots.
    pub open spec fn wf(&self) -> bool {
        self.inventory@.len() == 45 && self.counts@.len() == 45
    }
}

/// Inventory ids, two little-endian bytes each.
pub open spec fn le_i16s(v: Seq<i16>) -> Seq<u8> {
    Seq::new(
        2 * v.len(),
        |i: int|
            if i % 2 == 0 {
                (i16_bits(v[i / 2]) % 256) as u8
            } else {
                (i16_bits(v[i / 2]) / 256) as u8
            },
    )
}

/// Player file contents, all numbers little-endian.
pub open spec fn player_file(p: PlayerRecord) -> Seq<u8> {
    le_bytes(p.x_bits as nat, 8) + le_bytes(p.y_bits as nat, 8) + le_bytes(p.z_bits as nat, 8)
        + le_bytes(p.yaw_bits as nat, 4) + le_bytes(p.pitch_bits as nat, 4) + seq![p.gamemode]
        + le_bytes(p.health_bits as nat, 4) + le_i16s(p.inventory@) + p.counts@ + seq![
        p.selected_slot as u8,
    ] + le_bytes(i16_bits(p.cursor_item), 2) + seq![p.cursor_count]
}

/// Encodes a player's state (the selected slot is stored on one byte).
pub fn encode_player(p: &PlayerRecord) -> (out: Vec<u8>)
    requires
        p.wf(),
    ensures
        out@ == player_file(*p),
{
    let mut data: Vec<u8> = Vec::new();
    push_le(&mut data, p.x_bits, 8);
    push_le(&mut data, p.y_bits, 8);
    push_le(&mut data, p.z_bits, 8);
    push_le(&mut data, p.yaw_bits as u64, 4);
    push_le(&mut data, p.pitch_bits as u64, 4);
    data.push(p.gamemode);
    push_le(&mut data, p.health_bits as u64, 4);
    let ghost head = data@;
    let mut i: usize = 0;
    while i < 45
        invariant
            i <= 45,
            p.wf(),
            data@ =~= head + le_i16s(p.inventory@.take(i as int)),
        decreases 45 - i,
    {
        let v = p.inventory[i];
        let u: u16 = if v >= 0 {
            v as u16
        } else {
            ((v + 0x7fff + 1) as u16) + 0x8000
        };
        data.push((u % 256) as u8);
        data.push((u / 256) as u8);
        proof {
            assert(le_i16s(p.inventory@.take(i + 1)) =~= le_i16s(p.inventory@.take(i as int)) + seq![(u % 256) as u8, (u / 256) as u8]);
        }
        i = i + 1;
    }
    assert(p.inventory@.take(45) =~= p.inventory@);
    data.extend_from_slice(p.counts.as_slice());
    data.push(p.selected_slot as u8);
    let c = p.cursor_item;
    let cu: u16 = if c >= 0 {
        c as u16
    } else {
        ((c + 0x7fff + 1) as u16) + 0x8000
    };
    push_le(&mut data, cu as u64, 2);
    data.push(p.cursor_count);
    data
}

/// Decodes a player file; `None` when it is shorter than a full record.
pub fn decode_player(buf: &[u8]) -> (r: Option<PlayerRecord>)
    ensures
        buf@.len() < PLAYER_FILE_LEN <==> r is None,
        r matches Some(p) ==> {
            &&& p.wf()
            &&& p.x_bits == le_num(buf@, 0, 8)
            &&& p.y_bits == le_num(buf@, 8, 8)
            &&& p.z_bits == le_num(buf@, 16, 8)
            &&& p.yaw_bits == le_num(buf@, 24, 4)
            &&& p.pitch_bits == le_num(buf@, 28, 4)
            &&& p.gamemode == buf@[32]
            &&& p.health_bits == le_num(buf@, 33, 4)
            &&& forall|i: int| 0 <= i < 45 ==> #[trigger] p.inventory@[i] == signed_from_bits(le_num(buf@, 37 + 2 * i, 2), 0x1_0000)
            &&& forall|i: int| 0 <= i < 45 ==> #[trigger] p.counts@[i] == buf@[127 + i]
            &&& p.selected_slot == buf@[172]
            &&& p.cursor_item == signed_from_bits(le_num(buf@, 173, 2), 0x1_0000)
            &&& p.cursor_count == buf@[175]
        },
{
    if buf.len() < PLAYER_FILE_LEN {
        return None;
    }
    let x_bits = read_le(buf, 0, 8);
    let y_bits = read_le(buf, 8, 8);
    let z_bits = read_le(buf, 16, 8);
    let yaw_bits = read_le(buf, 24, 4);
    let pitch_bits = read_le(buf, 28, 4);
    let gamemode = buf[32];
    let health_bits = read_le(buf, 33, 4);
    proof {
        lemma_le_num_bound(buf@, 24, 4);
        lemma_le_num_bound(buf@, 28, 4);
        lemma_le_num_bound(buf@, 33, 4);
        reveal_with_fuel(pow256, 5);
    }
    let mut inventory: Vec<i16> = Vec::new();
    let mut i: usize = 0;
    while i < 45
        invariant
            i <= 45,
            buf@.len() >= PLAYER_FILE_LEN,
            inventory@.len() == i,
            forall|k: int| 0 <= k < i ==> #[trigger] inventory@[k] == signed_from_bits(le_num(buf@, 37 + 2 * k, 2), 0x1_0000),
        decreases 45 - i,
    {
        let u = read_le(buf, 37 + 2 * i, 2);
        proof {
            lemma_le_num_bound(buf@, 37 + 2 * i, 2);
            reveal_with_fuel(pow256, 3);
        }
        let v: i16 = if u < 0x8000 {
            u as i16
        } else {
            ((u - 0x8000) as i16) + i16::MIN
        };
        inventory.push(v);
        i = i + 1;
    }
    let mut counts: Vec<u8> = Vec::new();
    let mut k: usize = 0;
    while k < 45
        invariant
            k <= 45,
            buf@.len() >= PLAYER_FILE_LEN,
            counts@.len() == k,
            forall|j: int| 0 <= j < k ==> #[trigger] counts@[j] == buf@[127 + j],
        decreases 45 - k,
    {
        counts.push(buf[127 + k]);
        k = k + 1;
    }
    let selected_slot = buf[172] as usize;
    let cu = read_le(buf, 173, 2);
    proof {
        lemma_le_num_bound(buf@, 173, 2);
        reveal_with_fuel(pow256, 3);
    }
    let cursor_item: i16 = if cu < 0x8000 {
        cu as i16
    } else {
        ((cu - 0x8000) as i16) + i16::MIN
    };
    let cursor_count = buf[175];
    Some(PlayerRecord {
        x_bits,
        y_bits,
        z_bits,
        yaw_bits: yaw_bits as u32,
        pitch_bits: pitch_bits as u32,
        gamemode,
        health_bits: health_bits as u32,
        inventory,
        counts,
        selected_slot,
        cursor_item,
        cursor_count,
    })
}

proof fn lemma_le_num_bound(s: Seq<u8>, i: int, n: nat)
    requires
        0 <= i,
        i + n <= s.len(),
    ensures
        le_num(s, i, n) < pow256(n),
    decreases n,
{
    if n > 0 {
        lemma_le_num_bound(s, i + 1, (n - 1) as nat);
        assert(s[i] + 256 * le_num(s, i + 1, (n - 1) as nat) < 256 * pow256((n - 1) as nat)) by (nonlinear_arith)
            requires
                le_num(s, i + 1, (n - 1) as nat) < pow256((n - 1) as nat),
                s[i] < 256,
        ;
    }
    reveal_with_fuel(pow256, 5);
}


proof fn lemma_le_bytes_len(x: nat, n: nat)
    ensures
        le_bytes(x, n).len() == n,
    decreases n,
{
    if n > 0 {
        lemma_le_bytes_len(x / 256, (n - 1) as nat);
    }
}

proof fn lemma_le_read_back(s: Seq<u8>, off: int, x: nat, n: nat)
    requires
        0 <= off,
        off + n <= s.len(),
        s.subrange(off, off + n) == le_bytes(x, n),
        x < pow256(n),
    ensures
        le_num(s, off, n) == x,
    decreases n,
{
    lemma_le_bytes_len(x, n);
    if n > 0 {
        let rest = le_bytes(x / 256, (n - 1) as nat);
        lemma_le_bytes_len(x / 256, (n - 1) as nat);
        assert(le_bytes(x, n) == seq![(x % 256) as u8] + rest);
        assert(s[off] == (x % 256) as u8) by {
            assert(s.subrange(off, off + n)[0] == s[off]);
        }
        assert(s.subrange(off + 1, off + n) =~= rest) by {
            assert forall|k: int| 0 <= k < n - 1 implies s.subrange(off + 1, off + n)[k] == rest[k] by {
                assert(s.subrange(off, off + n)[k + 1] == s[off + 1 + k]);
                assert((seq![(x % 256) as u8] + rest)[k + 1] == rest[k]);
            }
        }
        assert(x / 256 < pow256((n - 1) as nat)) by {
            assert(pow256(n) == 256 * pow256((n - 1) as nat));
        }
        lemma_le_read_back(s, off + 1, x / 256, (n - 1) as nat);
    }
}

/// Reading back a written player file gives every field of the player,
/// the selected slot being stored on one byte.
pub proof fn player_file_roundtrip(p: PlayerRecord)
    requires
        p.wf(),
        p.selected_slot < 256,
    ensures
        ({
            let f = player_file(p);
            &&& f.len() == PLAYER_FILE_LEN
            &&& le_num(f, 0, 8) == p.x_bits
            &&& le_num(f, 8, 8) == p.y_bits
            &&& le_num(f, 16, 8) == p.z_bits
            &&& le_num(f, 24, 4) == p.yaw_bits
            &&& le_num(f, 28, 4) == p.pitch_bits
            &&& f[32] == p.gamemode
            &&& le_num(f, 33, 4) == p.health_bits
            &&& forall|i: int| 0 <= i < 45 ==> signed_from_bits(#[trigger] le_num(f, 37 + 2 * i, 2), 0x1_0000) == p.inventory@[i]
            &&& forall|i: int| 0 <= i < 45 ==> #[trigger] f[127 + i] == p.counts@[i]
            &&& f[172] == p.selected_slot
            &&& signed_from_bits(le_num(f, 173, 2), 0x1_0000) == p.cursor_item
            &&& f[175] == p.cursor_count
        }),
{
    reveal_with_fuel(pow256, 9);
    let f = player_file(p);
    let b0 = le_bytes(p.x_bits as nat, 8);
    let b1 = le_bytes(p.y_bits as nat, 8);
    let b2 = le_bytes(p.z_bits as nat, 8);
    let b3 = le_bytes(p.yaw_bits as nat, 4);
    let b4 = le_bytes(p.pitch_bits as nat, 4);
    let b5 = seq![p.gamemode];
    let b6 = le_bytes(p.health_bits as nat, 4);
    let b7 = le_i16s(p.inventory@);
    let b8 = p.counts@;
    let b9 = seq![p.selected_slot as u8];
    let b10 = le_bytes(i16_bits(p.cursor_item), 2);
    let b11 = seq![p.cursor_count];
    lemma_le_bytes_len(p.x_bits as nat, 8);
    lemma_le_bytes_len(p.y_bits as nat, 8);
    lemma_le_bytes_len(p.z_bits as nat, 8);
    lemma_le_bytes_len(p.yaw_bits as nat, 4);
    lemma_le_bytes_len(p.pitch_bits as nat, 4);
    lemma_le_bytes_len(p.health_bits as nat, 4);
    lemma_le_bytes_len(i16_bits(p.cursor_item), 2);
    assert(f == b0 + b1 + b2 + b3 + b4 + b5 + b6 + b7 + b8 + b9 + b10 + b11);
    assert(f.len() == PLAYER_FILE_LEN);
    assert(f.subrange(0, 8) =~= b0);
    assert(f.subrange(8, 16) =~= b1);
    assert(f.subrange(16, 24) =~= b2);
    assert(f.subrange(24, 28) =~= b3);
    assert(f.subrange(28, 32) =~= b4);
    assert(f.subrange(33, 37) =~= b6);
    assert(f.subrange(173, 175) =~= b10);
    lemma_le_read_back(f, 0, p.x_bits as nat, 8);
    lemma_le_read_back(f, 8, p.y_bits as nat, 8);
    lemma_le_read_back(f, 16, p.z_bits as nat, 8);
    lemma_le_read_back(f, 24, p.yaw_bits as nat, 4);
    lemma_le_read_back(f, 28, p.pitch_bits as nat, 4);
    lemma_le_read_back(f, 33, p.health_bits as nat, 4);
    lemma_le_read_back(f, 173, i16_bits(p.cursor_item), 2);
    assert forall|i: int| 0 <= i < 45 implies signed_from_bits(#[trigger] le_num(f, 37 + 2 * i, 2), 0x1_0000) == p.inventory@[i] by {
        let v = p.inventory@[i];
        assert(f[37 + 2 * i] == b7[2 * i]);
        assert(f[38 + 2 * i] == b7[2 * i + 1]);
        assert((2 * i) / 2 == i && (2 * i) % 2 == 0);
        assert((2 * i + 1) / 2 == i && (2 * i + 1) % 2 == 1);
        let x = i16_bits(v);
        assert(x < 0x1_0000);
        assert(b7[2 * i] == (x % 256) as u8);
        assert(b7[2 * i + 1] == (x / 256) as u8);
        assert(le_num(f, 39 + 2 * i, 0) == 0);
        assert(le_num(f, 38 + 2 * i, 1) == f[38 + 2 * i] as nat);
        assert(le_num(f, 37 + 2 * i, 2) == f[37 + 2 * i] as nat + 256 * le_num(f, 38 + 2 * i, 1));
        assert(le_num(f, 37 + 2 * i, 2) == x);
    }
    assert forall|i: int| 0 <= i < 45 implies #[trigger] f[127 + i] == p.counts@[i] by {
        assert(f[127 + i] == b8[i]);
    }
}

} // verus!
