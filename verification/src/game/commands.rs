//! Pieces of the chat and console commands: game mode names and the order
//! in which `/locate biome` samples the world.

use vstd::prelude::*;
use vstd::string::StrSliceExecFns;

verus! {

/// Whether two strings hold the same characters.
pub fn str_eq(a: &str, b: &str) -> (r: bool)
    ensures
        r == (a@ == b@),
{
    let n = a.unicode_len();
    if n != b.unicode_len() {
        return false;
    }
    let mut i: usize = 0;
    while i < n
        invariant
            i <= n,
            n == a@.len(),
            n == b@.len(),
            forall|j: int| 0 <= j < i ==> a@[j] == b@[j],
        decreases n - i,
    {
        if a.get_char(i) != b.get_char(i) {
            return false;
        }
        i += 1;
    }
    assert(a@ =~= b@);
    true
}

/// Game mode named by a command argument: "0" or "survival", "1" or
/// "creative", "2" or "adventure", "3" or "spectator".
pub open spec fn gamemode_of(arg: Seq<char>) -> Option<u8> {
    if arg == "0"@ || arg == "survival"@ {
        Some(0u8)
    } else if arg == "1"@ || arg == "creative"@ {
        Some(1u8)
    } else if arg == "2"@ || arg == "adventure"@ {
        Some(2u8)
    } else if arg == "3"@ || arg == "spectator"@ {
        Some(3u8)
    } else {
        None
    }
}

/// Each mode name means the same mode as its digit: "survival" and "0" are
/// mode 0, "creative" and "1" mode 1, "adventure" and "2" mode 2,
/// "spectator" and "3" mode 3.
pub proof fn mode_names_match_digits()
    ensures
        gamemode_of("0"@) == Some(0u8) && gamemode_of("survival"@) == Some(0u8),
        gamemode_of("1"@) == Some(1u8) && gamemode_of("creative"@) == Some(1u8),
        gamemode_of("2"@) == Some(2u8) && gamemode_of("adventure"@) == Some(2u8),
        gamemode_of("3"@) == Some(3u8) && gamemode_of("spectator"@) == Some(3u8),
{
    reveal_strlit("0");
    reveal_strlit("1");
    reveal_strlit("2");
    reveal_strlit("3");
    reveal_strlit("survival");
    reveal_strlit("creative");
    reveal_strlit("adventure");
    reveal_strlit("spectator");
    assert("1"@ != "0"@) by {
        assert("1"@[0] != "0"@[0]);
    }
    assert("2"@ != "0"@) by {
        assert("2"@[0] != "0"@[0]);
    }
    assert("2"@ != "1"@) by {
        assert("2"@[0] != "1"@[0]);
    }
    assert("3"@ != "0"@) by {
        assert("3"@[0] != "0"@[0]);
    }
    assert("3"@ != "1"@) by {
        assert("3"@[0] != "1"@[0]);
    }
    assert("3"@ != "2"@) by {
        assert("3"@[0] != "2"@[0]);
    }
    assert("survival"@ != "0"@) by {
        assert("survival"@.len() != "0"@.len());
    }
    assert("survival"@ != "1"@) by {
        assert("survival"@.len() != "1"@.len());
    }
    assert("survival"@ != "2"@) by {
        assert("survival"@.len() != "2"@.len());
    }
    assert("survival"@ != "3"@) by {
        assert("survival"@.len() != "3"@.len());
    }
    assert("creative"@ != "0"@) by {
        assert("creative"@.len() != "0"@.len());
    }
    assert("creative"@ != "1"@) by {
        assert("creative"@.len() != "1"@.len());
    }
    assert("creative"@ != "2"@) by {
        assert("creative"@.len() != "2"@.len());
    }
    assert("creative"@ != "3"@) by {
        assert("creative"@.len() != "3"@.len());
    }
    assert("creative"@ != "survival"@) by {
        assert("creative"@[0] != "survival"@[0]);
    }
    assert("adventure"@ != "0"@) by {
        assert("adventure"@.len() != "0"@.len());
    }
    assert("adventure"@ != "1"@) by {
        assert("adventure"@.len() != "1"@.len());
    }
    assert("adventure"@ != "2"@) by {
        assert("adventure"@.len() != "2"@.len());
    }
    assert("adventure"@ != "3"@) by {
        assert("adventure"@.len() != "3"@.len());
    }
    assert("adventure"@ != "survival"@) by {
        assert("adventure"@.len() != "survival"@.len());
    }
    assert("adventure"@ != "creative"@) by {
        assert("adventure"@.len() != "creative"@.len());
    }
    assert("spectator"@ != "0"@) by {
        assert("spectator"@.len() != "0"@.len());
    }
    assert("spectator"@ != "1"@) by {
        assert("spectator"@.len() != "1"@.len());
    }
    assert("spectator"@ != "2"@) by {
        assert("spectator"@.len() != "2"@.len());
    }
    assert("spectator"@ != "3"@) by {
        assert("spectator"@.len() != "3"@.len());
    }
    assert("spectator"@ != "survival"@) by {
        assert("spectator"@.len() != "survival"@.len());
    }
    assert("spectator"@ != "creative"@) by {
        assert("spectator"@.len() != "creative"@.len());
    }
    assert("spectator"@ != "adventure"@) by {
        assert("spectator"@[0] != "adventure"@[0]);
    }
}

/// Game mode named by a command argument, if any.
pub fn parse_gamemode(arg: &str) -> (m: Option<u8>)
    ensures
        m == gamemode_of(arg@),
{
    if str_eq(arg, "0") || str_eq(arg, "survival") {
        Some(0)
    } else if str_eq(arg, "1") || str_eq(arg, "creative") {
        Some(1)
    } else if str_eq(arg, "2") || str_eq(arg, "adventure") {
        Some(2)
    } else if str_eq(arg, "3") || str_eq(arg, "spectator") {
        Some(3)
    } else {
        None
    }
}

/// Largest ring searched by `/locate biome` (96 rings of 16 blocks).
pub const LOCATE_RINGS: i32 = 96;

/// Points of ring `ring` around (px, pz), every 16 blocks, in search order:
/// the north and south sides column by column (x growing, north first),
/// then the west and east sides row by row without the corners (z
/// growing, west first).
pub open spec fn ring_point(px: int, pz: int, ring: int, i: int) -> (int, int) {
    let r = ring * 16;
    let n = 2 * ring + 1;
    if i < 2 * n {
        (px - r + (i / 2) * 16, if i % 2 == 0 {
            pz - r
        } else {
            pz + r
        })
    } else {
        let k = i - 2 * n;
        (if k % 2 == 0 {
            px - r
        } else {
            px + r
        }, pz - r + 16 + (k / 2) * 16)
    }
}

/// Number of points of ring `ring`.
pub open spec fn ring_len(ring: int) -> int {
    2 * (2 * ring + 1) + 2 * (2 * ring - 1)
}

/// The points of ring `ring` around (px, pz), in search order.
pub fn ring_points(px: i32, pz: i32, ring: i32) -> (v: Vec<(i32, i32)>)
    requires
        1 <= ring <= LOCATE_RINGS,
        -0x4000_0000 <= px <= 0x4000_0000,
        -0x4000_0000 <= pz <= 0x4000_0000,
    ensures
        v@.len() == ring_len(ring as int),
        forall|i: int|
            0 <= i < v@.len() ==> (#[trigger] v@[i].0 as int, v@[i].1 as int) == ring_point(
                px as int,
                pz as int,
                ring as int,
                i,
            ),
{
    let r = ring * 16;
    let mut v: Vec<(i32, i32)> = Vec::new();
    let mut j: i32 = 0;
    while j <= 2 * ring
        invariant
            1 <= ring <= LOCATE_RINGS,
            r == ring * 16,
            -0x4000_0000 <= px <= 0x4000_0000,
            -0x4000_0000 <= pz <= 0x4000_0000,
            0 <= j <= 2 * ring + 1,
            v@.len() == 2 * j,
            forall|i: int|
                0 <= i < v@.len() ==> (#[trigger] v@[i].0 as int, v@[i].1 as int) == ring_point(
                    px as int,
                    pz as int,
                    ring as int,
                    i,
                ),
        decreases 2 * ring + 1 - j,
    {
        let x = px - r + j * 16;
        proof {
            let i0 = 2 * j as int;
            assert(i0 / 2 == j && i0 % 2 == 0);
            assert((i0 + 1) / 2 == j && (i0 + 1) % 2 == 1);
        }
        v.push((x, pz - r));
        v.push((x, pz + r));
        j += 1;
    }
    let mut j: i32 = 0;
    while j < 2 * ring - 1
        invariant
            1 <= ring <= LOCATE_RINGS,
            r == ring * 16,
            -0x4000_0000 <= px <= 0x4000_0000,
            -0x4000_0000 <= pz <= 0x4000_0000,
            0 <= j <= 2 * ring - 1,
            v@.len() == 2 * (2 * ring + 1) + 2 * j,
            forall|i: int|
                0 <= i < v@.len() ==> (#[trigger] v@[i].0 as int, v@[i].1 as int) == ring_point(
                    px as int,
                    pz as int,
                    ring as int,
                    i,
                ),
        decreases 2 * ring - 1 - j,
    {
        let z = pz - r + 16 + j * 16;
        proof {
            let k0 = 2 * j as int;
            assert(k0 / 2 == j && k0 % 2 == 0);
            assert((k0 + 1) / 2 == j && (k0 + 1) % 2 == 1);
        }
        v.push((px - r, z));
        v.push((px + r, z));
        j += 1;
    }
    v
}

} // verus!
