//! Biomes of the overworld: protocol ids, table order and names.

use vstd::prelude::*;
use vstd::string::StrSliceExecFns;
use crate::util::push_char;

verus! {

/// Number of biomes.
pub const BIOME_COUNT: usize = 15;

#[derive(Clone, Copy, PartialEq, Eq, Structural, Hash, Debug)]
pub enum Biome {
    DeepOcean,
    Ocean,
    Beach,
    River,
    Plains,
    Forest,
    Taiga,
    SnowyPlains,
    SnowyTaiga,
    Desert,
    Jungle,
    Swamp,
    Mountains,
    MushroomIsland,
    Savanna,
}

/// Biome id of the 1.7.10 protocol.
pub open spec fn biome_id(b: Biome) -> i32 {
    match b {
        Biome::DeepOcean => 24,
        Biome::Ocean => 0,
        Biome::Beach => 16,
        Biome::River => 7,
        Biome::Plains => 1,
        Biome::Forest => 4,
        Biome::Taiga => 5,
        Biome::SnowyPlains => 12,
        Biome::SnowyTaiga => 30,
        Biome::Desert => 2,
        Biome::Jungle => 21,
        Biome::Swamp => 6,
        Biome::Mountains => 3,
        Biome::MushroomIsland => 14,
        Biome::Savanna => 35,
    }
}

/// Position of a biome in the table of biomes.
pub open spec fn biome_index(b: Biome) -> int {
    match b {
        Biome::DeepOcean => 0,
        Biome::Ocean => 1,
        Biome::Beach => 2,
        Biome::River => 3,
        Biome::Plains => 4,
        Biome::Forest => 5,
        Biome::Taiga => 6,
        Biome::SnowyPlains => 7,
        Biome::SnowyTaiga => 8,
        Biome::Desert => 9,
        Biome::Jungle => 10,
        Biome::Swamp => 11,
        Biome::Mountains => 12,
        Biome::MushroomIsland => 13,
        Biome::Savanna => 14,
    }
}

/// Biome at position `i` of the table (0 <= i < 15).
pub open spec fn biome_at(i: int) -> Biome {
    if i == 0 {
        Biome::DeepOcean
    } else if i == 1 {
        Biome::Ocean
    } else if i == 2 {
        Biome::Beach
    } else if i == 3 {
        Biome::River
    } else if i == 4 {
        Biome::Plains
    } else if i == 5 {
        Biome::Forest
    } else if i == 6 {
        Biome::Taiga
    } else if i == 7 {
        Biome::SnowyPlains
    } else if i == 8 {
        Biome::SnowyTaiga
    } else if i == 9 {
        Biome::Desert
    } else if i == 10 {
        Biome::Jungle
    } else if i == 11 {
        Biome::Swamp
    } else if i == 12 {
        Biome::Mountains
    } else if i == 13 {
        Biome::MushroomIsland
    } else {
        Biome::Savanna
    }
}

/// Internal name of a biome (lower case, words joined by '_').
pub open spec fn name_chars(b: Biome) -> Seq<char> {
    match b {
        Biome::DeepOcean => seq!['d', 'e', 'e', 'p', '_', 'o', 'c', 'e', 'a', 'n'],
        Biome::Ocean => seq!['o', 'c', 'e', 'a', 'n'],
        Biome::Beach => seq!['b', 'e', 'a', 'c', 'h'],
        Biome::River => seq!['r', 'i', 'v', 'e', 'r'],
        Biome::Plains => seq!['p', 'l', 'a', 'i', 'n', 's'],
        Biome::Forest => seq!['f', 'o', 'r', 'e', 's', 't'],
        Biome::Taiga => seq!['t', 'a', 'i', 'g', 'a'],
        Biome::SnowyPlains => seq!['s', 'n', 'o', 'w', 'y', '_', 'p', 'l', 'a', 'i', 'n', 's'],
        Biome::SnowyTaiga => seq!['s', 'n', 'o', 'w', 'y', '_', 't', 'a', 'i', 'g', 'a'],
        Biome::Desert => seq!['d', 'e', 's', 'e', 'r', 't'],
        Biome::Jungle => seq!['j', 'u', 'n', 'g', 'l', 'e'],
        Biome::Swamp => seq!['s', 'w', 'a', 'm', 'p'],
        Biome::Mountains => seq!['m', 'o', 'u', 'n', 't', 'a', 'i', 'n', 's'],
        Biome::MushroomIsland => seq![
            'm',
            'u',
            's',
            'h',
            'r',
            'o',
            'o',
            'm',
            '_',
            'i',
            's',
            'l',
            'a',
            'n',
            'd',
        ],
        Biome::Savanna => seq!['s', 'a', 'v', 'a', 'n', 'n', 'a'],
    }
}

/// Code of a character once folded for name lookup: ASCII upper case to
/// lower case, a space to '_', anything else unchanged.
pub open spec fn folded(c: char) -> u32 {
    let u = c as u32;
    if 65 <= u <= 90 {
        (u + 32) as u32
    } else if u == 32 {
        95
    } else {
        u
    }
}

/// Whether a requested name designates the internal name `name`, ignoring
/// case and accepting spaces for underscores.
pub open spec fn name_matches(input: Seq<char>, name: Seq<char>) -> bool {
    &&& input.len() == name.len()
    &&& forall|i: int| 0 <= i < input.len() ==> folded(#[trigger] input[i]) == name[i] as u32
}

/// Upper case of an ASCII lower-case letter; other characters unchanged.
pub open spec fn upper(c: char) -> char {
    if 'a' <= c <= 'z' {
        ((c as u32) - 32) as char
    } else {
        c
    }
}

/// Character `i` of the display form of `s`.
pub open spec fn display_char(s: Seq<char>, i: int) -> char {
    if s[i] == '_' {
        ' '
    } else if i == 0 || s[i - 1] == '_' {
        upper(s[i])
    } else {
        s[i]
    }
}

/// Display form of an internal name: each '_' becomes a space and the first
/// letter of each word is capitalised ("snowy_plains" -> "Snowy Plains").
pub open spec fn display_chars(s: Seq<char>) -> Seq<char> {
    Seq::new(s.len(), |i: int| display_char(s, i))
}

impl Biome {
    /// Biome id of the 1.7.10 protocol.
    pub fn id(self) -> (r: i32)
        ensures
            r == biome_id(self),
    {
        match self {
            Biome::DeepOcean => 24,
            Biome::Ocean => 0,
            Biome::Beach => 16,
            Biome::River => 7,
            Biome::Plains => 1,
            Biome::Forest => 4,
            Biome::Taiga => 5,
            Biome::SnowyPlains => 12,
            Biome::SnowyTaiga => 30,
            Biome::Desert => 2,
            Biome::Jungle => 21,
            Biome::Swamp => 6,
            Biome::Mountains => 3,
            Biome::MushroomIsland => 14,
            Biome::Savanna => 35,
        }
    }
}

/// Position of a biome in the table of biomes.
pub fn index(biome: Biome) -> (r: usize)
    ensures
        r == biome_index(biome),
        r < BIOME_COUNT,
{
    match biome {
        Biome::DeepOcean => 0,
        Biome::Ocean => 1,
        Biome::Beach => 2,
        Biome::River => 3,
        Biome::Plains => 4,
        Biome::Forest => 5,
        Biome::Taiga => 6,
        Biome::SnowyPlains => 7,
        Biome::SnowyTaiga => 8,
        Biome::Desert => 9,
        Biome::Jungle => 10,
        Biome::Swamp => 11,
        Biome::Mountains => 12,
        Biome::MushroomIsland => 13,
        Biome::Savanna => 14,
    }
}

fn nth_biome(i: usize) -> (b: Biome)
    requires
        i < BIOME_COUNT,
    ensures
        b == biome_at(i as int),
{
    if i == 0 {
        Biome::DeepOcean
    } else if i == 1 {
        Biome::Ocean
    } else if i == 2 {
        Biome::Beach
    } else if i == 3 {
        Biome::River
    } else if i == 4 {
        Biome::Plains
    } else if i == 5 {
        Biome::Forest
    } else if i == 6 {
        Biome::Taiga
    } else if i == 7 {
        Biome::SnowyPlains
    } else if i == 8 {
        Biome::SnowyTaiga
    } else if i == 9 {
        Biome::Desert
    } else if i == 10 {
        Biome::Jungle
    } else if i == 11 {
        Biome::Swamp
    } else if i == 12 {
        Biome::Mountains
    } else if i == 13 {
        Biome::MushroomIsland
    } else {
        Biome::Savanna
    }
}

/// All biomes, in table order.
pub fn all_biomes() -> (v: Vec<Biome>)
    ensures
        v@.len() == BIOME_COUNT,
        forall|i: int| 0 <= i < BIOME_COUNT ==> #[trigger] v@[i] == biome_at(i),
{
    let mut v: Vec<Biome> = Vec::new();
    let mut i: usize = 0;
    while i < BIOME_COUNT
        invariant
            i <= BIOME_COUNT,
            v@.len() == i,
            forall|j: int| 0 <= j < i ==> #[trigger] v@[j] == biome_at(j),
        decreases BIOME_COUNT - i,
    {
        v.push(nth_biome(i));
        i += 1;
    }
    v
}

/// The table order is a bijection between the biomes and 0..15.
pub proof fn table_order_is_bijective(b: Biome, i: int)
    requires
        0 <= i < BIOME_COUNT,
    ensures
        0 <= biome_index(b) < BIOME_COUNT,
        biome_at(biome_index(b)) == b,
        biome_index(biome_at(i)) == i,
{
}

/// Two different biomes have different protocol ids.
pub proof fn ids_are_unique(b1: Biome, b2: Biome)
    ensures
        biome_id(b1) == biome_id(b2) ==> b1 == b2,
{
}

/// Lower-case ASCII letters and '_' only.
pub open spec fn snake_case(s: Seq<char>) -> bool {
    forall|i: int| 0 <= i < s.len() ==> ('a' <= #[trigger] s[i] <= 'z' || s[i] == '_')
}

proof fn lemma_snake_case_lookup(s: Seq<char>)
    requires
        snake_case(s),
    ensures
        name_matches(s, s),
        name_matches(display_chars(s), s),
{
    assert forall|i: int| 0 <= i < s.len() implies folded(#[trigger] display_chars(s)[i]) == s[i] as u32 by {
        assert(display_chars(s)[i] == display_char(s, i));
        assert('a' <= s[i] <= 'z' || s[i] == '_');
    }
}

/// Each biome is found under its internal name and under its display name
/// ("snowy_plains" and "Snowy Plains" both designate the snowy plains).
pub proof fn names_find_their_biome(b: Biome)
    ensures
        name_matches(name_chars(b), name_chars(b)),
        name_matches(display_chars(name_chars(b)), name_chars(b)),
{
    assert(snake_case(name_chars(b)));
    lemma_snake_case_lookup(name_chars(b));
}

/// Internal name of a biome.
pub fn biome_name(b: Biome) -> (s: &'static str)
    ensures
        s@ == name_chars(b),
{
    match b {
        Biome::DeepOcean => {
            proof {
                reveal_strlit("deep_ocean");
            }
            "deep_ocean"
        },
        Biome::Ocean => {
            proof {
                reveal_strlit("ocean");
            }
            "ocean"
        },
        Biome::Beach => {
            proof {
                reveal_strlit("beach");
            }
            "beach"
        },
        Biome::River => {
            proof {
                reveal_strlit("river");
            }
            "river"
        },
        Biome::Plains => {
            proof {
                reveal_strlit("plains");
            }
            "plains"
        },
        Biome::Forest => {
            proof {
                reveal_strlit("forest");
            }
            "forest"
        },
        Biome::Taiga => {
            proof {
                reveal_strlit("taiga");
            }
            "taiga"
        },
        Biome::SnowyPlains => {
            proof {
                reveal_strlit("snowy_plains");
            }
            "snowy_plains"
        },
        Biome::SnowyTaiga => {
            proof {
                reveal_strlit("snowy_taiga");
            }
            "snowy_taiga"
        },
        Biome::Desert => {
            proof {
                reveal_strlit("desert");
            }
            "desert"
        },
        Biome::Jungle => {
            proof {
                reveal_strlit("jungle");
            }
            "jungle"
        },
        Biome::Swamp => {
            proof {
                reveal_strlit("swamp");
            }
            "swamp"
        },
        Biome::Mountains => {
            proof {
                reveal_strlit("mountains");
            }
            "mountains"
        },
        Biome::MushroomIsland => {
            proof {
                reveal_strlit("mushroom_island");
            }
            "mushroom_island"
        },
        Biome::Savanna => {
            proof {
                reveal_strlit("savanna");
            }
            "savanna"
        },
    }
}

proof fn lemma_names_distinct(b1: Biome, b2: Biome)
    requires
        b1 != b2,
    ensures
        name_chars(b1) != name_chars(b2),
{
    assert(name_chars(b1).len() != name_chars(b2).len() || name_chars(b1)[0] != name_chars(
        b2,
    )[0]);
}

proof fn lemma_match_unique(input: Seq<char>, b1: Biome, b2: Biome)
    requires
        name_matches(input, name_chars(b1)),
        name_matches(input, name_chars(b2)),
    ensures
        b1 == b2,
{
    let (n1, n2) = (name_chars(b1), name_chars(b2));
    assert forall|i: int| 0 <= i < n1.len() implies n1[i] == n2[i] by {
        assert(folded(input[i]) == n1[i] as u32);
        assert(folded(input[i]) == n2[i] as u32);
    }
    assert(n1 =~= n2);
    if b1 != b2 {
        lemma_names_distinct(b1, b2);
    }
}

fn fold_code(c: char) -> (u: u32)
    ensures
        u == folded(c),
{
    let u = c as u32;
    if 65 <= u && u <= 90 {
        u + 32
    } else if u == 32 {
        95
    } else {
        u
    }
}

fn name_matches_exec(input: &str, n: usize, name: &str) -> (r: bool)
    requires
        n == input@.len(),
    ensures
        r == name_matches(input@, name@),
{
    let m = name.unicode_len();
    if m != n {
        return false;
    }
    let mut j: usize = 0;
    while j < n
        invariant
            j <= n,
            n == input@.len(),
            n == name@.len(),
            forall|i: int| 0 <= i < j ==> folded(#[trigger] input@[i]) == name@[i] as u32,
        decreases n - j,
    {
        let a = fold_code(input.get_char(j));
        let c = name.get_char(j);
        if a != c as u32 {
            return false;
        }
        j += 1;
    }
    true
}

/// Looks a biome up by name, ignoring case and accepting spaces for
/// underscores ("snowy plains" finds the biome named "snowy_plains").
pub fn by_name(name: &str) -> (r: Option<Biome>)
    ensures
        forall|b: Biome| r == Some(b) <==> name_matches(name@, name_chars(b)),
{
    let n = name.unicode_len();
    let mut i: usize = 0;
    while i < BIOME_COUNT
        invariant
            i <= BIOME_COUNT,
            n == name@.len(),
            forall|j: int| 0 <= j < i ==> !name_matches(name@, name_chars(#[trigger] biome_at(j))),
        decreases BIOME_COUNT - i,
    {
        let b = nth_biome(i);
        if name_matches_exec(name, n, biome_name(b)) {
            proof {
                assert forall|b2: Biome| name_matches(name@, name_chars(b2)) implies b2 == b by {
                    lemma_match_unique(name@, b, b2);
                }
            }
            return Some(b);
        }
        i += 1;
    }
    proof {
        assert forall|b2: Biome| !name_matches(name@, name_chars(b2)) by {
            assert(biome_at(biome_index(b2)) == b2);
        }
    }
    None
}

fn upper_char(c: char) -> (u: char)
    ensures
        u == upper(c),
{
    if 'a' <= c && c <= 'z' {
        let code: u8 = ((c as u32) - 32) as u8;
        code as char
    } else {
        c
    }
}

/// Display name of a biome ("snowy_plains" -> "Snowy Plains").
pub fn display_name(biome: Biome) -> (s: String)
    ensures
        s@ == display_chars(name_chars(biome)),
{
    let name = biome_name(biome);
    let n = name.unicode_len();
    let mut out = String::new();
    let mut prev_underscore = true;
    let mut j: usize = 0;
    while j < n
        invariant
            j <= n,
            n == name@.len(),
            out@ =~= display_chars(name@).subrange(0, j as int),
            prev_underscore == (j == 0 || name@[j - 1] == '_'),
        decreases n - j,
    {
        let c = name.get_char(j);
        if c == '_' {
            push_char(&mut out, ' ');
        } else if prev_underscore {
            push_char(&mut out, upper_char(c));
        } else {
            push_char(&mut out, c);
        }
        prev_underscore = c == '_';
        j += 1;
    }
    out
}

} // verus!
