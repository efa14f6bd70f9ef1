//! Procedural name generation for seed-derived materials.
//!
//! A `u64` seed selects one of sixteen syllable prefixes (bits 8..12) and
//! one of sixteen suffixes (bits 16..20).  The mapping is stable: changing
//! it would rename every procedurally generated material in saved worlds.

use vstd::prelude::*;

use crate::text::concat2;

verus! {

/// The prefix syllable at table position `i` (0..16).
pub open spec fn prefix_spec(i: int) -> Seq<char> {
    if i == 0 { "Neo"@ }
    else if i == 1 { "Aur"@ }
    else if i == 2 { "Vex"@ }
    else if i == 3 { "Cor"@ }
    else if i == 4 { "Nyx"@ }
    else if i == 5 { "Zel"@ }
    else if i == 6 { "Pyr"@ }
    else if i == 7 { "Lux"@ }
    else if i == 8 { "Thal"@ }
    else if i == 9 { "Kyn"@ }
    else if i == 10 { "Ven"@ }
    else if i == 11 { "Dra"@ }
    else if i == 12 { "Sol"@ }
    else if i == 13 { "Mor"@ }
    else if i == 14 { "Cyn"@ }
    else { "Vir"@ }
}

/// The suffix syllable at table position `i` (0..16).
pub open spec fn suffix_spec(i: int) -> Seq<char> {
    if i == 0 { "ite"@ }
    else if i == 1 { "ium"@ }
    else if i == 2 { "ite"@ }
    else if i == 3 { "ane"@ }
    else if i == 4 { "ene"@ }
    else if i == 5 { "oid"@ }
    else if i == 6 { "ate"@ }
    else if i == 7 { "ide"@ }
    else if i == 8 { "yne"@ }
    else if i == 9 { "ase"@ }
    else if i == 10 { "ose"@ }
    else if i == 11 { "ine"@ }
    else if i == 12 { "ile"@ }
    else if i == 13 { "ore"@ }
    else if i == 14 { "ux"@ }
    else { "al"@ }
}

/// Number of entries in each syllable table.
pub const TABLE_LEN: u64 = 16;

/// Table position of the prefix for `seed`: bits 8..12.
pub open spec fn prefix_index(seed: u64) -> int {
    ((seed / 256) % 16) as int
}

/// Table position of the suffix for `seed`: bits 16..20.
pub open spec fn suffix_index(seed: u64) -> int {
    ((seed / 65536) % 16) as int
}

/// The name a seed maps to.
pub open spec fn name_spec(seed: u64) -> Seq<char> {
    prefix_spec(prefix_index(seed)) + suffix_spec(suffix_index(seed))
}

/// Prefix syllable at table position `i`.
pub fn prefix(i: u64) -> (s: &'static str)
    requires
        i < 16,
    ensures
        s@ == prefix_spec(i as int),
{
    match i {
        0 => "Neo",
        1 => "Aur",
        2 => "Vex",
        3 => "Cor",
        4 => "Nyx",
        5 => "Zel",
        6 => "Pyr",
        7 => "Lux",
        8 => "Thal",
        9 => "Kyn",
        10 => "Ven",
        11 => "Dra",
        12 => "Sol",
        13 => "Mor",
        14 => "Cyn",
        _ => "Vir",
    }
}

/// Suffix syllable at table position `i`.
pub fn suffix(i: u64) -> (s: &'static str)
    requires
        i < 16,
    ensures
        s@ == suffix_spec(i as int),
{
    match i {
        0 => "ite",
        1 => "ium",
        2 => "ite",
        3 => "ane",
        4 => "ene",
        5 => "oid",
        6 => "ate",
        7 => "ide",
        8 => "yne",
        9 => "ase",
        10 => "ose",
        11 => "ine",
        12 => "ile",
        13 => "ore",
        14 => "ux",
        _ => "al",
    }
}

/// Deterministically produce a mineral-style name from a seed: the prefix
/// chosen by bits 8..12 followed by the suffix chosen by bits 16..20.
pub fn procedural_name(seed: u64) -> (name: String)
    ensures
        name@ == name_spec(seed),
{
    let p = prefix(seed / 256 % TABLE_LEN);
    let s = suffix(seed / 65536 % TABLE_LEN);
    concat2(p, s)
}

/// Every syllable in either table is non-empty.
pub proof fn lemma_syllables_nonempty(i: int)
    requires
        0 <= i < 16,
    ensures
        prefix_spec(i).len() > 0,
        suffix_spec(i).len() > 0,
{
    reveal_strlit("Neo");
    reveal_strlit("Aur");
    reveal_strlit("Vex");
    reveal_strlit("Cor");
    reveal_strlit("Nyx");
    reveal_strlit("Zel");
    reveal_strlit("Pyr");
    reveal_strlit("Lux");
    reveal_strlit("Thal");
    reveal_strlit("Kyn");
    reveal_strlit("Ven");
    reveal_strlit("Dra");
    reveal_strlit("Sol");
    reveal_strlit("Mor");
    reveal_strlit("Cyn");
    reveal_strlit("Vir");
    reveal_strlit("ite");
    reveal_strlit("ium");
    reveal_strlit("ane");
    reveal_strlit("ene");
    reveal_strlit("oid");
    reveal_strlit("ate");
    reveal_strlit("ide");
    reveal_strlit("yne");
    reveal_strlit("ase");
    reveal_strlit("ose");
    reveal_strlit("ine");
    reveal_strlit("ile");
    reveal_strlit("ore");
    reveal_strlit("ux");
    reveal_strlit("al");
}

/// Every seed maps to a non-empty name.
pub proof fn lemma_name_nonempty(seed: u64)
    ensures
        name_spec(seed).len() > 0,
{
    lemma_syllables_nonempty(prefix_index(seed));
    lemma_syllables_nonempty(suffix_index(seed));
}

/// The name is a function of bits 8..12 and 16..20 of the seed alone: two
/// seeds that agree on those bit windows get the same name.
pub proof fn lemma_name_depends_on_windows(a: u64, b: u64)
    requires
        prefix_index(a) == prefix_index(b),
        suffix_index(a) == suffix_index(b),
    ensures
        name_spec(a) == name_spec(b),
{
}

/// A name is its prefix syllable followed by its suffix syllable: it opens
/// with the syllable at table position `(seed >> 8) % 16` of the prefix
/// table, closes with the syllable at position `(seed >> 16) % 16` of the
/// suffix table, and holds nothing else.
pub proof fn lemma_name_opens_with_prefix_closes_with_suffix(seed: u64)
    ensures
        name_spec(seed).len() == prefix_spec(((seed >> 8u64) % 16) as int).len()
            + suffix_spec(((seed >> 16u64) % 16) as int).len(),
        name_spec(seed).take(prefix_spec(((seed >> 8u64) % 16) as int).len() as int)
            == prefix_spec(((seed >> 8u64) % 16) as int),
        name_spec(seed).skip(prefix_spec(((seed >> 8u64) % 16) as int).len() as int)
            == suffix_spec(((seed >> 16u64) % 16) as int),
{
    assert((seed >> 8u64) == seed / 256) by (bit_vector);
    assert((seed >> 16u64) == seed / 65536) by (bit_vector);
    let p = prefix_spec(prefix_index(seed));
    let s = suffix_spec(suffix_index(seed));
    assert(name_spec(seed).take(p.len() as int) =~= p);
    assert(name_spec(seed).skip(p.len() as int) =~= s);
}

/// Prefix syllables are capitalised; suffix syllables are lower case.
proof fn lemma_syllable_letters(i: int)
    requires
        0 <= i < 16,
    ensures
        'A' <= prefix_spec(i)[0] <= 'Z',
        forall|k: int| 1 <= k < prefix_spec(i).len() ==> 'a' <= #[trigger] prefix_spec(i)[k] <= 'z',
        forall|k: int| 0 <= k < suffix_spec(i).len() ==> 'a' <= #[trigger] suffix_spec(i)[k] <= 'z',
{
    lemma_syllables_nonempty(i);
    reveal_strlit("Neo");
    reveal_strlit("Aur");
    reveal_strlit("Vex");
    reveal_strlit("Cor");
    reveal_strlit("Nyx");
    reveal_strlit("Zel");
    reveal_strlit("Pyr");
    reveal_strlit("Lux");
    reveal_strlit("Thal");
    reveal_strlit("Kyn");
    reveal_strlit("Ven");
    reveal_strlit("Dra");
    reveal_strlit("Sol");
    reveal_strlit("Mor");
    reveal_strlit("Cyn");
    reveal_strlit("Vir");
    reveal_strlit("ite");
    reveal_strlit("ium");
    reveal_strlit("ane");
    reveal_strlit("ene");
    reveal_strlit("oid");
    reveal_strlit("ate");
    reveal_strlit("ide");
    reveal_strlit("yne");
    reveal_strlit("ase");
    reveal_strlit("ose");
    reveal_strlit("ine");
    reveal_strlit("ile");
    reveal_strlit("ore");
    reveal_strlit("ux");
    reveal_strlit("al");
}

/// Every name is capitalised: its first character is an upper-case ASCII
/// letter and every later one a lower-case ASCII letter.
pub proof fn lemma_name_is_capitalised(seed: u64)
    ensures
        name_spec(seed).len() > 0,
        'A' <= name_spec(seed)[0] <= 'Z',
        forall|k: int| 1 <= k < name_spec(seed).len() ==> 'a' <= #[trigger] name_spec(seed)[k] <= 'z',
{
    lemma_syllables_nonempty(prefix_index(seed));
    lemma_syllables_nonempty(suffix_index(seed));
    let p = prefix_spec(prefix_index(seed));
    let s = suffix_spec(suffix_index(seed));
    lemma_syllable_letters(prefix_index(seed));
    lemma_syllable_letters(suffix_index(seed));
    assert forall|k: int| 1 <= k < name_spec(seed).len() implies 'a' <= #[trigger] name_spec(seed)[k] <= 'z' by {
        if k < p.len() {
            assert(name_spec(seed)[k] == p[k]);
        } else {
            assert(name_spec(seed)[k] == s[k - p.len()]);
        }
    }
}

} // verus!
