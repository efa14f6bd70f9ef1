//! Material identities: seeds, the well-known base materials, property
//! visibility, and the material catalog's naming and lookup rules.
//!
//! The catalog holds at most one material per seed. A new material keeps
//! its proposed name unless another material already uses it; then a
//! suffix derived from the seed is appended.

use vstd::prelude::*;
use crate::text::{chars_of, str_eq};

verus! {

/// Seed of a material.
#[derive(Clone, Copy, Debug, PartialEq, Eq, Hash, Structural)]
pub struct MaterialSeed(pub u64);

/// The lowercase hex digit for `d` (0..16).
pub open spec fn hex_char(d: nat) -> char {
    if d < 10 {
        ((48 + d) as u32) as char
    } else {
        ((87 + d) as u32) as char
    }
}

/// The `n` lowest hex digits of `v`, most significant first, zero-padded.
pub open spec fn hex_digits(v: nat, n: nat) -> Seq<char>
    decreases n,
{
    if n == 0 {
        Seq::empty()
    } else {
        hex_digits(v / 16, (n - 1) as nat) + seq![hex_char(v % 16)]
    }
}

fn hex_char_exec(d: u64) -> (c: char)
    requires
        d < 16,
    ensures
        c == hex_char(d as nat),
{
    match d {
        0 => '0',
        1 => '1',
        2 => '2',
        3 => '3',
        4 => '4',
        5 => '5',
        6 => '6',
        7 => '7',
        8 => '8',
        9 => '9',
        10 => 'a',
        11 => 'b',
        12 => 'c',
        13 => 'd',
        14 => 'e',
        _ => 'f',
    }
}

/// Appends the `n` lowest hex digits of `v` to `out`.
fn push_hex(out: &mut Vec<char>, v: u64, n: usize)
    ensures
        final(out)@ == old(out)@ + hex_digits(v as nat, n as nat),
    decreases n,
{
    if n > 0 {
        push_hex(out, v / 16, n - 1);
        out.push(hex_char_exec(v % 16));
        assert(out@ =~= old(out)@ + hex_digits(v as nat, n as nat));
    }
}

impl MaterialSeed {
    /// The `Display` rendering: `0x` and sixteen lowercase hex digits.
    pub fn to_text(&self) -> (s: String)
        ensures
            s@ == seq!['0', 'x'] + hex_digits(self.0 as nat, 16),
    {
        let mut v: Vec<char> = Vec::new();
        v.push('0');
        v.push('x');
        push_hex(&mut v, self.0, 16);
        crate::text::string_of(&v)
    }
}

/// The ten base materials whose seeds are part of the game's data model.
#[derive(Clone, Copy, Debug, PartialEq, Eq, Hash, Structural)]
pub enum WellKnownMaterial {
    /// Iron-rich metal.
    Ferrite,
    /// Bone-like mineral.
    Calcium,
    /// Volcanic compound.
    Sulfurite,
    /// Crystalline lattice material.
    Prismate,
    /// Organic mineral.
    Verdant,
    /// Ultra-dense metal.
    Osmium,
    /// Volatile reactive compound.
    Volatite,
    /// Metallic ore.
    Cobaltine,
    /// Silicate mineral.
    Silite,
    /// Phosphorescent mineral.
    Phosphite,
}

/// The seed of a well-known material: 1001 to 1010 in declaration order.
pub open spec fn well_known_seed(m: WellKnownMaterial) -> u64 {
    match m {
        WellKnownMaterial::Ferrite => 1001,
        WellKnownMaterial::Calcium => 1002,
        WellKnownMaterial::Sulfurite => 1003,
        WellKnownMaterial::Prismate => 1004,
        WellKnownMaterial::Verdant => 1005,
        WellKnownMaterial::Osmium => 1006,
        WellKnownMaterial::Volatite => 1007,
        WellKnownMaterial::Cobaltine => 1008,
        WellKnownMaterial::Silite => 1009,
        WellKnownMaterial::Phosphite => 1010,
    }
}

/// Every well-known material, in seed order.
pub const ALL_WELL_KNOWN_MATERIALS: [WellKnownMaterial; 10] = [
    WellKnownMaterial::Ferrite,
    WellKnownMaterial::Calcium,
    WellKnownMaterial::Sulfurite,
    WellKnownMaterial::Prismate,
    WellKnownMaterial::Verdant,
    WellKnownMaterial::Osmium,
    WellKnownMaterial::Volatite,
    WellKnownMaterial::Cobaltine,
    WellKnownMaterial::Silite,
    WellKnownMaterial::Phosphite,
];

impl WellKnownMaterial {
    /// The material's generation seed.
    pub fn seed(self) -> (s: u64)
        ensures
            s == well_known_seed(self),
    {
        match self {
            WellKnownMaterial::Ferrite => 1001,
            WellKnownMaterial::Calcium => 1002,
            WellKnownMaterial::Sulfurite => 1003,
            WellKnownMaterial::Prismate => 1004,
            WellKnownMaterial::Verdant => 1005,
            WellKnownMaterial::Osmium => 1006,
            WellKnownMaterial::Volatite => 1007,
            WellKnownMaterial::Cobaltine => 1008,
            WellKnownMaterial::Silite => 1009,
            WellKnownMaterial::Phosphite => 1010,
        }
    }

    /// The label shown in the journal and examine panels (the variant's
    /// name).
    pub fn display_name(self) -> (s: &'static str)
        ensures
            self == WellKnownMaterial::Ferrite ==> s@ == "Ferrite"@,
            self == WellKnownMaterial::Calcium ==> s@ == "Calcium"@,
            self == WellKnownMaterial::Sulfurite ==> s@ == "Sulfurite"@,
            self == WellKnownMaterial::Prismate ==> s@ == "Prismate"@,
            self == WellKnownMaterial::Verdant ==> s@ == "Verdant"@,
            self == WellKnownMaterial::Osmium ==> s@ == "Osmium"@,
            self == WellKnownMaterial::Volatite ==> s@ == "Volatite"@,
            self == WellKnownMaterial::Cobaltine ==> s@ == "Cobaltine"@,
            self == WellKnownMaterial::Silite ==> s@ == "Silite"@,
            self == WellKnownMaterial::Phosphite ==> s@ == "Phosphite"@,
    {
        match self {
            WellKnownMaterial::Ferrite => "Ferrite",
            WellKnownMaterial::Calcium => "Calcium",
            WellKnownMaterial::Sulfurite => "Sulfurite",
            WellKnownMaterial::Prismate => "Prismate",
            WellKnownMaterial::Verdant => "Verdant",
            WellKnownMaterial::Osmium => "Osmium",
            WellKnownMaterial::Volatite => "Volatite",
            WellKnownMaterial::Cobaltine => "Cobaltine",
            WellKnownMaterial::Silite => "Silite",
            WellKnownMaterial::Phosphite => "Phosphite",
        }
    }

    /// All well-known materials in seed order.
    pub fn all() -> (ms: &'static [WellKnownMaterial])
        ensures
            ms@ == ALL_WELL_KNOWN_MATERIALS@,
    {
        &ALL_WELL_KNOWN_MATERIALS
    }
}

/// No two well-known materials share a seed.
pub proof fn lemma_well_known_seeds_unique(a: WellKnownMaterial, b: WellKnownMaterial)
    requires
        a != b,
    ensures
        well_known_seed(a) != well_known_seed(b),
{
}

/// Whether the player can perceive a property.
#[derive(Clone, Copy, Debug, PartialEq, Eq, Hash, Structural)]
pub enum PropertyVisibility {
    /// Visible on first inspection.
    Observable,
    /// Not yet visible.
    Hidden,
    /// Was hidden, uncovered by experiment.
    Revealed,
}

// ── Naming ────────────────────────────────────────────────────────────────

/// Whether some name in `names` is `n`.
pub open spec fn name_taken(names: Seq<String>, n: Seq<char>) -> bool {
    exists|i: int| 0 <= i < names.len() && (#[trigger] names[i])@ == n
}

/// `base-` followed by the four hex digits of the seed's 16-bit window
/// starting at bit `shift`.
pub open spec fn window_candidate(base: Seq<char>, seed: u64, shift: nat) -> Seq<char> {
    base + seq!['-'] + hex_digits((seed as nat / vstd::arithmetic::power2::pow2(shift)) % 0x10000, 4)
}

/// The longest of the names, in characters.
pub open spec fn max_name_len(names: Seq<String>) -> nat
    decreases names.len(),
{
    if names.len() == 0 {
        0
    } else {
        let rest = max_name_len(names.drop_last());
        let l = names.last()@.len();
        if l > rest { l } else { rest }
    }
}

proof fn lemma_max_name_len(names: Seq<String>)
    ensures
        forall|i: int| 0 <= i < names.len() ==> (#[trigger] names[i])@.len() <= max_name_len(names),
    decreases names.len(),
{
    if names.len() > 0 {
        lemma_max_name_len(names.drop_last());
        assert forall|i: int| 0 <= i < names.len() implies (#[trigger] names[i])@.len() <= max_name_len(names) by {
            if i < names.len() - 1 {
                assert(names.drop_last()[i] == names[i]);
            }
        }
    }
}

/// `c`, or, while that is taken, `c` with the seed's sixteen hex digits
/// appended again after a `-`, until the name is free.
pub open spec fn extend_until_free(c: Seq<char>, seed: u64, names: Seq<String>) -> Seq<char>
    decreases max_name_len(names) + 17 - c.len(),
{
    if !name_taken(names, c) || c.len() > max_name_len(names) {
        c
    } else {
        proof {
            lemma_hex_len(seed as nat, 16);
        }
        extend_until_free(c + seq!['-'] + hex_digits(seed as nat, 16), seed, names)
    }
}

/// `hex_digits` gives exactly `n` digits.
pub proof fn lemma_hex_len(v: nat, n: nat)
    ensures
        hex_digits(v, n).len() == n,
    decreases n,
{
    if n > 0 {
        lemma_hex_len(v / 16, (n - 1) as nat);
    }
}

/// The extended name starts with `c` and is free.
proof fn lemma_extend_until_free(c: Seq<char>, seed: u64, names: Seq<String>)
    ensures
        extend_until_free(c, seed, names).len() >= c.len(),
        extend_until_free(c, seed, names).take(c.len() as int) == c,
        !name_taken(names, extend_until_free(c, seed, names)),
    decreases max_name_len(names) + 17 - c.len(),
{
    lemma_max_name_len(names);
    lemma_hex_len(seed as nat, 16);
    if !name_taken(names, c) {
        assert(c.take(c.len() as int) =~= c);
    } else if c.len() > max_name_len(names) {
        let i = choose|i: int| 0 <= i < names.len() && (#[trigger] names[i])@ == c;
    } else {
        let d = c + seq!['-'] + hex_digits(seed as nat, 16);
        lemma_extend_until_free(d, seed, names);
        let r = extend_until_free(d, seed, names);
        assert(r.take(d.len() as int).take(c.len() as int) =~= r.take(c.len() as int));
        assert(d.take(c.len() as int) =~= c);
    }
}

/// The name a material proposing `base` receives: `base` itself when free;
/// otherwise the first free `base-xxxx` over the seed's 16-bit windows from
/// the lowest; otherwise `base-` and all sixteen hex digits of the seed,
/// with those digits appended again after a `-` until the name is free.
pub open spec fn disambiguated_spec(base: Seq<char>, seed: u64, names: Seq<String>) -> Seq<char> {
    if !name_taken(names, base) {
        base
    } else if !name_taken(names, window_candidate(base, seed, 0)) {
        window_candidate(base, seed, 0)
    } else if !name_taken(names, window_candidate(base, seed, 16)) {
        window_candidate(base, seed, 16)
    } else if !name_taken(names, window_candidate(base, seed, 32)) {
        window_candidate(base, seed, 32)
    } else if !name_taken(names, window_candidate(base, seed, 48)) {
        window_candidate(base, seed, 48)
    } else {
        extend_until_free(full_seed_name(base, seed), seed, names)
    }
}

/// The name given always starts with the proposed base name and is never
/// among the names already in use.
pub proof fn lemma_disambiguated_name_is_fresh(base: Seq<char>, seed: u64, names: Seq<String>)
    ensures
        disambiguated_spec(base, seed, names).len() >= base.len(),
        disambiguated_spec(base, seed, names).take(base.len() as int) == base,
        !name_taken(names, disambiguated_spec(base, seed, names)),
{
    let r = disambiguated_spec(base, seed, names);
    lemma_extend_until_free(full_seed_name(base, seed), seed, names);
    if r != base {
        if name_taken(names, window_candidate(base, seed, 0)) && name_taken(names, window_candidate(base, seed, 16))
            && name_taken(names, window_candidate(base, seed, 32)) && name_taken(names, window_candidate(base, seed, 48)) {
            let f = full_seed_name(base, seed);
            assert(r.take(f.len() as int).take(base.len() as int) =~= r.take(base.len() as int));
            assert(f.take(base.len() as int) =~= base);
        } else {
            let tail = r.subrange(base.len() as int, r.len() as int);
            assert(r =~= base + tail);
            assert((base + tail).take(base.len() as int) =~= base);
        }
    } else {
        assert(r.take(base.len() as int) =~= base);
    }
}

fn taken(names: &Vec<String>, n: &Vec<char>) -> (b: bool)
    ensures
        b == name_taken(names@, n@),
{
    let s = crate::text::string_of(n);
    let mut i: usize = 0;
    while i < names.len()
        invariant
            i <= names.len(),
            s@ == n@,
            forall|j: int| 0 <= j < i ==> (#[trigger] names@[j])@ != n@,
        decreases names.len() - i,
    {
        if str_eq(names[i].as_str(), s.as_str()) {
            return true;
        }
        i = i + 1;
    }
    false
}

fn window_exec(base: &Vec<char>, seed: u64, shift: u64) -> (c: Vec<char>)
    requires
        shift == 0 || shift == 16 || shift == 32 || shift == 48,
    ensures
        c@ == window_candidate(base@, seed, shift as nat),
{
    let mut c = base.clone();
    c.push('-');
    let div: u64 = if shift == 0 {
        1
    } else if shift == 16 {
        0x1_0000
    } else if shift == 32 {
        0x1_0000_0000
    } else {
        0x1_0000_0000_0000
    };
    proof {
        vstd::arithmetic::power2::lemma2_to64();
        vstd::arithmetic::power2::lemma2_to64_rest();
    }
    let fragment = (seed / div) % 0x10000;
    push_hex(&mut c, fragment, 4);
    c
}

/// The name a material proposing `base_name` receives in a catalog whose
/// names are `existing` (see [`disambiguated_spec`]).
pub fn disambiguated_name(base_name: &str, seed: MaterialSeed, existing: &Vec<String>) -> (n: String)
    ensures
        n@ == disambiguated_spec(base_name@, seed.0, existing@),
{
    let base = chars_of(base_name);
    if !taken(existing, &base) {
        return crate::text::string_of(&base);
    }
    let mut shift: u64 = 0;
    while shift < 64
        invariant
            shift == 0 || shift == 16 || shift == 32 || shift == 48 || shift == 64,
            base@ == base_name@,
            name_taken(existing@, base@),
            shift >= 16 ==> name_taken(existing@, window_candidate(base@, seed.0, 0)),
            shift >= 32 ==> name_taken(existing@, window_candidate(base@, seed.0, 16)),
            shift >= 48 ==> name_taken(existing@, window_candidate(base@, seed.0, 32)),
            shift >= 64 ==> name_taken(existing@, window_candidate(base@, seed.0, 48)),
        decreases 64 - shift,
    {
        let c = window_exec(&base, seed.0, shift);
        if !taken(existing, &c) {
            proof {
                let spec = disambiguated_spec(base_name@, seed.0, existing@);
                if shift == 0 {
                    assert(spec == c@);
                } else if shift == 16 {
                    assert(spec == c@);
                } else if shift == 32 {
                    assert(spec == c@);
                } else {
                    assert(spec == c@);
                }
            }
            return crate::text::string_of(&c);
        }
        shift = shift + 16;
    }
    let mut c = base.clone();
    c.push('-');
    push_hex(&mut c, seed.0, 16);
    assert(c@ =~= full_seed_name(base@, seed.0));
    proof {
        lemma_max_name_len(existing@);
        lemma_hex_len(seed.0 as nat, 16);
    }
    while taken(existing, &c)
        invariant
            extend_until_free(c@, seed.0, existing@) == disambiguated_spec(base_name@, seed.0, existing@),
            forall|i: int| 0 <= i < existing@.len() ==> (#[trigger] existing@[i])@.len() <= max_name_len(existing@),
            hex_digits(seed.0 as nat, 16).len() == 16,
        decreases max_name_len(existing@) + 17 - c@.len(),
    {
        let ghost c0 = c@;
        proof {
            let i = choose|i: int| 0 <= i < existing@.len() && (#[trigger] existing@[i])@ == c@;
            assert(c0.len() <= max_name_len(existing@));
        }
        c.push('-');
        push_hex(&mut c, seed.0, 16);
        assert(c@ =~= c0 + seq!['-'] + hex_digits(seed.0 as nat, 16));
        assert(extend_until_free(c0, seed.0, existing@) == extend_until_free(c@, seed.0, existing@));
    }
    crate::text::string_of(&c)
}

// ── Catalog ───────────────────────────────────────────────────────────────

/// One registered material.
#[derive(Debug)]
pub struct CatalogEntry<M> {
    /// The material's seed.
    pub seed: MaterialSeed,
    /// The name it was registered under.
    pub name: String,
    /// The material itself.
    pub material: M,
}

/// The registered materials, at most one per seed, in registration order.
#[derive(Debug)]
pub struct MaterialCatalog<M> {
    entries: Vec<CatalogEntry<M>>,
}

/// No two entries share a seed.
pub open spec fn seeds_distinct<M>(es: Seq<CatalogEntry<M>>) -> bool {
    forall|i: int, j: int| 0 <= i < j < es.len() ==> es[i].seed != es[j].seed
}

/// The names of the entries, in order.
pub open spec fn entry_names<M>(es: Seq<CatalogEntry<M>>) -> Seq<String> {
    Seq::new(es.len(), |i: int| es[i].name)
}

/// No two entries carry the same name.
pub open spec fn names_distinct<M>(es: Seq<CatalogEntry<M>>) -> bool {
    forall|i: int, j: int| 0 <= i < j < es.len() ==> es[i].name@ != es[j].name@
}

/// The name a registration falls back to when every shorter candidate is
/// taken: the base, `-`, and all sixteen hex digits of the seed.
pub open spec fn full_seed_name(base: Seq<char>, seed: u64) -> Seq<char> {
    base + seq!['-'] + hex_digits(seed as nat, 16)
}

/// Registering under a fresh seed keeps the catalog's names distinct.
pub proof fn lemma_register_keeps_names_distinct<M>(
    es: Seq<CatalogEntry<M>>,
    added: CatalogEntry<M>,
    base: Seq<char>,
    seed: u64,
)
    requires
        names_distinct(es),
        added.name@ == disambiguated_spec(base, seed, entry_names(es)),
    ensures
        names_distinct(es.push(added)),
{
    lemma_disambiguated_name_is_fresh(base, seed, entry_names(es));
    let r = es.push(added);
    assert forall|i: int, j: int| 0 <= i < j < r.len() implies r[i].name@ != r[j].name@ by {
        if j == es.len() {
            assert(entry_names(es)[i] == es[i].name);
            if r[i].name@ == r[j].name@ {
                assert(name_taken(entry_names(es), added.name@));
            }
        } else {
            assert(r[i] == es[i] && r[j] == es[j]);
        }
    }
}

impl<M> MaterialCatalog<M> {
    /// The entries in registration order.
    pub closed spec fn entries_view(&self) -> Seq<CatalogEntry<M>> {
        self.entries@
    }

    /// Seeds are distinct.
    pub closed spec fn wf(&self) -> bool {
        seeds_distinct(self.entries@) && names_distinct(self.entries@)
    }

    /// An empty catalog.
    pub fn new() -> (c: Self)
        ensures
            c.wf(),
            c.entries_view().len() == 0,
    {
        MaterialCatalog { entries: Vec::new() }
    }

    fn position_of_seed(&self, seed: MaterialSeed) -> (r: Option<usize>)
        ensures
            match r {
                Some(i) => i < self.entries_view().len() && self.entries_view()[i as int].seed
                    == seed,
                None => forall|i: int|
                    0 <= i < self.entries_view().len() ==> (#[trigger] self.entries_view()[i]).seed
                        != seed,
            },
    {
        let mut i: usize = 0;
        while i < self.entries.len()
            invariant
                i <= self.entries.len(),
                forall|j: int| 0 <= j < i ==> (#[trigger] self.entries@[j]).seed != seed,
            decreases self.entries.len() - i,
        {
            if self.entries[i].seed.0 == seed.0 {
                return Some(i);
            }
            i = i + 1;
        }
        None
    }

    fn names_vec(&self) -> (v: Vec<String>)
        ensures
            v@ == entry_names(self.entries_view()),
    {
        let mut v: Vec<String> = Vec::new();
        let mut i: usize = 0;
        while i < self.entries.len()
            invariant
                i <= self.entries.len(),
                v@ == entry_names(self.entries@).take(i as int),
            decreases self.entries.len() - i,
        {
            v.push(self.entries[i].name.clone());
            i = i + 1;
            assert(v@ =~= entry_names(self.entries@).take(i as int));
        }
        assert(v@ =~= entry_names(self.entries@));
        v
    }

    /// Registers `material` under `seed`. When the seed is already
    /// registered, nothing changes and the existing entry is returned;
    /// otherwise the material is appended under the name
    /// [`disambiguated_name`] gives `base_name`, and the new entry is
    /// returned.
    pub fn register(&mut self, seed: MaterialSeed, base_name: &str, material: M) -> (e:
        &CatalogEntry<M>)
        requires
            old(self).wf(),
        ensures
            final(self).wf(),
            (exists|i: int|
                0 <= i < old(self).entries_view().len() && (#[trigger] old(
                    self,
                ).entries_view()[i]).seed == seed) ==> {
                &&& final(self).entries_view() == old(self).entries_view()
                &&& exists|i: int|
                    0 <= i < old(self).entries_view().len() && (#[trigger] old(
                        self,
                    ).entries_view()[i]).seed == seed && *e == old(self).entries_view()[i]
            },
            (forall|i: int|
                0 <= i < old(self).entries_view().len() ==> (#[trigger] old(
                    self,
                ).entries_view()[i]).seed != seed) ==> {
                &&& final(self).entries_view().len() == old(self).entries_view().len() + 1
                &&& final(self).entries_view().take(old(self).entries_view().len() as int) == old(
                    self,
                ).entries_view()
                &&& *e == final(self).entries_view().last()
                &&& e.seed == seed
                &&& e.name@ == disambiguated_spec(
                    base_name@,
                    seed.0,
                    entry_names(old(self).entries_view()),
                )
                &&& e.material == material
            },
            names_distinct(final(self).entries_view()),
            !name_taken(entry_names(old(self).entries_view()), e.name@) || (exists|i: int|
                0 <= i < old(self).entries_view().len() && (#[trigger] old(self).entries_view()[i]).seed == seed),
    {
        match self.position_of_seed(seed) {
            Some(i) => &self.entries[i],
            None => {
                let names = self.names_vec();
                let name = disambiguated_name(base_name, seed, &names);
                let ghost before = self.entries@;
                self.entries.push(CatalogEntry { seed, name, material });
                assert(self.entries@.take(before.len() as int) =~= before);
                proof {
                    assert(self.entries@ =~= before.push(self.entries@.last()));
                    lemma_register_keeps_names_distinct(
                        before,
                        self.entries@.last(),
                        base_name@,
                        seed.0,
                    );
                    lemma_disambiguated_name_is_fresh(base_name@, seed.0, entry_names(before));
                }
                let n = self.entries.len();
                &self.entries[n - 1]
            },
        }
    }

    /// The entry registered under `seed`, if any.
    pub fn get_by_seed(&self, seed: MaterialSeed) -> (r: Option<&CatalogEntry<M>>)
        requires
            self.wf(),
        ensures
            r is None <==> forall|i: int|
                0 <= i < self.entries_view().len() ==> (#[trigger] self.entries_view()[i]).seed
                    != seed,
            r matches Some(e) ==> exists|i: int|
                0 <= i < self.entries_view().len() && *e == #[trigger] self.entries_view()[i]
                    && e.seed == seed,
    {
        match self.position_of_seed(seed) {
            Some(i) => Some(&self.entries[i]),
            None => None,
        }
    }

    /// The most recently registered entry named `name`, if any.
    pub fn get_by_name(&self, name: &str) -> (r: Option<&CatalogEntry<M>>)
        ensures
            r is None <==> !name_taken(entry_names(self.entries_view()), name@),
            r matches Some(e) ==> exists|i: int|
                0 <= i < self.entries_view().len() && *e == #[trigger] self.entries_view()[i]
                    && e.name@ == name@ && forall|j: int|
                    i < j < self.entries_view().len() ==> (#[trigger] self.entries_view()[j]).name@
                        != name@,
    {
        let mut i: usize = self.entries.len();
        while i > 0
            invariant
                i <= self.entries.len(),
                forall|j: int| i <= j < self.entries@.len() ==> (#[trigger] self.entries@[j]).name@ != name@,
            decreases i,
        {
            if str_eq(self.entries[i - 1].name.as_str(), name) {
                let ghost k = (i - 1) as int;
                assert(entry_names(self.entries@)[k] == self.entries@[k].name);
                assert(self.entries_view()[k] == self.entries@[k]);
                assert(forall|j: int|
                    k < j < self.entries_view().len() ==> (#[trigger] self.entries_view()[j]).name@
                        != name@);
                return Some(&self.entries[i - 1]);
            }
            i = i - 1;
        }
        proof {
            if name_taken(entry_names(self.entries@), name@) {
                let j = choose|j: int| 0 <= j < entry_names(self.entries@).len() && (#[trigger] entry_names(self.entries@)[j])@ == name@;
                assert(self.entries@[j].name@ == name@);
            }
        }
        None
    }

    /// Number of registered materials.
    pub fn len(&self) -> (n: usize)
        ensures
            n == self.entries_view().len(),
    {
        self.entries.len()
    }

    /// Whether no material is registered.
    pub fn is_empty(&self) -> (b: bool)
        ensures
            b == (self.entries_view().len() == 0),
    {
        self.entries.len() == 0
    }

    /// The registered materials, in registration order.
    pub fn values(&self) -> (v: Vec<&M>)
        ensures
            v@.len() == self.entries_view().len(),
            forall|i: int| 0 <= i < v@.len() ==> *v@[i] == (#[trigger] self.entries_view()[i]).material,
    {
        let mut v: Vec<&M> = Vec::new();
        let mut i: usize = 0;
        while i < self.entries.len()
            invariant
                i <= self.entries.len(),
                v@.len() == i,
                forall|j: int| 0 <= j < i ==> *v@[j] == (#[trigger] self.entries@[j]).material,
            decreases self.entries.len() - i,
        {
            v.push(&self.entries[i].material);
            i = i + 1;
        }
        v
    }

    /// The registered seeds, in registration order.
    pub fn seeds(&self) -> (v: Vec<MaterialSeed>)
        ensures
            v@.len() == self.entries_view().len(),
            forall|i: int| 0 <= i < v@.len() ==> v@[i] == (#[trigger] self.entries_view()[i]).seed,
    {
        let mut v: Vec<MaterialSeed> = Vec::new();
        let mut i: usize = 0;
        while i < self.entries.len()
            invariant
                i <= self.entries.len(),
                v@.len() == i,
                forall|j: int| 0 <= j < i ==> v@[j] == (#[trigger] self.entries@[j]).seed,
            decreases self.entries.len() - i,
        {
            v.push(self.entries[i].seed);
            i = i + 1;
        }
        v
    }

    /// The names in use, each once, in order of first registration.
    pub fn names(&self) -> (v: Vec<String>)
        ensures
            forall|n: Seq<char>| name_taken(v@, n) <==> name_taken(entry_names(self.entries_view()), n),
            forall|i: int, j: int| 0 <= i < j < v@.len() ==> v@[i]@ != v@[j]@,
    {
        let mut v: Vec<String> = Vec::new();
        let mut i: usize = 0;
        while i < self.entries.len()
            invariant
                i <= self.entries.len(),
                forall|n: Seq<char>| name_taken(v@, n) <==> name_taken(entry_names(self.entries@).take(i as int), n),
                forall|a: int, b: int| 0 <= a < b < v@.len() ==> v@[a]@ != v@[b]@,
            decreases self.entries.len() - i,
        {
            let nm = &self.entries[i].name;
            let c = chars_of(nm.as_str());
            let ghost pre = entry_names(self.entries@).take(i as int);
            let ghost now = entry_names(self.entries@).take(i + 1);
            assert(now =~= pre.push(self.entries@[i as int].name));
            let ghost v0 = v@;
            let pushed = !taken(&v, &c);
            if pushed {
                v.push(nm.clone());
            }
            assert forall|n: Seq<char>| name_taken(v@, n) <==> name_taken(now, n) by {
                if name_taken(now, n) {
                    let j = choose|j: int| 0 <= j < now.len() && (#[trigger] now[j])@ == n;
                    if j < pre.len() {
                        assert(pre[j] == now[j]);
                        assert(name_taken(pre, n));
                        assert(name_taken(v0, n));
                        let t = choose|t: int| 0 <= t < v0.len() && (#[trigger] v0[t])@ == n;
                        assert(v@[t] == v0[t]);
                    } else {
                        assert(nm@ == n);
                        if pushed {
                            assert(v@[v0.len() as int]@ == n);
                        } else {
                            assert(name_taken(v0, n));
                            let t = choose|t: int| 0 <= t < v0.len() && (#[trigger] v0[t])@ == n;
                            assert(v@[t] == v0[t]);
                        }
                    }
                }
                if name_taken(v@, n) {
                    let t = choose|t: int| 0 <= t < v@.len() && (#[trigger] v@[t])@ == n;
                    if t < v0.len() {
                        assert(v0[t] == v@[t]);
                        assert(name_taken(v0, n));
                        assert(name_taken(pre, n));
                        let j = choose|j: int| 0 <= j < pre.len() && (#[trigger] pre[j])@ == n;
                        assert(now[j] == pre[j]);
                    } else {
                        assert(now[i as int] == self.entries@[i as int].name);
                    }
                }
            }
            assert forall|a: int, b: int| 0 <= a < b < v@.len() implies v@[a]@ != v@[b]@ by {
                if pushed && b == v0.len() {
                    assert(v@[a] == v0[a]);
                    assert(!name_taken(v0, c@));
                }
            }
            i = i + 1;
        }
        assert(entry_names(self.entries@).take(i as int) =~= entry_names(self.entries@));
        v
    }
}

impl<M> Default for MaterialCatalog<M> {
    fn default() -> (c: Self)
        ensures
            c.wf(),
            c.entries_view().len() == 0,
    {
        Self::new()
    }
}

} // verus!
