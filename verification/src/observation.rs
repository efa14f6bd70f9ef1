//! Observation confidence: how sure the player is about a material
//! property, earned by repeating experiments, and the wording that conveys
//! it without showing numbers.

use std::collections::HashMap;
use vstd::prelude::*;
use crate::text::concat2;

verus! {

broadcast use vstd::std_specs::hash::group_hash_axioms;

/// Qualitative confidence, from fewest to most observations.
#[derive(Clone, Copy, Debug, PartialEq, Eq, Structural, PartialOrd, Ord, Hash)]
pub enum ConfidenceLevel {
    /// At most one observation.
    Tentative,
    /// Two or three observations.
    Observed,
    /// Four or more observations.
    Confident,
}

/// Rank of a level: 0, 1, 2 from `Tentative` to `Confident`.
pub open spec fn confidence_rank(c: ConfidenceLevel) -> int {
    match c {
        ConfidenceLevel::Tentative => 0,
        ConfidenceLevel::Observed => 1,
        ConfidenceLevel::Confident => 2,
    }
}

/// The level that `count` observations earn.
pub open spec fn level_for_count(count: u32) -> ConfidenceLevel {
    if count <= 1 {
        ConfidenceLevel::Tentative
    } else if count <= 3 {
        ConfidenceLevel::Observed
    } else {
        ConfidenceLevel::Confident
    }
}

impl ConfidenceLevel {
    /// The level that `count` observations earn: 0 or 1 is tentative, 2 or
    /// 3 observed, 4 and more confident.
    pub fn from_count(count: u32) -> (c: Self)
        ensures
            c == level_for_count(count),
    {
        if count <= 1 {
            ConfidenceLevel::Tentative
        } else if count <= 3 {
            ConfidenceLevel::Observed
        } else {
            ConfidenceLevel::Confident
        }
    }

    /// Wording shown in the journal for the level.
    pub fn display_label(self) -> (s: &'static str)
        ensures
            self == ConfidenceLevel::Tentative ==> s@ == "Uncertain"@,
            self == ConfidenceLevel::Observed ==> s@ == "Noted"@,
            self == ConfidenceLevel::Confident ==> s@ == "Confirmed"@,
    {
        match self {
            ConfidenceLevel::Tentative => "Uncertain",
            ConfidenceLevel::Observed => "Noted",
            ConfidenceLevel::Confident => "Confirmed",
        }
    }
}

/// More observations never earn a lower level.
pub proof fn lemma_level_monotone(a: u32, b: u32)
    requires
        a <= b,
    ensures
        confidence_rank(level_for_count(a)) <= confidence_rank(level_for_count(b)),
{
}

/// Properties that can be observed by environmental testing.
#[derive(Clone, Copy, Debug, PartialEq, Eq, Structural, Hash)]
pub enum PropertyName {
    /// Mass per unit volume.
    Density,
    /// Resistance to heat transfer.
    ThermalResistance,
    /// Tendency to react chemically.
    Reactivity,
    /// Electrical conductivity.
    Conductivity,
    /// Harm to living things.
    Toxicity,
}

/// The observation counts of one material, one per property.
#[derive(Clone, Copy, Debug, PartialEq, Eq, Structural)]
pub struct PropertyCounts {
    /// Count for [`PropertyName::Density`].
    pub density: u32,
    /// Count for [`PropertyName::ThermalResistance`].
    pub thermal_resistance: u32,
    /// Count for [`PropertyName::Reactivity`].
    pub reactivity: u32,
    /// Count for [`PropertyName::Conductivity`].
    pub conductivity: u32,
    /// Count for [`PropertyName::Toxicity`].
    pub toxicity: u32,
}

impl PropertyCounts {
    /// The count stored for `p`.
    pub open spec fn of(self, p: PropertyName) -> u32 {
        match p {
            PropertyName::Density => self.density,
            PropertyName::ThermalResistance => self.thermal_resistance,
            PropertyName::Reactivity => self.reactivity,
            PropertyName::Conductivity => self.conductivity,
            PropertyName::Toxicity => self.toxicity,
        }
    }

    /// All counts zero.
    pub fn zero() -> (c: Self)
        ensures
            forall|p: PropertyName| #[trigger] c.of(p) == 0,
    {
        PropertyCounts {
            density: 0,
            thermal_resistance: 0,
            reactivity: 0,
            conductivity: 0,
            toxicity: 0,
        }
    }

    /// The count stored for `p`.
    pub fn get(&self, p: PropertyName) -> (n: u32)
        ensures
            n == self.of(p),
    {
        match p {
            PropertyName::Density => self.density,
            PropertyName::ThermalResistance => self.thermal_resistance,
            PropertyName::Reactivity => self.reactivity,
            PropertyName::Conductivity => self.conductivity,
            PropertyName::Toxicity => self.toxicity,
        }
    }

    /// These counts with the one for `p` replaced by `n`.
    pub fn with(self, p: PropertyName, n: u32) -> (c: Self)
        ensures
            c.of(p) == n,
            forall|q: PropertyName| q != p ==> #[trigger] c.of(q) == self.of(q),
    {
        let mut c = self;
        match p {
            PropertyName::Density => c.density = n,
            PropertyName::ThermalResistance => c.thermal_resistance = n,
            PropertyName::Reactivity => c.reactivity = n,
            PropertyName::Conductivity => c.conductivity = n,
            PropertyName::Toxicity => c.toxicity = n,
        }
        c
    }
}

/// How many times the player observed each (material seed, property) pair.
#[derive(Debug)]
pub struct ConfidenceTracker {
    counts: HashMap<u64, PropertyCounts>,
}

impl ConfidenceTracker {
    /// The recorded count for a material and property (0 when never
    /// observed).
    pub closed spec fn count_of(&self, seed: u64, property: PropertyName) -> u32 {
        if self.counts@.contains_key(seed) {
            self.counts@[seed].of(property)
        } else {
            0
        }
    }

    /// A tracker with nothing observed.
    pub fn new() -> (t: Self)
        ensures
            forall|s: u64, p: PropertyName| #[trigger] t.count_of(s, p) == 0,
    {
        ConfidenceTracker { counts: HashMap::new() }
    }

    /// Records one more observation of `property` on material `seed` and
    /// returns the new count.
    pub fn record(&mut self, seed: u64, property: PropertyName) -> (n: u32)
        requires
            old(self).count_of(seed, property) < u32::MAX,
        ensures
            n == old(self).count_of(seed, property) + 1,
            final(self).count_of(seed, property) == n,
            forall|s: u64, p: PropertyName|
                !(s == seed && p == property) ==> #[trigger] final(self).count_of(s, p)
                    == old(self).count_of(s, p),
    {
        let current = match self.counts.get(&seed) {
            Some(c) => *c,
            None => PropertyCounts::zero(),
        };
        let n = current.get(property) + 1;
        self.counts.insert(seed, current.with(property, n));
        n
    }

    /// The recorded count for a material and property (0 when never
    /// observed).
    pub fn count(&self, seed: u64, property: PropertyName) -> (n: u32)
        ensures
            n == self.count_of(seed, property),
    {
        match self.counts.get(&seed) {
            Some(c) => c.get(property),
            None => 0,
        }
    }

    /// The confidence level the recorded count earns.
    pub fn level(&self, seed: u64, property: PropertyName) -> (c: ConfidenceLevel)
        ensures
            c == level_for_count(self.count_of(seed, property)),
    {
        ConfidenceLevel::from_count(self.count(seed, property))
    }
}

impl Default for ConfidenceTracker {
    fn default() -> (t: Self)
        ensures
            forall|s: u64, p: PropertyName| #[trigger] t.count_of(s, p) == 0,
    {
        Self::new()
    }
}

// ── Weight wording ────────────────────────────────────────────────────────

/// The lowercase form of `s`, as `str::to_lowercase` maps it (full Unicode
/// case mapping).
pub uninterp spec fn lowercase_of(s: Seq<char>) -> Seq<char>;

/// `str::to_lowercase`. The contract names the result as a function of the
/// characters of `s` alone; the Unicode case mapping is not restated.
#[verifier::external_body]
fn to_lowercase(s: &str) -> (r: String)
    ensures
        r@ == lowercase_of(s@),
{
    s.to_lowercase()
}

/// Wording of a weight observation, given the band's text `base` and its
/// lowercase form `lowered`: tentative observations read "Seemed " followed
/// by the lowercase text, firmer ones the text itself.
pub fn weight_phrase(base: &str, lowered: &str, confidence: ConfidenceLevel) -> (s: String)
    ensures
        confidence == ConfidenceLevel::Tentative ==> s@ == "Seemed "@ + lowered@,
        confidence != ConfidenceLevel::Tentative ==> s@ == base@,
{
    match confidence {
        ConfidenceLevel::Tentative => concat2("Seemed ", lowered),
        _ => String::from_str(base),
    }
}

/// Wording of a weight observation whose description band reads `base`.
pub fn describe_weight_observation(base: &str, confidence: ConfidenceLevel) -> (s: String)
    ensures
        confidence == ConfidenceLevel::Tentative ==> s@ == "Seemed "@ + lowercase_of(base@),
        confidence != ConfidenceLevel::Tentative ==> s@ == base@,
{
    let lowered = to_lowercase(base);
    weight_phrase(base, lowered.as_str(), confidence)
}

} // verus!
