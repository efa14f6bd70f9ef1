//! The player's journal: entries keyed by what was observed, the
//! observations recorded on each, filtering, and the panel's selection
//! bookkeeping.

use vstd::prelude::*;
use crate::observation::{ConfidenceLevel, confidence_rank};
use crate::text::{chars_of, seq_lt, str_eq, str_lt};

verus! {

/// What a journal entry is about.
#[derive(Clone, Copy, Debug, PartialEq, Eq, Structural, PartialOrd, Ord, Hash)]
pub enum JournalKey {
    /// A material, with the planet it was observed on when known.
    Material {
        /// Material seed.
        seed: u64,
        /// Seed of the planet where it was observed, if recorded.
        planet_seed: Option<u64>,
    },
    /// A fabricated output.
    Fabrication {
        /// Seed of the fabricated material.
        output_seed: u64,
    },
}

/// `None` before every `Some`, `Some` values by their number.
pub open spec fn opt_lt(a: Option<u64>, b: Option<u64>) -> bool {
    match (a, b) {
        (None, Some(_)) => true,
        (Some(x), Some(y)) => x < y,
        _ => false,
    }
}

/// The order of keys: materials before fabrications; materials by seed,
/// then planet seed; fabrications by output seed.
pub open spec fn key_lt(a: JournalKey, b: JournalKey) -> bool {
    match (a, b) {
        (
            JournalKey::Material { seed: s1, planet_seed: p1 },
            JournalKey::Material { seed: s2, planet_seed: p2 },
        ) => s1 < s2 || (s1 == s2 && opt_lt(p1, p2)),
        (JournalKey::Material { .. }, JournalKey::Fabrication { .. }) => true,
        (JournalKey::Fabrication { .. }, JournalKey::Material { .. }) => false,
        (
            JournalKey::Fabrication { output_seed: o1 },
            JournalKey::Fabrication { output_seed: o2 },
        ) => o1 < o2,
    }
}

/// `key_lt` is a strict total order.
pub proof fn lemma_key_order(a: JournalKey, b: JournalKey, c: JournalKey)
    ensures
        !key_lt(a, a),
        key_lt(a, b) ==> !key_lt(b, a),
        key_lt(a, b) && key_lt(b, c) ==> key_lt(a, c),
        a != b ==> key_lt(a, b) || key_lt(b, a),
{
}

impl JournalKey {
    /// The planet seed recorded on the key: a material's, if any; never
    /// for a fabrication.
    pub fn planet_seed(&self) -> (r: Option<u64>)
        ensures
            r == (match *self {
                JournalKey::Material { planet_seed, .. } => planet_seed,
                JournalKey::Fabrication { .. } => None,
            }),
    {
        match self {
            JournalKey::Material { planet_seed, .. } => *planet_seed,
            JournalKey::Fabrication { .. } => None,
        }
    }
}

/// Whether `a` orders before `b`.
pub fn key_less(a: &JournalKey, b: &JournalKey) -> (r: bool)
    ensures
        r == key_lt(*a, *b),
{
    match (a, b) {
        (
            JournalKey::Material { seed: s1, planet_seed: p1 },
            JournalKey::Material { seed: s2, planet_seed: p2 },
        ) => {
            if *s1 != *s2 {
                *s1 < *s2
            } else {
                match (p1, p2) {
                    (None, Some(_)) => true,
                    (Some(x), Some(y)) => *x < *y,
                    _ => false,
                }
            }
        },
        (JournalKey::Material { .. }, JournalKey::Fabrication { .. }) => true,
        (JournalKey::Fabrication { .. }, JournalKey::Material { .. }) => false,
        (
            JournalKey::Fabrication { output_seed: o1 },
            JournalKey::Fabrication { output_seed: o2 },
        ) => *o1 < *o2,
    }
}

/// Kinds of observation.
#[derive(Clone, Copy, Debug, PartialEq, Eq, Structural, PartialOrd, Ord, Hash)]
pub enum ObservationCategory {
    /// How the surface looks and feels.
    SurfaceAppearance,
    /// How the material behaves under heat.
    ThermalBehavior,
    /// How heavy it felt to carry.
    Weight,
    /// The outcome of a fabrication.
    FabricationResult,
    /// Where it was found.
    LocationNote,
    /// How it can be put to use.
    Exploitation,
}

/// One thing the player noticed.
#[derive(Clone, Debug)]
pub struct Observation {
    /// Kind of observation.
    pub category: ObservationCategory,
    /// How sure the player is.
    pub confidence: ConfidenceLevel,
    /// The wording shown.
    pub description: String,
    /// Tick at which it was recorded.
    pub recorded_at: u64,
}

/// Everything the journal holds about one subject.
#[derive(Clone, Debug)]
pub struct JournalEntry {
    /// The subject.
    pub key: JournalKey,
    /// Display name (the first name given wins).
    pub name: String,
    /// Observations, in the order first recorded; no two share both
    /// category and description.
    pub observations: Vec<Observation>,
    /// Tick of the first observation.
    pub first_observed_at: u64,
    /// Tick of the latest observation.
    pub last_updated_at: u64,
}

/// Whether `obs` repeats an observation already at position `i`.
pub open spec fn same_finding(a: Observation, b: Observation) -> bool {
    a.category == b.category && a.description@ == b.description@
}

/// Position of the first observation of `obs` that `o` repeats, if any.
pub open spec fn finding_index(obs: Seq<Observation>, o: Observation) -> Option<int>
    decreases obs.len(),
{
    if obs.len() == 0 {
        None
    } else {
        match finding_index(obs.drop_last(), o) {
            Some(i) => Some(i),
            None => if same_finding(obs.last(), o) {
                Some(obs.len() - 1)
            } else {
                None
            },
        }
    }
}

/// The observation list after adding `o`: a repeat of an existing
/// finding only raises that finding's confidence (never lowers it), a new
/// finding is appended.
pub open spec fn add_finding(obs: Seq<Observation>, o: Observation) -> Seq<Observation> {
    match finding_index(obs, o) {
        Some(i) => if confidence_rank(o.confidence) > confidence_rank(obs[i].confidence) {
            obs.update(i, Observation { confidence: o.confidence, ..obs[i] })
        } else {
            obs
        },
        None => obs.push(o),
    }
}

proof fn lemma_finding_index_bounds(obs: Seq<Observation>, o: Observation)
    ensures
        finding_index(obs, o) matches Some(i) ==> 0 <= i < obs.len() && same_finding(obs[i], o)
            && forall|j: int| 0 <= j < i ==> !same_finding(#[trigger] obs[j], o),
        finding_index(obs, o) is None ==> forall|j: int|
            0 <= j < obs.len() ==> !same_finding(#[trigger] obs[j], o),
    decreases obs.len(),
{
    if obs.len() > 0 {
        lemma_finding_index_bounds(obs.drop_last(), o);
        assert forall|j: int| 0 <= j < obs.len() - 1 implies obs.drop_last()[j] == obs[j] by {}
    }
}

/// No two observations of the list record the same finding.
pub open spec fn findings_distinct(obs: Seq<Observation>) -> bool {
    forall|i: int, j: int| 0 <= i < j < obs.len() ==> !same_finding(obs[i], obs[j])
}

/// Adding an observation keeps the findings of a list distinct, and a
/// finding already on the list is never stored twice: the list keeps its
/// length, every observation keeps its category and description, and no
/// confidence goes down.
pub proof fn lemma_add_finding_keeps_findings_distinct(obs: Seq<Observation>, o: Observation)
    requires
        findings_distinct(obs),
    ensures
        findings_distinct(add_finding(obs, o)),
        (exists|i: int| 0 <= i < obs.len() && same_finding(obs[i], o)) ==> {
            let r = add_finding(obs, o);
            &&& r.len() == obs.len()
            &&& forall|j: int|
                0 <= j < obs.len() ==> same_finding(#[trigger] r[j], obs[j]) && confidence_rank(
                    r[j].confidence,
                ) >= confidence_rank(obs[j].confidence)
        },
{
    lemma_finding_index_bounds(obs, o);
    let r = add_finding(obs, o);
    match finding_index(obs, o) {
        Some(i) => {
            assert forall|a: int, b: int| 0 <= a < b < r.len() implies !same_finding(
                r[a],
                r[b],
            ) by {
                assert(same_finding(r[a], obs[a]) && same_finding(r[b], obs[b]));
            }
        },
        None => {
            assert(r == obs.push(o));
            assert forall|a: int, b: int| 0 <= a < b < r.len() implies !same_finding(
                r[a],
                r[b],
            ) by {
                assert(r[a] == obs[a]);
                if b == obs.len() {
                    assert(r[b] == o);
                    assert(!same_finding(obs[a], o));
                } else {
                    assert(r[b] == obs[b]);
                }
            }
        },
    }
}

fn category_eq(a: ObservationCategory, b: ObservationCategory) -> (r: bool)
    ensures
        r == (a == b),
{
    a == b
}

fn confidence_number(c: ConfidenceLevel) -> (r: u8)
    ensures
        r as int == confidence_rank(c),
{
    match c {
        ConfidenceLevel::Tentative => 0,
        ConfidenceLevel::Observed => 1,
        ConfidenceLevel::Confident => 2,
    }
}

impl JournalEntry {
    /// A fresh entry with no observations, first seen at `tick`.
    pub fn new(key: JournalKey, name: String, tick: u64) -> (e: Self)
        ensures
            e.key == key,
            e.name@ == name@,
            e.observations@.len() == 0,
            e.first_observed_at == tick,
            e.last_updated_at == tick,
    {
        JournalEntry {
            key,
            name,
            observations: Vec::new(),
            first_observed_at: tick,
            last_updated_at: tick,
        }
    }

    /// Adds an observation. A repeat of an existing finding (same category
    /// and description) is not stored twice: it only raises that
    /// finding's confidence when the new one is higher. Either way the
    /// entry's update time becomes the observation's time.
    pub fn add_observation(&mut self, observation: Observation)
        ensures
            final(self).observations@ == add_finding(old(self).observations@, observation),
            final(self).last_updated_at == observation.recorded_at,
            final(self).key == old(self).key,
            final(self).name == old(self).name,
            final(self).first_observed_at == old(self).first_observed_at,
    {
        let ghost obs0 = self.observations@;
        proof {
            lemma_finding_index_bounds(obs0, observation);
        }
        self.last_updated_at = observation.recorded_at;
        let mut i: usize = 0;
        while i < self.observations.len()
            invariant
                i <= self.observations.len(),
                self.observations@ == obs0,
                forall|j: int| 0 <= j < i ==> !same_finding(#[trigger] obs0[j], observation),
                finding_index(obs0, observation) matches Some(k) ==> i <= k,
                obs0 == old(self).observations@,
                self.last_updated_at == observation.recorded_at,
                self.key == old(self).key,
                self.name == old(self).name,
                self.first_observed_at == old(self).first_observed_at,
            decreases self.observations.len() - i,
        {
            proof {
                lemma_finding_index_bounds(obs0, observation);
            }
            if category_eq(self.observations[i].category, observation.category) && str_eq(
                self.observations[i].description.as_str(),
                observation.description.as_str(),
            ) {
                assert(finding_index(obs0, observation) == Some(i as int));
                if confidence_number(observation.confidence) > confidence_number(
                    self.observations[i].confidence,
                ) {
                    let mut existing = self.observations.remove(i);
                    existing.confidence = observation.confidence;
                    self.observations.insert(i, existing);
                    assert(self.observations@ =~= obs0.update(
                        i as int,
                        Observation { confidence: observation.confidence, ..obs0[i as int] },
                    ));
                }
                return;
            }
            i = i + 1;
        }
        assert(finding_index(obs0, observation) is None);
        self.observations.push(observation);
    }

    /// Number of stored observations.
    pub fn observation_count(&self) -> (n: usize)
        ensures
            n == self.observations@.len(),
    {
        self.observations.len()
    }

    /// The observations of one category, in stored order.
    pub fn observations_by_category(&self, category: &ObservationCategory) -> (r: Vec<
        &Observation,
    >)
        ensures
            r@.len() == of_category(self.observations@, *category).len(),
            forall|k: int|
                0 <= k < r@.len() ==> *r@[k] == #[trigger] of_category(
                    self.observations@,
                    *category,
                )[k],
    {
        let mut r: Vec<&Observation> = Vec::new();
        let mut i: usize = 0;
        while i < self.observations.len()
            invariant
                i <= self.observations.len(),
                r@.len() == of_category(self.observations@.take(i as int), *category).len(),
                forall|k: int|
                    0 <= k < r@.len() ==> *r@[k] == #[trigger] of_category(
                        self.observations@.take(i as int),
                        *category,
                    )[k],
            decreases self.observations.len() - i,
        {
            assert(self.observations@.take(i + 1).drop_last() =~= self.observations@.take(
                i as int,
            ));
            if category_eq(self.observations[i].category, *category) {
                r.push(&self.observations[i]);
            }
            i = i + 1;
        }
        assert(self.observations@.take(i as int) =~= self.observations@);
        r
    }

    /// Whether at least one observation has the given category.
    pub fn has_category(&self, category: ObservationCategory) -> (b: bool)
        ensures
            b == exists|i: int|
                0 <= i < self.observations@.len() && (#[trigger] self.observations@[i]).category
                    == category,
    {
        let mut i: usize = 0;
        while i < self.observations.len()
            invariant
                i <= self.observations.len(),
                forall|j: int| 0 <= j < i ==> (#[trigger] self.observations@[j]).category != category,
            decreases self.observations.len() - i,
        {
            if category_eq(self.observations[i].category, category) {
                return true;
            }
            i = i + 1;
        }
        false
    }
}

/// The observations of `obs` with category `c`, in order.
pub open spec fn of_category(obs: Seq<Observation>, c: ObservationCategory) -> Seq<Observation>
    decreases obs.len(),
{
    if obs.len() == 0 {
        Seq::empty()
    } else {
        let r = of_category(obs.drop_last(), c);
        if obs.last().category == c {
            r.push(obs.last())
        } else {
            r
        }
    }
}

// ── Filtering ─────────────────────────────────────────────────────────────

/// The context dimension of a journal filter.
#[derive(Clone, Debug, PartialEq, Eq)]
pub enum JournalContext {
    /// Entries observed on the planet with this seed.
    CurrentPlanet {
        /// The planet's seed.
        planet_seed: u64,
    },
    /// Entries observed in the biome with this registry key (biome
    /// provenance is not recorded yet, so this matches every entry).
    CurrentBiome {
        /// The biome's registry key.
        biome_key: String,
    },
}

/// The journal's active filter; `None` in a dimension means no restriction.
#[derive(Clone, Debug, PartialEq, Eq)]
pub struct JournalFilter {
    /// Keep only entries with an observation in this category.
    pub category: Option<ObservationCategory>,
    /// Keep only entries from this context.
    pub context: Option<JournalContext>,
}

impl Default for JournalFilter {
    fn default() -> (f: Self)
        ensures
            f.category is None,
            f.context is None,
    {
        JournalFilter { category: None, context: None }
    }
}

/// Whether `entry` passes `filter`: both dimensions must accept it.
pub open spec fn passes_filter(entry: JournalEntry, filter: JournalFilter) -> bool {
    &&& match filter.category {
        None => true,
        Some(c) => exists|i: int|
            0 <= i < entry.observations@.len() && (#[trigger] entry.observations@[i]).category
                == c,
    }
    &&& match filter.context {
        None => true,
        Some(JournalContext::CurrentPlanet { planet_seed }) => match entry.key {
            JournalKey::Material { planet_seed: p, .. } => p == Some(planet_seed),
            JournalKey::Fabrication { .. } => false,
        },
        Some(JournalContext::CurrentBiome { .. }) => true,
    }
}

/// Whether `entry` passes `filter`.
pub fn matches_filter(entry: &JournalEntry, filter: &JournalFilter) -> (b: bool)
    ensures
        b == passes_filter(*entry, *filter),
{
    let category_ok = match filter.category {
        None => true,
        Some(c) => entry.has_category(c),
    };
    let context_ok = match &filter.context {
        None => true,
        Some(JournalContext::CurrentPlanet { planet_seed }) => match entry.key.planet_seed() {
            Some(p) => p == *planet_seed,
            None => false,
        },
        Some(JournalContext::CurrentBiome { .. }) => true,
    };
    category_ok && context_ok
}

// ── The journal ───────────────────────────────────────────────────────────

/// Entry keys ascend strictly (so no key occurs twice).
pub open spec fn keys_sorted(es: Seq<JournalEntry>) -> bool {
    forall|i: int, j: int| 0 <= i < j < es.len() ==> key_lt(es[i].key, es[j].key)
}

/// Number of leading entries whose key orders before `key`: where an entry
/// for `key` sits, or would be inserted.
pub open spec fn lower_bound(es: Seq<JournalEntry>, key: JournalKey) -> int
    decreases es.len(),
{
    if es.len() == 0 {
        0
    } else if key_lt(es[0].key, key) {
        1 + lower_bound(es.drop_first(), key)
    } else {
        0
    }
}

/// Whether some entry has key `key`.
pub open spec fn has_key(es: Seq<JournalEntry>, key: JournalKey) -> bool {
    exists|i: int| 0 <= i < es.len() && (#[trigger] es[i]).key == key
}

/// In a sorted list, `lower_bound` splits the keys below `key` from the
/// rest, and an entry for `key`, if any, sits exactly there.
pub proof fn lemma_lower_bound(es: Seq<JournalEntry>, key: JournalKey)
    requires
        keys_sorted(es),
    ensures
        0 <= lower_bound(es, key) <= es.len(),
        forall|i: int| 0 <= i < lower_bound(es, key) ==> key_lt(#[trigger] es[i].key, key),
        forall|i: int| lower_bound(es, key) <= i < es.len() ==> !key_lt(#[trigger] es[i].key, key),
        has_key(es, key) <==> (lower_bound(es, key) < es.len() && es[lower_bound(es, key)].key
            == key),
    decreases es.len(),
{
    if es.len() > 0 {
        let rest = es.drop_first();
        assert(keys_sorted(rest)) by {
            assert forall|i: int, j: int| 0 <= i < j < rest.len() implies key_lt(
                rest[i].key,
                rest[j].key,
            ) by {
                assert(rest[i] == es[i + 1] && rest[j] == es[j + 1]);
            }
        }
        lemma_lower_bound(rest, key);
        if key_lt(es[0].key, key) {
            assert forall|i: int| 0 <= i < lower_bound(es, key) implies key_lt(
                #[trigger] es[i].key,
                key,
            ) by {
                if i > 0 {
                    assert(es[i] == rest[i - 1]);
                }
            }
            assert forall|i: int| lower_bound(es, key) <= i < es.len() implies !key_lt(
                #[trigger] es[i].key,
                key,
            ) by {
                assert(es[i] == rest[i - 1]);
            }
            if has_key(es, key) {
                let i = choose|i: int| 0 <= i < es.len() && (#[trigger] es[i]).key == key;
                lemma_key_order(es[0].key, key, key);
                assert(i > 0);
                assert(rest[i - 1].key == key);
                assert(has_key(rest, key));
            }
            if has_key(rest, key) {
                let i = choose|i: int| 0 <= i < rest.len() && (#[trigger] rest[i]).key == key;
                assert(es[i + 1].key == key);
            }
        } else {
            assert forall|i: int| 0 <= i < es.len() implies !key_lt(#[trigger] es[i].key, key) by {
                if i > 0 {
                    lemma_key_order(es[0].key, es[i].key, key);
                }
            }
            if has_key(es, key) {
                let i = choose|i: int| 0 <= i < es.len() && (#[trigger] es[i]).key == key;
                if i > 0 {
                    lemma_key_order(es[0].key, es[i].key, key);
                    lemma_key_order(es[0].key, key, key);
                    assert(!key_lt(es[0].key, key));
                    if es[0].key != key {
                        lemma_key_order(key, es[0].key, es[0].key);
                    }
                }
            }
        }
    }
}

/// The player's journal: one entry per key, kept in key order.
#[derive(Clone, Debug)]
pub struct Journal {
    /// The entries, keys strictly ascending.
    pub entries: Vec<JournalEntry>,
}

impl Journal {
    /// The entries are in strict key order.
    pub open spec fn wf(&self) -> bool {
        keys_sorted(self.entries@)
    }

    /// An empty journal.
    pub fn new() -> (j: Self)
        ensures
            j.wf(),
            j.entries@.len() == 0,
    {
        Journal { entries: Vec::new() }
    }

    /// Where the entry for `key` is (`Ok`), or where it would be inserted
    /// (`Err`).
    fn position(&self, key: &JournalKey) -> (r: Result<usize, usize>)
        requires
            self.wf(),
        ensures
            match r {
                Ok(i) => i == lower_bound(self.entries@, *key) && i < self.entries@.len()
                    && self.entries@[i as int].key == *key,
                Err(i) => i == lower_bound(self.entries@, *key) && !has_key(self.entries@, *key),
            },
    {
        proof {
            lemma_lower_bound(self.entries@, *key);
        }
        let mut i: usize = 0;
        while i < self.entries.len() && key_less(&self.entries[i].key, key)
            invariant
                i <= self.entries.len(),
                i <= lower_bound(self.entries@, *key),
                0 <= lower_bound(self.entries@, *key) <= self.entries@.len(),
                forall|j: int|
                    lower_bound(self.entries@, *key) <= j < self.entries@.len() ==> !key_lt(
                        #[trigger] self.entries@[j].key,
                        *key,
                    ),
            decreases self.entries.len() - i,
        {
            i = i + 1;
        }
        if i < self.entries.len() && self.entries[i].key == *key {
            Ok(i)
        } else {
            Err(i)
        }
    }

    /// The entry for `key`, if any.
    pub fn get(&self, key: &JournalKey) -> (r: Option<&JournalEntry>)
        requires
            self.wf(),
        ensures
            r is Some <==> has_key(self.entries@, *key),
            r matches Some(e) ==> *e == self.entries@[lower_bound(self.entries@, *key)],
    {
        match self.position(key) {
            Ok(i) => Some(&self.entries[i]),
            Err(_) => None,
        }
    }

    /// Number of entries.
    pub fn len(&self) -> (n: usize)
        ensures
            n == self.entries@.len(),
    {
        self.entries.len()
    }

    /// Whether the journal has no entry.
    pub fn is_empty(&self) -> (b: bool)
        ensures
            b == (self.entries@.len() == 0),
    {
        self.entries.len() == 0
    }

    /// Makes sure an entry for `key` exists: a new one is named `name` and
    /// first seen at `tick`; an existing one is left exactly as it was.
    pub fn ensure_entry(&mut self, key: JournalKey, name: &str, tick: u64)
        requires
            old(self).wf(),
        ensures
            final(self).wf(),
            has_key(old(self).entries@, key) ==> final(self).entries@ == old(self).entries@,
            !has_key(old(self).entries@, key) ==> {
                let p = lower_bound(old(self).entries@, key);
                &&& final(self).entries@.len() == old(self).entries@.len() + 1
                &&& forall|i: int| 0 <= i < p ==> #[trigger] final(self).entries@[i]
                    == old(self).entries@[i]
                &&& forall|i: int|
                    p < i < final(self).entries@.len() ==> #[trigger] final(self).entries@[i]
                        == old(self).entries@[i - 1]
                &&& final(self).entries@[p].key == key
                &&& final(self).entries@[p].name@ == name@
                &&& final(self).entries@[p].observations@.len() == 0
                &&& final(self).entries@[p].first_observed_at == tick
                &&& final(self).entries@[p].last_updated_at == tick
            },
    {
        match self.position(&key) {
            Ok(_) => {},
            Err(p) => {
                let ghost before = self.entries@;
                proof {
                    lemma_lower_bound(before, key);
                }
                let e = JournalEntry::new(key, String::from_str(name), tick);
                self.entries.insert(p, e);
                assert forall|i: int, j: int|
                    0 <= i < j < self.entries@.len() implies key_lt(
                    self.entries@[i].key,
                    self.entries@[j].key,
                ) by {
                    if j < p {
                        assert(self.entries@[i] == before[i] && self.entries@[j] == before[j]);
                    } else if j == p as int {
                        assert(self.entries@[i] == before[i]);
                    } else if i < p {
                        assert(self.entries@[i] == before[i] && self.entries@[j] == before[j - 1]);
                        lemma_key_order(before[i].key, key, before[j - 1].key);
                        if before[j - 1].key != key {
                            lemma_key_order(before[j - 1].key, key, key);
                        }
                    } else if i == p as int {
                        assert(self.entries@[j] == before[j - 1]);
                        lemma_key_order(before[j - 1].key, key, key);
                    } else {
                        assert(self.entries@[i] == before[i - 1] && self.entries@[j] == before[j
                            - 1]);
                    }
                }
            },
        }
    }

    /// Records an observation about `key`, creating the entry (named
    /// `name`, first seen at the observation's time) when needed.
    pub fn record(&mut self, key: JournalKey, name: &str, observation: Observation)
        requires
            old(self).wf(),
        ensures
            final(self).wf(),
            has_key(final(self).entries@, key),
            final(self).entries@.len() == old(self).entries@.len() + (if has_key(
                old(self).entries@,
                key,
            ) {
                0int
            } else {
                1int
            }),
            ({
                let p = lower_bound(final(self).entries@, key);
                let e = final(self).entries@[p];
                &&& e.key == key
                &&& has_key(old(self).entries@, key) ==> {
                    let o = old(self).entries@[lower_bound(old(self).entries@, key)];
                    &&& e.observations@ == add_finding(o.observations@, observation)
                    &&& e.name == o.name
                    &&& e.first_observed_at == o.first_observed_at
                }
                &&& !has_key(old(self).entries@, key) ==> {
                    &&& e.observations@ == seq![observation]
                    &&& e.name@ == name@
                    &&& e.first_observed_at == observation.recorded_at
                }
                &&& e.last_updated_at == observation.recorded_at
                &&& forall|i: int|
                    0 <= i < final(self).entries@.len() && i != p
                        ==> (#[trigger] final(self).entries@[i]).key != key
            }),
    {
        let ghost old_entries = self.entries@;
        proof {
            lemma_lower_bound(old_entries, key);
        }
        self.ensure_entry(key, name, observation.recorded_at);
        proof {
            lemma_lower_bound(self.entries@, key);
        }
        let ghost mid = self.entries@;
        match self.position(&key) {
            Ok(i) => {
                let mut e = self.entries.remove(i);
                e.add_observation(observation);
                self.entries.insert(i, e);
                assert(self.entries@ =~= mid.update(i as int, self.entries@[i as int]));
                assert forall|a: int, b: int|
                    0 <= a < b < self.entries@.len() implies key_lt(
                    self.entries@[a].key,
                    self.entries@[b].key,
                ) by {
                    assert(self.entries@[a].key == mid[a].key);
                    assert(self.entries@[b].key == mid[b].key);
                }
                assert(has_key(self.entries@, key)) by {
                    assert(self.entries@[i as int].key == key);
                }
                proof {
                    lemma_lower_bound(self.entries@, key);
                    assert(lower_bound(self.entries@, key) == i) by {
                        lemma_lower_bound_unique(self.entries@, key, i as int);
                        lemma_lower_bound_unique(mid, key, i as int);
                    }
                    assert forall|k: int|
                        0 <= k < self.entries@.len() && k != i implies (#[trigger] self.entries@[
                        k]).key != key by {
                        if k < i {
                            assert(key_lt(self.entries@[k].key, self.entries@[i as int].key));
                        } else {
                            assert(key_lt(self.entries@[i as int].key, self.entries@[k].key));
                        }
                        lemma_key_order(key, key, key);
                    }
                    if !has_key(old_entries, key) {
                        assert(mid[i as int].observations@.len() == 0);
                        assert(finding_index(mid[i as int].observations@, observation) is None);
                        assert(add_finding(mid[i as int].observations@, observation) =~= seq![
                            observation,
                        ]);
                    } else {
                        assert(lower_bound(old_entries, key) == i);
                    }
                }
            },
            Err(_) => {},
        }
    }

    /// Removes and returns the entry for `key`, if any.
    pub fn remove(&mut self, key: &JournalKey) -> (r: Option<JournalEntry>)
        requires
            old(self).wf(),
        ensures
            final(self).wf(),
            r is Some <==> has_key(old(self).entries@, *key),
            r matches Some(e) ==> e == old(self).entries@[lower_bound(old(self).entries@, *key)]
                && final(self).entries@ == old(self).entries@.remove(
                lower_bound(old(self).entries@, *key),
            ),
            r is None ==> final(self).entries@ == old(self).entries@,
    {
        match self.position(key) {
            Ok(i) => {
                let ghost before = self.entries@;
                let e = self.entries.remove(i);
                assert forall|a: int, b: int|
                    0 <= a < b < self.entries@.len() implies key_lt(
                    self.entries@[a].key,
                    self.entries@[b].key,
                ) by {
                    if b < i {
                    } else if a < i {
                        assert(self.entries@[b] == before[b + 1]);
                    } else {
                        assert(self.entries@[a] == before[a + 1]);
                        assert(self.entries@[b] == before[b + 1]);
                    }
                }
                Some(e)
            },
            Err(_) => None,
        }
    }
}

/// In a sorted list, an entry with key `key` at `i` means `i` is its
/// lower bound.
proof fn lemma_lower_bound_unique(es: Seq<JournalEntry>, key: JournalKey, i: int)
    requires
        keys_sorted(es),
        0 <= i < es.len(),
        es[i].key == key,
    ensures
        lower_bound(es, key) == i,
{
    lemma_lower_bound(es, key);
    assert(has_key(es, key));
    let lb = lower_bound(es, key);
    if lb < i {
        assert(key_lt(es[lb].key, es[i].key));
        lemma_key_order(key, key, key);
    } else if lb > i {
        assert(key_lt(es[i].key, key));
        lemma_key_order(key, key, key);
    }
}

impl Default for Journal {
    fn default() -> (j: Self)
        ensures
            j.wf(),
            j.entries@.len() == 0,
    {
        Journal::new()
    }
}

// ── Display order ─────────────────────────────────────────────────────────

/// Whether the entry at `a` is listed before the one at `b`: by name
/// (code-point order), entries with equal names by key.
pub open spec fn listed_before(es: Seq<JournalEntry>, a: int, b: int) -> bool {
    ||| seq_lt(es[a].name@, es[b].name@)
    ||| (es[a].name@ == es[b].name@ && key_lt(es[a].key, es[b].key))
}

/// `order` lists the positions of the entries that pass `filter`, each
/// once, in display order.
pub open spec fn is_display_order(
    es: Seq<JournalEntry>,
    filter: JournalFilter,
    order: Seq<usize>,
) -> bool {
    &&& forall|k: int|
        0 <= k < order.len() ==> (#[trigger] order[k]) < es.len() && passes_filter(
            es[order[k] as int],
            filter,
        )
    &&& forall|p: int|
        0 <= p < es.len() && passes_filter(#[trigger] es[p], filter) ==> exists|k: int|
            0 <= k < order.len() && order[k] == p
    &&& forall|k: int, l: int|
        0 <= k < l < order.len() ==> listed_before(es, order[k] as int, order[l] as int)
}

/// The keys at the listed positions.
pub open spec fn keys_at(es: Seq<JournalEntry>, order: Seq<usize>) -> Seq<JournalKey> {
    Seq::new(order.len(), |k: int| es[order[k] as int].key)
}

impl Journal {
    /// Positions of the entries that pass `filter`, in display order
    /// (sorted by name, equal names in key order).
    pub fn display_order(&self, filter: &JournalFilter) -> (order: Vec<usize>)
        requires
            self.wf(),
        ensures
            is_display_order(self.entries@, *filter, order@),
    {
        let ghost es = self.entries@;
        let mut order: Vec<usize> = Vec::new();
        let mut p: usize = 0;
        while p < self.entries.len()
            invariant
                p <= self.entries.len(),
                es == self.entries@,
                keys_sorted(es),
                forall|k: int|
                    0 <= k < order.len() ==> (#[trigger] order@[k]) < p && passes_filter(
                        es[order@[k] as int],
                        *filter,
                    ),
                forall|q: int|
                    0 <= q < p && passes_filter(#[trigger] es[q], *filter) ==> exists|k: int|
                        0 <= k < order.len() && order@[k] == q,
                forall|k: int, l: int|
                    0 <= k < l < order.len() ==> listed_before(
                        es,
                        order@[k] as int,
                        order@[l] as int,
                    ),
            decreases self.entries.len() - p,
        {
            if matches_filter(&self.entries[p], filter) {
                let mut j: usize = order.len();
                while j > 0 && str_lt(
                    self.entries[p].name.as_str(),
                    self.entries[order[j - 1]].name.as_str(),
                )
                    invariant
                        j <= order.len(),
                        p < self.entries.len(),
                        es == self.entries@,
                        forall|k: int| 0 <= k < order.len() ==> (#[trigger] order@[k]) < p,
                        forall|k: int|
                            j <= k < order.len() ==> seq_lt(
                                es[p as int].name@,
                                es[#[trigger] order@[k] as int].name@,
                            ),
                    decreases j,
                {
                    j = j - 1;
                }
                let ghost before = order@;
                order.insert(j, p);
                assert forall|k: int, l: int| 0 <= k < l < order.len() implies listed_before(
                    es,
                    order@[k] as int,
                    order@[l] as int,
                ) by {
                    if l < j {
                        assert(order@[k] == before[k] && order@[l] == before[l]);
                    } else if l == j {
                        assert(order@[k] == before[k]);
                        let q = before[j - 1] as int;
                        assert(!seq_lt(es[p as int].name@, es[q].name@));
                        if es[p as int].name@ != es[q].name@ {
                            crate::text::lemma_seq_lt_total(es[p as int].name@, es[q].name@);
                        }
                        assert(key_lt(es[q].key, es[p as int].key));
                        if k < j - 1 {
                            assert(listed_before(es, before[k] as int, q));
                            lemma_listed_transitive(es, before[k] as int, q, p as int);
                        }
                    } else if k < j {
                        assert(order@[k] == before[k] && order@[l] == before[l - 1]);
                    } else if k == j {
                        assert(order@[l] == before[l - 1]);
                    } else {
                        assert(order@[k] == before[k - 1] && order@[l] == before[l - 1]);
                    }
                }
                assert forall|q: int|
                    0 <= q < p + 1 && passes_filter(#[trigger] es[q], *filter) implies exists|
                    k: int,
                | 0 <= k < order.len() && order@[k] == q by {
                    if q == p {
                        assert(order@[j as int] == q);
                    } else {
                        let k0 = choose|k: int| 0 <= k < before.len() && before[k] == q;
                        if k0 < j {
                            assert(order@[k0] == q);
                        } else {
                            assert(order@[k0 + 1] == q);
                        }
                    }
                }
            }
            p = p + 1;
        }
        order
    }

    /// Keys of the entries that pass `filter`, in display order.
    pub fn display_keys(&self, filter: &JournalFilter) -> (keys: Vec<JournalKey>)
        requires
            self.wf(),
        ensures
            exists|order: Seq<usize>|
                #![trigger is_display_order(self.entries@, *filter, order)]
                is_display_order(self.entries@, *filter, order) && keys@ == keys_at(
                    self.entries@,
                    order,
                ),
    {
        let order = self.display_order(filter);
        let mut keys: Vec<JournalKey> = Vec::new();
        let mut k: usize = 0;
        while k < order.len()
            invariant
                k <= order.len(),
                is_display_order(self.entries@, *filter, order@),
                keys@ == keys_at(self.entries@, order@).take(k as int),
            decreases order.len() - k,
        {
            keys.push(self.entries[order[k]].key);
            k = k + 1;
            assert(keys@ =~= keys_at(self.entries@, order@).take(k as int));
        }
        assert(keys@ =~= keys_at(self.entries@, order@));
        keys
    }
}

proof fn lemma_listed_transitive(es: Seq<JournalEntry>, a: int, b: int, c: int)
    requires
        listed_before(es, a, b),
        listed_before(es, b, c),
    ensures
        listed_before(es, a, c),
{
    lemma_key_order(es[a].key, es[b].key, es[c].key);
    if seq_lt(es[a].name@, es[b].name@) && seq_lt(es[b].name@, es[c].name@) {
        crate::text::lemma_seq_lt_transitive(es[a].name@, es[b].name@, es[c].name@);
    }
}

// ── Panel navigation ──────────────────────────────────────────────────────

/// The journal panel's state: visibility, highlighted row, first visible
/// row, rows per page and the active filter.
#[derive(Clone, Debug)]
pub struct JournalUiState {
    /// Whether the panel is open.
    pub visible: bool,
    /// Index of the highlighted row in the displayed list.
    pub selected_index: usize,
    /// Index of the first visible row.
    pub scroll_offset: usize,
    /// Number of rows that fit on one page.
    pub entries_per_page: usize,
    /// The active filter.
    pub filter: JournalFilter,
}

/// Rows per page of a fresh panel.
pub const DEFAULT_ENTRIES_PER_PAGE: usize = 15;

impl Default for JournalUiState {
    fn default() -> (s: Self)
        ensures
            !s.visible,
            s.selected_index == 0,
            s.scroll_offset == 0,
            s.entries_per_page == DEFAULT_ENTRIES_PER_PAGE,
            s.filter.category is None,
            s.filter.context is None,
    {
        JournalUiState {
            visible: false,
            selected_index: 0,
            scroll_offset: 0,
            entries_per_page: DEFAULT_ENTRIES_PER_PAGE,
            filter: JournalFilter::default(),
        }
    }
}

/// The highlighted row and first visible row after fitting them to a list
/// of `n` rows with `per_page` rows per page: the highlight moves onto the
/// list, the window never starts past the last full page, and the window
/// moves just enough to show the highlight.
pub open spec fn clamp_spec(selected: usize, scroll: usize, n: usize, per_page: usize) -> (
    usize,
    usize,
) {
    if n == 0 {
        (0, 0)
    } else {
        let sel = if selected < n {
            selected
        } else {
            (n - 1) as usize
        };
        let max_scroll = if n > per_page {
            (n - per_page) as usize
        } else {
            0usize
        };
        let s1 = if scroll < max_scroll {
            scroll
        } else {
            max_scroll
        };
        let s2 = if sel < s1 {
            sel
        } else {
            s1
        };
        let s3 = if sel >= s2 + per_page {
            (sel + 1 - per_page) as usize
        } else {
            s2
        };
        (sel, s3)
    }
}

impl JournalUiState {
    /// The active filter.
    pub fn filter(&self) -> (f: &JournalFilter)
        ensures
            *f == self.filter,
    {
        &self.filter
    }

    /// Replaces the active filter.
    pub fn set_filter(&mut self, filter: JournalFilter)
        ensures
            final(self).filter == filter,
            final(self).visible == old(self).visible,
            final(self).selected_index == old(self).selected_index,
            final(self).scroll_offset == old(self).scroll_offset,
            final(self).entries_per_page == old(self).entries_per_page,
    {
        self.filter = filter;
    }

    /// Opens or closes the panel; nothing else changes.
    pub fn set_visible(&mut self, visible: bool)
        ensures
            final(self).visible == visible,
            final(self).filter == old(self).filter,
            final(self).selected_index == old(self).selected_index,
            final(self).scroll_offset == old(self).scroll_offset,
            final(self).entries_per_page == old(self).entries_per_page,
    {
        self.visible = visible;
    }

    /// Fits the highlight and the window to a list of `entry_count` rows.
    pub fn clamp_to_entry_count(&mut self, entry_count: usize)
        ensures
            (final(self).selected_index, final(self).scroll_offset) == clamp_spec(
                old(self).selected_index,
                old(self).scroll_offset,
                entry_count,
                old(self).entries_per_page,
            ),
            final(self).visible == old(self).visible,
            final(self).filter == old(self).filter,
            final(self).entries_per_page == old(self).entries_per_page,
    {
        if entry_count == 0 {
            self.selected_index = 0;
            self.scroll_offset = 0;
            return;
        }
        if self.selected_index >= entry_count {
            self.selected_index = entry_count - 1;
        }
        let max_scroll = if entry_count > self.entries_per_page {
            entry_count - self.entries_per_page
        } else {
            0
        };
        if self.scroll_offset > max_scroll {
            self.scroll_offset = max_scroll;
        }
        if self.selected_index < self.scroll_offset {
            self.scroll_offset = self.selected_index;
        }
        if self.selected_index - self.scroll_offset >= self.entries_per_page {
            self.scroll_offset = self.selected_index + 1 - self.entries_per_page;
        }
    }
}

/// After fitting to a non-empty list with at least one row per page, the
/// highlight is on the list and inside the window, and the window does not
/// start past the last full page.
pub proof fn lemma_clamp_keeps_selection_visible(
    selected: usize,
    scroll: usize,
    n: usize,
    per_page: usize,
)
    requires
        n > 0,
        per_page > 0,
    ensures
        ({
            let (sel, s) = clamp_spec(selected, scroll, n, per_page);
            &&& sel < n
            &&& s <= sel < s + per_page
            &&& s + per_page <= n || s == 0
        }),
{
}

/// What the panel remembers between frames to keep the highlight on the
/// same subject while entries come and go.
#[derive(Clone, Debug, PartialEq, Eq, Structural)]
pub struct JournalSelectionTracker {
    /// Key of the highlighted entry.
    pub key: Option<JournalKey>,
    /// Key of the entry in the window's first row.
    pub top_key: Option<JournalKey>,
    /// Highlighted row at the end of the last frame.
    pub last_selected_index: usize,
    /// First visible row at the end of the last frame.
    pub last_scroll_offset: usize,
}

impl Default for JournalSelectionTracker {
    fn default() -> (t: Self)
        ensures
            t == (JournalSelectionTracker {
                key: None,
                top_key: None,
                last_selected_index: 0,
                last_scroll_offset: 0,
            }),
    {
        JournalSelectionTracker {
            key: None,
            top_key: None,
            last_selected_index: 0,
            last_scroll_offset: 0,
        }
    }
}

/// Position of the first `k` in `keys`, if present.
pub open spec fn index_of(keys: Seq<JournalKey>, k: JournalKey) -> Option<int>
    decreases keys.len(),
{
    if keys.len() == 0 {
        None
    } else {
        match index_of(keys.drop_last(), k) {
            Some(i) => Some(i),
            None => if keys.last() == k {
                Some(keys.len() - 1)
            } else {
                None
            },
        }
    }
}

/// Where a remembered key now sits, or the fallback row when it is gone or
/// was never set.
pub open spec fn follow(keys: Seq<JournalKey>, remembered: Option<JournalKey>, fallback: usize) -> usize {
    match remembered {
        Some(k) => match index_of(keys, k) {
            Some(i) => i as usize,
            None => fallback,
        },
        None => fallback,
    }
}

/// The highlighted row and window start a frame settles on, given the
/// displayed keys. If the player moved the highlight or the window since
/// the last frame, their choice stands; otherwise both follow the subjects
/// they showed, staying put where a subject was deleted. The result is then
/// fitted to the list.
pub open spec fn reconcile_spec(
    keys: Seq<JournalKey>,
    selected: usize,
    scroll: usize,
    per_page: usize,
    tracker: JournalSelectionTracker,
) -> (usize, usize) {
    if keys.len() == 0 {
        (0, 0)
    } else {
        let navigated = selected != tracker.last_selected_index || scroll
            != tracker.last_scroll_offset;
        let sel0 = if navigated {
            selected
        } else {
            follow(keys, tracker.key, selected)
        };
        let scroll0 = if navigated {
            scroll
        } else {
            follow(keys, tracker.top_key, scroll)
        };
        clamp_spec(sel0, scroll0, keys.len() as usize, per_page)
    }
}

proof fn lemma_index_of(keys: Seq<JournalKey>, k: JournalKey)
    ensures
        index_of(keys, k) matches Some(i) ==> 0 <= i < keys.len() && keys[i] == k && forall|
            j: int,
        | 0 <= j < i ==> keys[j] != k,
        index_of(keys, k) is None ==> forall|j: int| 0 <= j < keys.len() ==> keys[j] != k,
    decreases keys.len(),
{
    if keys.len() > 0 {
        lemma_index_of(keys.drop_last(), k);
        assert forall|j: int| 0 <= j < keys.len() - 1 implies keys.drop_last()[j] == keys[j] by {}
    }
}

fn find_key(keys: &Vec<JournalKey>, k: &JournalKey) -> (r: Option<usize>)
    ensures
        match index_of(keys@, *k) {
            Some(i) => r == Some(i as usize),
            None => r is None,
        },
{
    proof {
        lemma_index_of(keys@, *k);
    }
    let mut i: usize = 0;
    while i < keys.len()
        invariant
            i <= keys.len(),
            forall|j: int| 0 <= j < i ==> keys@[j] != *k,
            index_of(keys@, *k) matches Some(x) ==> 0 <= x < keys@.len() && keys@[x] == *k
                && forall|j: int| 0 <= j < x ==> keys@[j] != *k,
            index_of(keys@, *k) is None ==> forall|j: int| 0 <= j < keys@.len() ==> keys@[j] != *k,
        decreases keys.len() - i,
    {
        if keys[i] == *k {
            return Some(i);
        }
        i = i + 1;
    }
    None
}

fn follow_exec(keys: &Vec<JournalKey>, remembered: &Option<JournalKey>, fallback: usize) -> (r:
    usize)
    ensures
        r == follow(keys@, *remembered, fallback),
{
    match remembered {
        Some(k) => match find_key(keys, k) {
            Some(i) => i,
            None => fallback,
        },
        None => fallback,
    }
}

/// Settles the panel's highlight and window for this frame's displayed keys
/// (see [`reconcile_spec`]) and re-anchors the tracker on the subjects now
/// highlighted and at the top of the window; an empty list clears it.
pub fn reconcile_selection(
    keys: &Vec<JournalKey>,
    state: &mut JournalUiState,
    tracker: &mut JournalSelectionTracker,
)
    ensures
        (final(state).selected_index, final(state).scroll_offset) == reconcile_spec(
            keys@,
            old(state).selected_index,
            old(state).scroll_offset,
            old(state).entries_per_page,
            *old(tracker),
        ),
        final(state).visible == old(state).visible,
        final(state).filter == old(state).filter,
        final(state).entries_per_page == old(state).entries_per_page,
        final(tracker).last_selected_index == final(state).selected_index,
        final(tracker).last_scroll_offset == final(state).scroll_offset,
        final(tracker).key == (if final(state).selected_index < keys@.len() {
            Some(keys@[final(state).selected_index as int])
        } else {
            None
        }),
        final(tracker).top_key == (if final(state).scroll_offset < keys@.len() {
            Some(keys@[final(state).scroll_offset as int])
        } else {
            None
        }),
{
    if keys.len() > 0 {
        let navigated = state.selected_index != tracker.last_selected_index || state.scroll_offset
            != tracker.last_scroll_offset;
        if !navigated {
            state.selected_index = follow_exec(keys, &tracker.key, state.selected_index);
            state.scroll_offset = follow_exec(keys, &tracker.top_key, state.scroll_offset);
        }
    }
    state.clamp_to_entry_count(keys.len());
    let sel = state.selected_index;
    let top = state.scroll_offset;
    tracker.key = if sel < keys.len() {
        Some(keys[sel])
    } else {
        None
    };
    tracker.top_key = if top < keys.len() {
        Some(keys[top])
    } else {
        None
    };
    tracker.last_selected_index = sel;
    tracker.last_scroll_offset = top;
}

/// When the player did not navigate and the highlighted subject is still
/// listed, the highlight stays on that subject wherever it moved.
pub proof fn lemma_selection_follows_subject(
    keys: Seq<JournalKey>,
    selected: usize,
    scroll: usize,
    per_page: usize,
    tracker: JournalSelectionTracker,
    subject: JournalKey,
)
    requires
        keys.len() <= usize::MAX,
        selected == tracker.last_selected_index,
        scroll == tracker.last_scroll_offset,
        tracker.key == Some(subject),
        index_of(keys, subject) is Some,
    ensures
        ({
            let (sel, _) = reconcile_spec(keys, selected, scroll, per_page, tracker);
            sel < keys.len() && keys[sel as int] == subject
        }),
{
    lemma_index_of(keys, subject);
}

/// When the highlighted subject was deleted, the highlight stays on the same
/// row, or on the new last row when the list got shorter than that.
pub proof fn lemma_deleted_subject_selects_nearest(
    keys: Seq<JournalKey>,
    selected: usize,
    scroll: usize,
    per_page: usize,
    tracker: JournalSelectionTracker,
    subject: JournalKey,
)
    requires
        keys.len() > 0,
        keys.len() <= usize::MAX,
        selected == tracker.last_selected_index,
        scroll == tracker.last_scroll_offset,
        tracker.key == Some(subject),
        index_of(keys, subject) is None,
    ensures
        ({
            let (sel, _) = reconcile_spec(keys, selected, scroll, per_page, tracker);
            sel == (if selected < keys.len() {
                selected as int
            } else {
                keys.len() - 1
            })
        }),
{
}

} // verus!
