//! Mod manifests (`mod.toml`), the installed-mod set with its per-mod
//! active state, and dependency ordering.
//!
//! Every installed mod ships a `mod.toml` at its root.  Discovery parses
//! all manifests, keeps those whose `mod.id` matches their directory name
//! and whose dependencies are installed, and orders them so that every
//! dependency precedes its dependents; within one dependency level mods are
//! ordered alphabetically by id so the load order is reproducible.

use vstd::prelude::*;
use vstd::set_lib::{lemma_int_range, lemma_len_subset, set_int_range};

use crate::text::{lemma_seq_lt_asymmetric, lemma_seq_lt_irreflexive, lemma_seq_lt_total, lemma_seq_lt_transitive, seq_lt, str_eq, str_lt};

verus! {

/// Schema version discriminant stored as the first field of `mod.toml`.
pub type SchemaVersion = u32;

/// Top-level shape of a `mod.toml` file.
#[derive(Debug)]
pub struct ModManifest {
    /// Schema version — must be `1` for files the current loader understands.
    pub schema_version: SchemaVersion,
    /// Core mod identity and metadata (the `[mod]` table).
    pub info: ModInfo,
    /// Licensing metadata (the `[licensing]` table).
    pub licensing: ModLicensing,
}

/// Core identity and metadata block (`[mod]` table in `mod.toml`).
#[derive(Debug)]
pub struct ModInfo {
    /// Globally unique reverse-domain identifier, e.g. `author.slug`; must
    /// equal the mod's directory name.
    pub id: String,
    /// Human-readable display name.
    pub name: String,
    /// Semantic version string, e.g. `"0.1.0"`.
    pub version: String,
    /// Short human-readable summary.
    pub description: String,
    /// Mod author or team name.
    pub author: String,
    /// Ids of the mods this mod requires to be loaded before it.
    pub dependencies: Vec<String>,
    /// Minimum game version this mod targets, e.g. `"0.1.0"`.
    pub game_version_min: String,
}

/// Licensing metadata block (`[licensing]` table in `mod.toml`).
#[derive(Debug)]
pub struct ModLicensing {
    /// SPDX license identifier, e.g. `"CC-BY-4.0"`.
    pub spdx_license: String,
    /// URL of the free version if the mod is also sold; empty when not.
    pub free_distribution_url: String,
}


// ── Copies ────────────────────────────────────────────────────────────────

/// An element-by-element copy of a list of strings.
pub fn copy_strings(v: &Vec<String>) -> (r: Vec<String>)
    ensures
        r@ == v@,
{
    let mut r: Vec<String> = Vec::new();
    let mut i: usize = 0;
    while i < v.len()
        invariant
            i <= v.len(),
            r@ == v@.take(i as int),
        decreases v.len() - i,
    {
        r.push(v[i].clone());
        assert(r@ =~= v@.take(i + 1));
        i = i + 1;
    }
    assert(v@.take(v.len() as int) =~= v@);
    r
}

/// The content of a manifest as plain values.
pub struct ManifestView {
    /// `schema_version`.
    pub schema_version: u32,
    /// `mod.id`.
    pub id: Seq<char>,
    /// `mod.name`.
    pub name: Seq<char>,
    /// `mod.version`.
    pub version: Seq<char>,
    /// `mod.description`.
    pub description: Seq<char>,
    /// `mod.author`.
    pub author: Seq<char>,
    /// `mod.dependencies`.
    pub dependencies: Seq<Seq<char>>,
    /// `mod.game_version_min`.
    pub game_version_min: Seq<char>,
    /// `licensing.spdx_license`.
    pub spdx_license: Seq<char>,
    /// `licensing.free_distribution_url`.
    pub free_distribution_url: Seq<char>,
}

impl View for ModManifest {
    type V = ManifestView;

    open spec fn view(&self) -> ManifestView {
        ManifestView {
            schema_version: self.schema_version,
            id: self.info.id@,
            name: self.info.name@,
            version: self.info.version@,
            description: self.info.description@,
            author: self.info.author@,
            dependencies: self.info.dependencies@.map_values(|d: String| d@),
            game_version_min: self.info.game_version_min@,
            spdx_license: self.licensing.spdx_license@,
            free_distribution_url: self.licensing.free_distribution_url@,
        }
    }
}

impl ModInfo {
    /// A field-by-field copy.
    pub fn duplicate(&self) -> (r: Self)
        ensures
            r.id == self.id,
            r.name == self.name,
            r.version == self.version,
            r.description == self.description,
            r.author == self.author,
            r.dependencies@ == self.dependencies@,
            r.game_version_min == self.game_version_min,
    {
        ModInfo {
            id: self.id.clone(),
            name: self.name.clone(),
            version: self.version.clone(),
            description: self.description.clone(),
            author: self.author.clone(),
            dependencies: copy_strings(&self.dependencies),
            game_version_min: self.game_version_min.clone(),
        }
    }
}

impl ModManifest {
    /// A field-by-field copy.
    pub fn duplicate(&self) -> (r: Self)
        ensures
            r@ == self@,
    {
        ModManifest {
            schema_version: self.schema_version,
            info: self.info.duplicate(),
            licensing: ModLicensing {
                spdx_license: self.licensing.spdx_license.clone(),
                free_distribution_url: self.licensing.free_distribution_url.clone(),
            },
        }
    }

    /// The declared dependency ids as character sequences.
    pub open spec fn deps(&self) -> Seq<Seq<char>> {
        self.info.dependencies@.map_values(|d: String| d@)
    }
}

// ── Installed mods ────────────────────────────────────────────────────────

/// The ids of a list of manifests, in order.
pub open spec fn manifest_ids(mods: Seq<ModManifest>) -> Seq<Seq<char>> {
    mods.map_values(|m: ModManifest| m.info.id@)
}

/// Deactivation and activation of an installed mod, as their contracts
/// change the set of deactivated ids: deactivating twice is the same as
/// deactivating once, activating twice the same as activating once, and
/// activating a mod that was active before its deactivation restores the
/// set exactly.
pub proof fn lemma_toggle_round_trip(inactive: Set<Seq<char>>, id: Seq<char>)
    ensures
        inactive.insert(id).insert(id) == inactive.insert(id),
        inactive.remove(id).remove(id) == inactive.remove(id),
        !inactive.contains(id) ==> inactive.insert(id).remove(id) == inactive,
{
    assert(inactive.insert(id).insert(id) =~= inactive.insert(id));
    assert(inactive.remove(id).remove(id) =~= inactive.remove(id));
    if !inactive.contains(id) {
        assert(inactive.insert(id).remove(id) =~= inactive);
    }
}

/// The manifests of `mods` whose id is not in `inactive`, in order.
pub open spec fn active_filter(mods: Seq<ModManifest>, inactive: Set<Seq<char>>) -> Seq<ModManifest>
    decreases mods.len(),
{
    if mods.len() == 0 {
        seq![]
    } else {
        let rest = active_filter(mods.drop_last(), inactive);
        if inactive.contains(mods.last().info.id@) {
            rest
        } else {
            rest.push(mods.last())
        }
    }
}

/// Whether one of the strings in `v` reads `id`.
pub open spec fn list_has(v: Seq<String>, id: Seq<char>) -> bool {
    exists|i: int| 0 <= i < v.len() && #[trigger] v[i]@ == id
}

/// `list_has` after a push.
pub proof fn lemma_list_has_push(v: Seq<String>, s: String, x: Seq<char>)
    ensures
        list_has(v.push(s), x) <==> (list_has(v, x) || s@ == x),
{
    if list_has(v.push(s), x) {
        let j = choose|j: int| 0 <= j < v.push(s).len() && #[trigger] v.push(s)[j]@ == x;
        if j < v.len() {
            assert(v[j]@ == x);
        }
    }
    if list_has(v, x) {
        let j = choose|j: int| 0 <= j < v.len() && #[trigger] v[j]@ == x;
        assert(v.push(s)[j]@ == x);
    }
    if s@ == x {
        assert(v.push(s)[v.len() as int]@ == x);
    }
}

/// `list_has` over one more element of a prefix.
pub proof fn lemma_list_has_take_succ(v: Seq<String>, i: int, x: Seq<char>)
    requires
        0 <= i < v.len(),
    ensures
        list_has(v.take(i + 1), x) <==> (list_has(v.take(i), x) || v[i]@ == x),
{
    assert(v.take(i + 1) =~= v.take(i).push(v[i]));
    lemma_list_has_push(v.take(i), v[i], x);
}

/// The complete, dependency-ordered set of installed mods, with the ids
/// that have been deactivated at runtime.
#[derive(Debug)]
pub struct InstalledMods {
    /// All installed manifests in dependency order, active or not.
    all_mods: Vec<ModManifest>,
    /// Ids of mods deactivated at runtime, each at most once.
    inactive: Vec<String>,
}

impl InstalledMods {
    /// All installed manifests in dependency order.
    pub closed spec fn mods(&self) -> Seq<ModManifest> {
        self.all_mods@
    }

    /// The ids that are currently deactivated.
    pub closed spec fn inactive_ids(&self) -> Set<Seq<char>> {
        Set::new(|id: Seq<char>| list_has(self.inactive@, id))
    }

    /// Whether a mod with this id is installed.
    pub open spec fn installed(&self, id: Seq<char>) -> bool {
        manifest_ids(self.mods()).contains(id)
    }

    /// Whether a mod with this id is installed and not deactivated.
    pub open spec fn active(&self, id: Seq<char>) -> bool {
        self.installed(id) && !self.inactive_ids().contains(id)
    }

    /// Creates an empty set: nothing installed, nothing deactivated.
    pub fn new() -> (r: Self)
        ensures
            r.mods().len() == 0,
            r.inactive_ids() == Set::<Seq<char>>::empty(),
    {
        let r = InstalledMods { all_mods: Vec::new(), inactive: Vec::new() };
        assert(r.inactive_ids() =~= Set::<Seq<char>>::empty()) by {
            assert forall|x: Seq<char>| !list_has(r.inactive@, x) by {}
        }
        r
    }

    /// All installed manifests in dependency order, active or not.
    pub fn iter_all(&self) -> (r: &[ModManifest])
        ensures
            r@ == self.mods(),
    {
        self.all_mods.as_slice()
    }

    /// Whether `id` is in the deactivated list.
    fn is_inactive(&self, id: &str) -> (r: bool)
        ensures
            r == self.inactive_ids().contains(id@),
    {
        let mut i: usize = 0;
        while i < self.inactive.len()
            invariant
                i <= self.inactive@.len(),
                forall|j: int| 0 <= j < i ==> self.inactive@[j]@ != id@,
            decreases self.inactive@.len() - i,
        {
            if str_eq(self.inactive[i].as_str(), id) {
                assert(list_has(self.inactive@, id@));
                return true;
            }
            i = i + 1;
        }
        false
    }

    /// Only the currently active manifests, in dependency order.
    pub fn get_loaded_mods(&self) -> (r: Vec<&ModManifest>)
        ensures
            r@.map_values(|m: &ModManifest| *m) == active_filter(self.mods(), self.inactive_ids()),
    {
        let mut r: Vec<&ModManifest> = Vec::new();
        let mut i: usize = 0;
        while i < self.all_mods.len()
            invariant
                i <= self.all_mods@.len(),
                r@.map_values(|m: &ModManifest| *m) == active_filter(self.all_mods@.take(i as int), self.inactive_ids()),
            decreases self.all_mods@.len() - i,
        {
            assert(self.all_mods@.take(i + 1).drop_last() =~= self.all_mods@.take(i as int));
            let m = &self.all_mods[i];
            let ghost r0 = r@;
            if !self.is_inactive(m.info.id.as_str()) {
                r.push(m);
                assert(r@.map_values(|m: &ModManifest| *m) =~= r0.map_values(|m: &ModManifest| *m).push(*m));
            }
            i = i + 1;
        }
        assert(self.all_mods@.take(self.all_mods@.len() as int) =~= self.all_mods@);
        r
    }

    /// The first installed manifest with this id, active or not.
    pub fn get(&self, id: &str) -> (r: Option<&ModManifest>)
        ensures
            r is None <==> !self.installed(id@),
            r matches Some(m) ==> exists|k: int|
                0 <= k < self.mods().len() && self.mods()[k] == *m && m.info.id@ == id@
                    && forall|j: int| 0 <= j < k ==> #[trigger] self.mods()[j].info.id@ != id@,
    {
        let mut i: usize = 0;
        while i < self.all_mods.len()
            invariant
                i <= self.all_mods@.len(),
                forall|j: int| 0 <= j < i ==> #[trigger] self.all_mods@[j].info.id@ != id@,
            decreases self.all_mods@.len() - i,
        {
            if str_eq(self.all_mods[i].info.id.as_str(), id) {
                assert(manifest_ids(self.mods())[i as int] == id@);
                return Some(&self.all_mods[i]);
            }
            i = i + 1;
        }
        proof {
            if self.installed(id@) {
                let k = choose|k: int| 0 <= k < manifest_ids(self.mods()).len() && manifest_ids(self.mods())[k] == id@;
                assert(self.all_mods@[k].info.id@ == id@);
            }
        }
        None
    }

    /// Whether a mod with this id is installed (active or not).
    pub fn is_installed(&self, id: &str) -> (r: bool)
        ensures
            r == self.installed(id@),
    {
        self.get(id).is_some()
    }

    /// Whether the mod is installed and currently active.
    pub fn is_active(&self, id: &str) -> (r: bool)
        ensures
            r == self.active(id@),
    {
        self.is_installed(id) && !self.is_inactive(id)
    }

    /// Activates a mod.  Not installed: nothing changes and the result is
    /// `false`.  Installed: the mod is active afterwards (whether or not it
    /// was before) and the result is `true`.  No other mod's state changes.
    pub fn activate(&mut self, id: &str) -> (r: bool)
        ensures
            r == old(self).installed(id@),
            final(self).mods() == old(self).mods(),
            r ==> final(self).inactive_ids() == old(self).inactive_ids().remove(id@),
            !r ==> final(self).inactive_ids() == old(self).inactive_ids(),
    {
        if !self.is_installed(id) {
            return false;
        }
        let ghost before = self.inactive@;
        let mut kept: Vec<String> = Vec::new();
        let mut i: usize = 0;
        while i < self.inactive.len()
            invariant
                i <= self.inactive@.len(),
                self.inactive@ == before,
                forall|x: Seq<char>| list_has(kept@, x) <==> (list_has(before.take(i as int), x) && x != id@),
            decreases self.inactive@.len() - i,
        {
            let ghost k0 = kept@;
            if !str_eq(self.inactive[i].as_str(), id) {
                kept.push(self.inactive[i].clone());
            }
            proof {
                assert forall|x: Seq<char>| list_has(kept@, x) <==> (list_has(before.take(i + 1), x) && x != id@) by {
                    lemma_list_has_take_succ(before, i as int, x);
                    if kept@.len() > k0.len() {
                        assert(kept@ == k0.push(before[i as int]));
                        lemma_list_has_push(k0, before[i as int], x);
                    }
                }
            }
            i = i + 1;
        }
        assert(before.take(before.len() as int) =~= before);
        self.inactive = kept;
        assert(self.inactive_ids() =~= old(self).inactive_ids().remove(id@));
        true
    }

    /// Deactivates a mod.  Not installed: nothing changes and the result is
    /// `false`.  Installed: the mod is inactive afterwards (whether or not
    /// it was before) and the result is `true`.  No other mod's state changes.
    pub fn deactivate(&mut self, id: &str) -> (r: bool)
        ensures
            r == old(self).installed(id@),
            final(self).mods() == old(self).mods(),
            r ==> final(self).inactive_ids() == old(self).inactive_ids().insert(id@),
            !r ==> final(self).inactive_ids() == old(self).inactive_ids(),
    {
        if !self.is_installed(id) {
            return false;
        }
        if !self.is_inactive(id) {
            let ghost before = self.inactive@;
            self.inactive.push(String::from_str(id));
            proof {
                assert forall|x: Seq<char>| list_has(self.inactive@, x) <==> (list_has(before, x) || x == id@) by {
                    if list_has(self.inactive@, x) {
                        let j = choose|j: int| 0 <= j < self.inactive@.len() && #[trigger] self.inactive@[j]@ == x;
                        if j < before.len() {
                            assert(before[j]@ == x);
                        }
                    }
                    if list_has(before, x) {
                        let j = choose|j: int| 0 <= j < before.len() && #[trigger] before[j]@ == x;
                        assert(self.inactive@[j]@ == x);
                    }
                    if x == id@ {
                        assert(self.inactive@[before.len() as int]@ == x);
                    }
                }
            }
            assert(self.inactive_ids() =~= old(self).inactive_ids().insert(id@));
        } else {
            assert(self.inactive_ids() =~= old(self).inactive_ids().insert(id@));
        }
        true
    }

    /// Replaces the installed list with a freshly loaded one.  Ids that were
    /// deactivated and are still installed stay deactivated; deactivated ids
    /// that are no longer installed are forgotten.
    pub fn load(&mut self, mods: Vec<ModManifest>)
        ensures
            final(self).mods() == mods@,
            final(self).inactive_ids() == old(self).inactive_ids().filter(
                |id: Seq<char>| manifest_ids(mods@).contains(id),
            ),
    {
        let ghost before = self.inactive@;
        let ghost new_ids = manifest_ids(mods@);
        let mut kept: Vec<String> = Vec::new();
        let mut i: usize = 0;
        while i < self.inactive.len()
            invariant
                i <= self.inactive@.len(),
                self.inactive@ == before,
                new_ids == manifest_ids(mods@),
                forall|x: Seq<char>| #![trigger list_has(kept@, x)] list_has(kept@, x) <==> (list_has(before.take(i as int), x) && new_ids.contains(x)),
            decreases self.inactive@.len() - i,
        {
            let ghost k0 = kept@;
            let present = ids_contain(&mods, self.inactive[i].as_str());
            assert(present == new_ids.contains(before[i as int]@));
            if present {
                kept.push(self.inactive[i].clone());
            }
            proof {
                assert forall|x: Seq<char>| #![trigger list_has(kept@, x)] list_has(kept@, x) <==> (list_has(before.take(i + 1), x) && new_ids.contains(x)) by {
                    lemma_list_has_take_succ(before, i as int, x);
                    if kept@.len() > k0.len() {
                        assert(kept@ == k0.push(before[i as int]));
                        lemma_list_has_push(k0, before[i as int], x);
                    }
                }
            }
            i = i + 1;
        }
        assert(before.take(before.len() as int) =~= before);
        self.inactive = kept;
        self.all_mods = mods;
        proof {
            assert forall|x: Seq<char>| #![trigger self.inactive_ids().contains(x)] self.inactive_ids().contains(x) <==> old(self).inactive_ids().filter(|id: Seq<char>| manifest_ids(mods@).contains(id)).contains(x) by {
                assert(old(self).inactive@ == before);
                assert(list_has(self.inactive@, x) == (list_has(before, x) && new_ids.contains(x)));
            }
            assert(self.inactive_ids() =~= old(self).inactive_ids().filter(|id: Seq<char>| manifest_ids(mods@).contains(id)));
        }
    }
}

/// Whether one of `mods` has this id.
fn ids_contain(mods: &Vec<ModManifest>, id: &str) -> (r: bool)
    ensures
        r == manifest_ids(mods@).contains(id@),
{
    let mut i: usize = 0;
    while i < mods.len()
        invariant
            i <= mods@.len(),
            forall|j: int| 0 <= j < i ==> #[trigger] mods@[j].info.id@ != id@,
        decreases mods@.len() - i,
    {
        if str_eq(mods[i].info.id.as_str(), id) {
            assert(manifest_ids(mods@)[i as int] == id@);
            return true;
        }
        i = i + 1;
    }
    proof {
        if manifest_ids(mods@).contains(id@) {
            let k = choose|k: int| 0 <= k < manifest_ids(mods@).len() && manifest_ids(mods@)[k] == id@;
            assert(mods@[k].info.id@ == id@);
        }
    }
    false
}

impl Default for InstalledMods {
    fn default() -> (r: Self)
        ensures
            r.mods().len() == 0,
            r.inactive_ids() == Set::<Seq<char>>::empty(),
    {
        InstalledMods::new()
    }
}

// ── Dependency ordering ───────────────────────────────────────────────────

/// The character sequences of a list of strings.
pub open spec fn string_views(v: Seq<String>) -> Seq<Seq<char>> {
    v.map_values(|s: String| s@)
}

/// Keys of a keyed manifest list are pairwise distinct (as in a map).
pub open spec fn keys_distinct(ms: Seq<(String, ModManifest)>) -> bool {
    forall|i: int, j: int|
        0 <= i < ms.len() && 0 <= j < ms.len() && i != j ==> #[trigger] ms[i].0@ != #[trigger] ms[j].0@
}

/// Whether some position already in `order` carries key `k`.
pub open spec fn emitted_key(ms: Seq<(String, ModManifest)>, order: Seq<int>, k: Seq<char>) -> bool {
    exists|t: int| 0 <= t < order.len() && #[trigger] ms[order[t]].0@ == k
}

/// A mod is ready once every one of its declared dependencies has been
/// emitted (a dependency that is not installed is never emitted).
pub open spec fn ready(ms: Seq<(String, ModManifest)>, order: Seq<int>, p: int) -> bool {
    forall|d: int|
        0 <= d < ms[p].1.deps().len() ==> emitted_key(ms, order, #[trigger] ms[p].1.deps()[d])
}

/// Position `p` is a mod that is not yet emitted and is ready.
pub open spec fn candidate(ms: Seq<(String, ModManifest)>, order: Seq<int>, p: int) -> bool {
    0 <= p < ms.len() && !order.contains(p) && ready(ms, order, p)
}

/// Position `p` is the ready mod with the alphabetically smallest key.
pub open spec fn is_next(ms: Seq<(String, ModManifest)>, order: Seq<int>, p: int) -> bool {
    &&& candidate(ms, order, p)
    &&& forall|q: int| #[trigger] candidate(ms, order, q) && q != p ==> seq_lt(ms[p].0@, ms[q].0@)
}

/// Emission from a partial order: while some mod is ready, emit the ready
/// mod with the smallest key (at most `fuel` more steps).
pub open spec fn kahn_from(ms: Seq<(String, ModManifest)>, order: Seq<int>, fuel: nat) -> Seq<int>
    decreases fuel,
{
    if fuel == 0 {
        order
    } else if exists|p: int| is_next(ms, order, p) {
        kahn_from(ms, order.push(choose|p: int| is_next(ms, order, p)), (fuel - 1) as nat)
    } else {
        order
    }
}

/// The emission order of all mods: repeatedly the alphabetically smallest
/// mod whose dependencies have all been emitted.  Mods that never become
/// ready (a missing dependency, or a cycle) are left out.
pub open spec fn kahn_order(ms: Seq<(String, ModManifest)>) -> Seq<int> {
    kahn_from(ms, seq![], ms.len() as nat)
}

/// Every element of `order` was a candidate when it was emitted.
pub open spec fn well_ordered(ms: Seq<(String, ModManifest)>, order: Seq<int>) -> bool {
    forall|t: int| 0 <= t < order.len() ==> candidate(ms, order.take(t), #[trigger] order[t])
}

/// With distinct keys there is at most one next mod.
proof fn lemma_is_next_unique(ms: Seq<(String, ModManifest)>, order: Seq<int>, p: int, q: int)
    requires
        keys_distinct(ms),
        is_next(ms, order, p),
        is_next(ms, order, q),
    ensures
        p == q,
{
    if p != q {
        assert(seq_lt(ms[p].0@, ms[q].0@));
        assert(seq_lt(ms[q].0@, ms[p].0@));
        lemma_seq_lt_asymmetric(ms[p].0@, ms[q].0@);
    }
}

/// Emission only ever appends candidates.
proof fn lemma_kahn_from_well_ordered(ms: Seq<(String, ModManifest)>, order: Seq<int>, fuel: nat)
    requires
        well_ordered(ms, order),
    ensures
        well_ordered(ms, kahn_from(ms, order, fuel)),
        kahn_from(ms, order, fuel).take(order.len() as int) == order,
        kahn_from(ms, order, fuel).len() >= order.len(),
    decreases fuel,
{
    if fuel > 0 && exists|p: int| is_next(ms, order, p) {
        let p = choose|p: int| is_next(ms, order, p);
        let o2 = order.push(p);
        assert forall|t: int| 0 <= t < o2.len() implies candidate(ms, o2.take(t), #[trigger] o2[t]) by {
            if t < order.len() {
                assert(o2.take(t) =~= order.take(t));
            } else {
                assert(o2.take(t) =~= order);
            }
        }
        lemma_kahn_from_well_ordered(ms, o2, (fuel - 1) as nat);
        assert(kahn_from(ms, o2, (fuel - 1) as nat).take(order.len() as int) =~= kahn_from(ms, o2, (fuel - 1) as nat).take(o2.len() as int).take(order.len() as int));
        assert(o2.take(order.len() as int) =~= order);
    } else {
        assert(order.take(order.len() as int) =~= order);
    }
}

/// Dependency order: every declared dependency of an emitted mod is the key
/// of a mod emitted before it, and no mod is emitted twice.
pub proof fn lemma_kahn_order_respects_dependencies(ms: Seq<(String, ModManifest)>)
    ensures
        forall|t: int, d: int|
            0 <= t < kahn_order(ms).len() && 0 <= d < ms[kahn_order(ms)[t]].1.deps().len()
                ==> emitted_key(ms, kahn_order(ms).take(t), #[trigger] ms[kahn_order(ms)[t]].1.deps()[d]),
        forall|s: int, t: int|
            0 <= s < t < kahn_order(ms).len() ==> #[trigger] kahn_order(ms)[s] != #[trigger] kahn_order(ms)[t],
        forall|t: int| 0 <= t < kahn_order(ms).len() ==> 0 <= #[trigger] kahn_order(ms)[t] < ms.len(),
{
    let o = kahn_order(ms);
    assert(well_ordered(ms, seq![]));
    lemma_kahn_from_well_ordered(ms, seq![], ms.len() as nat);
    assert forall|t: int, d: int|
        0 <= t < o.len() && 0 <= d < ms[o[t]].1.deps().len() implies emitted_key(ms, o.take(t), #[trigger] ms[o[t]].1.deps()[d]) by {
        assert(candidate(ms, o.take(t), o[t]));
    }
    assert forall|s: int, t: int| 0 <= s < t < o.len() implies #[trigger] o[s] != #[trigger] o[t] by {
        assert(candidate(ms, o.take(t), o[t]));
        assert(o.take(t)[s] == o[s]);
    }
    assert forall|t: int| 0 <= t < o.len() implies 0 <= #[trigger] o[t] < ms.len() by {
        assert(candidate(ms, o.take(t), o[t]));
    }
}

/// `order` lists every mod, each after the mods its dependencies name.
pub open spec fn dependency_order(ms: Seq<(String, ModManifest)>, order: Seq<int>) -> bool {
    &&& forall|p: int| 0 <= p < ms.len() ==> #[trigger] order.contains(p)
    &&& forall|t: int| 0 <= t < order.len() ==> 0 <= #[trigger] order[t] < ms.len()
    &&& forall|t: int, d: int|
        0 <= t < order.len() && 0 <= d < ms[order[t]].1.deps().len() ==> emitted_key(
            ms,
            order.take(t),
            #[trigger] ms[order[t]].1.deps()[d],
        )
}

/// Emission stops early only when no mod is ready.
proof fn lemma_kahn_from_stops(ms: Seq<(String, ModManifest)>, order: Seq<int>, fuel: nat)
    ensures
        kahn_from(ms, order, fuel).len() == order.len() + fuel || !exists|p: int|
            is_next(ms, kahn_from(ms, order, fuel), p),
    decreases fuel,
{
    if fuel > 0 && exists|p: int| is_next(ms, order, p) {
        let p = choose|p: int| is_next(ms, order, p);
        lemma_kahn_from_stops(ms, order.push(p), (fuel - 1) as nat);
    }
}

/// Among the candidates below `i`, one has the smallest key.
proof fn lemma_min_candidate(ms: Seq<(String, ModManifest)>, order: Seq<int>, i: int) -> (q: int)
    requires
        keys_distinct(ms),
        0 <= i <= ms.len(),
        exists|p: int| 0 <= p < i && candidate(ms, order, p),
    ensures
        0 <= q < i,
        candidate(ms, order, q),
        forall|p: int| 0 <= p < i && #[trigger] candidate(ms, order, p) && p != q ==> seq_lt(ms[q].0@, ms[p].0@),
    decreases i,
{
    if exists|p: int| 0 <= p < i - 1 && candidate(ms, order, p) {
        let q0 = lemma_min_candidate(ms, order, i - 1);
        if candidate(ms, order, i - 1) && seq_lt(ms[i - 1].0@, ms[q0].0@) {
            assert forall|p: int| 0 <= p < i && #[trigger] candidate(ms, order, p) && p != i - 1 implies seq_lt(ms[i - 1].0@, ms[p].0@) by {
                if p != q0 {
                    lemma_seq_lt_transitive(ms[i - 1].0@, ms[q0].0@, ms[p].0@);
                }
            }
            i - 1
        } else {
            if candidate(ms, order, i - 1) {
                assert(ms[i - 1].0@ != ms[q0].0@);
                lemma_seq_lt_total(ms[i - 1].0@, ms[q0].0@);
            }
            q0
        }
    } else {
        i - 1
    }
}

/// The dependency sort fails only when no dependency order exists: when
/// some order lists every mod after the mods its dependencies name, the
/// sort emits every mod.
pub proof fn lemma_sort_fails_only_without_order(ms: Seq<(String, ModManifest)>, order: Seq<int>)
    requires
        keys_distinct(ms),
        dependency_order(ms, order),
    ensures
        sort_succeeds(ms),
{
    let r = kahn_order(ms);
    let n = ms.len() as int;
    lemma_kahn_order_respects_dependencies(ms);
    lemma_kahn_from_stops(ms, seq![], ms.len() as nat);
    assert(r.no_duplicates());
    r.unique_seq_to_set();
    lemma_int_range(0, n);
    assert(r.to_set().subset_of(set_int_range(0, n)));
    lemma_len_subset(r.to_set(), set_int_range(0, n));
    if forall|p: int| 0 <= p < n ==> #[trigger] r.contains(p) {
        assert(set_int_range(0, n).subset_of(r.to_set()));
        lemma_len_subset(set_int_range(0, n), r.to_set());
    } else {
        let p0 = choose|p: int| 0 <= p < n && !#[trigger] r.contains(p);
        assert(order.contains(p0));
        let t1 = choose|t: int| 0 <= t < order.len() && order[t] == p0;
        let t0 = lemma_first_missing(order, r, t1);
        let p = order[t0];
        assert forall|d: int| 0 <= d < ms[p].1.deps().len() implies emitted_key(ms, r, #[trigger] ms[p].1.deps()[d]) by {
            let dep = ms[p].1.deps()[d];
            assert(emitted_key(ms, order.take(t0), ms[order[t0]].1.deps()[d]));
            let s = choose|s: int| 0 <= s < order.take(t0).len() && #[trigger] ms[order.take(t0)[s]].0@ == dep;
            assert(order.take(t0)[s] == order[s]);
            assert(r.contains(order[s]));
            let u = choose|u: int| 0 <= u < r.len() && r[u] == order[s];
            assert(ms[r[u]].0@ == dep);
        }
        assert(candidate(ms, r, p));
        let q = lemma_min_candidate(ms, r, n);
        assert(is_next(ms, r, q));
    }
}

/// The first position of `order` whose mod `r` does not contain.
proof fn lemma_first_missing(order: Seq<int>, r: Seq<int>, t: int) -> (t0: int)
    requires
        0 <= t < order.len(),
        !r.contains(order[t]),
    ensures
        0 <= t0 <= t,
        !r.contains(order[t0]),
        forall|s: int| 0 <= s < t0 ==> r.contains(#[trigger] order[s]),
    decreases t,
{
    if exists|s: int| 0 <= s < t && !r.contains(#[trigger] order[s]) {
        let s = choose|s: int| 0 <= s < t && !r.contains(#[trigger] order[s]);
        lemma_first_missing(order, r, s)
    } else {
        t
    }
}

/// Whether `v` is strictly increasing in alphabetical order.
pub open spec fn strictly_sorted(v: Seq<Seq<char>>) -> bool {
    forall|i: int, j: int| 0 <= i < j < v.len() ==> seq_lt(#[trigger] v[i], #[trigger] v[j])
}

/// Whether position `p` is emitted by the ordering.
pub open spec fn emitted(ms: Seq<(String, ModManifest)>, p: int) -> bool {
    kahn_order(ms).contains(p)
}

/// Result of the dependency sort, as plain values: the manifests in
/// emission order when every mod is emitted; otherwise the mods that were
/// not, which the list of an `Err` names in alphabetical order.
pub open spec fn sort_succeeds(ms: Seq<(String, ModManifest)>) -> bool {
    kahn_order(ms).len() == ms.len()
}

/// Whether the ready mods with keys `ks` exist: `p` is a candidate.
fn is_ready_exec(ms: &Vec<(String, ModManifest)>, done: &Vec<bool>, p: usize, order: Ghost<Seq<int>>) -> (r: bool)
    requires
        p < ms@.len(),
        done@.len() == ms@.len(),
        forall|q: int| 0 <= q < ms@.len() ==> (#[trigger] done@[q] <==> order@.contains(q)),
        forall|t: int| 0 <= t < order@.len() ==> 0 <= #[trigger] order@[t] < ms@.len(),
    ensures
        r == ready(ms@, order@, p as int),
{
    let deps = &ms[p].1.info.dependencies;
    let ghost dv = ms@[p as int].1.deps();
    let mut d: usize = 0;
    while d < deps.len()
        invariant
            d <= deps@.len(),
            deps@ == ms@[p as int].1.info.dependencies@,
            dv == deps@.map_values(|x: String| x@),
            done@.len() == ms@.len(),
            forall|q: int| 0 <= q < ms@.len() ==> (#[trigger] done@[q] <==> order@.contains(q)),
            forall|t: int| 0 <= t < order@.len() ==> 0 <= #[trigger] order@[t] < ms@.len(),
            forall|e: int| 0 <= e < d ==> emitted_key(ms@, order@, #[trigger] dv[e]),
        decreases deps@.len() - d,
    {
        let dep = deps[d].as_str();
        let mut found = false;
        let mut q: usize = 0;
        while q < ms.len()
            invariant
                q <= ms@.len(),
                done@.len() == ms@.len(),
                dep@ == dv[d as int],
                forall|q2: int| 0 <= q2 < ms@.len() ==> (#[trigger] done@[q2] <==> order@.contains(q2)),
                found ==> emitted_key(ms@, order@, dep@),
                !found ==> forall|q2: int| 0 <= q2 < q ==> !(#[trigger] done@[q2] && ms@[q2].0@ == dep@),
            decreases ms@.len() - q,
        {
            if done[q] && str_eq(ms[q].0.as_str(), dep) {
                proof {
                    assert(order@.contains(q as int));
                    let t = choose|t: int| 0 <= t < order@.len() && order@[t] == q as int;
                    assert(ms@[order@[t]].0@ == dep@);
                }
                found = true;
            }
            q = q + 1;
        }
        if !found {
            proof {
                if emitted_key(ms@, order@, dep@) {
                    let t = choose|t: int| 0 <= t < order@.len() && #[trigger] ms@[order@[t]].0@ == dep@;
                    let q2 = order@[t];
                    assert(order@.contains(q2));
                    assert(done@[q2]);
                }
                assert(!emitted_key(ms@, order@, dv[d as int]));
                assert(ms@[p as int].1.deps()[d as int] == dv[d as int]);
                assert(!emitted_key(ms@, order@, ms@[p as int].1.deps()[d as int]));
            }
            return false;
        }
        d = d + 1;
    }
    true
}

/// Inserts position `p` into `sorted` (positions strictly increasing by key)
/// keeping the order.
fn insert_sorted(ms: &Vec<(String, ModManifest)>, sorted: &mut Vec<usize>, p: usize)
    requires
        keys_distinct(ms@),
        p < ms@.len(),
        forall|i: int| 0 <= i < old(sorted)@.len() ==> #[trigger] old(sorted)@[i] < ms@.len(),
        forall|i: int| 0 <= i < old(sorted)@.len() ==> #[trigger] old(sorted)@[i] != p,
        forall|i: int, j: int|
            0 <= i < j < old(sorted)@.len() ==> seq_lt(
                ms@[#[trigger] old(sorted)@[i] as int].0@,
                ms@[#[trigger] old(sorted)@[j] as int].0@,
            ),
    ensures
        final(sorted)@.len() == old(sorted)@.len() + 1,
        forall|x: usize| #[trigger] final(sorted)@.contains(x) <==> (old(sorted)@.contains(x) || x == p),
        forall|i: int| 0 <= i < final(sorted)@.len() ==> #[trigger] final(sorted)@[i] < ms@.len(),
        forall|i: int, j: int|
            0 <= i < j < final(sorted)@.len() ==> seq_lt(
                ms@[#[trigger] final(sorted)@[i] as int].0@,
                ms@[#[trigger] final(sorted)@[j] as int].0@,
            ),
{
    let key = ms[p].0.as_str();
    let mut j: usize = 0;
    while j < sorted.len()
        invariant
            j <= sorted@.len(),
            sorted@ == old(sorted)@,
            key@ == ms@[p as int].0@,
            keys_distinct(ms@),
            p < ms@.len(),
            forall|i: int| 0 <= i < old(sorted)@.len() ==> #[trigger] old(sorted)@[i] != p,
            forall|i: int| 0 <= i < sorted@.len() ==> #[trigger] sorted@[i] < ms@.len(),
            forall|i: int| 0 <= i < j ==> seq_lt(ms@[#[trigger] sorted@[i] as int].0@, key@),
        ensures
            j <= sorted@.len(),
            sorted@ == old(sorted)@,
            forall|i: int| 0 <= i < j ==> seq_lt(ms@[#[trigger] sorted@[i] as int].0@, key@),
            j < sorted@.len() ==> seq_lt(key@, ms@[sorted@[j as int] as int].0@),
        decreases sorted@.len() - j,
    {
        if str_lt(key, ms[sorted[j]].0.as_str()) {
            break;
        }
        proof {
            assert(old(sorted)@[j as int] != p);
            assert(ms@[p as int].0@ != ms@[sorted@[j as int] as int].0@);
            lemma_seq_lt_total(ms@[p as int].0@, ms@[sorted@[j as int] as int].0@);
        }
        j = j + 1;
    }
    let ghost s0 = sorted@;
    sorted.insert(j, p);
    proof {
        s0.insert_ensures(j as int, p);
        assert forall|a: int, b: int|
            0 <= a < b < sorted@.len() implies seq_lt(
                ms@[#[trigger] sorted@[a] as int].0@,
                ms@[#[trigger] sorted@[b] as int].0@,
            ) by {
            if b < j {
            } else if b == j {
            } else if a < j {
                assert(sorted@[b] == s0[b - 1]);
                assert(seq_lt(ms@[s0[j as int] as int].0@, ms@[s0[b - 1] as int].0@) || b - 1 == j);
                lemma_seq_lt_transitive(ms@[sorted@[a] as int].0@, key@, ms@[s0[j as int] as int].0@);
                if b - 1 != j {
                    lemma_seq_lt_transitive(ms@[sorted@[a] as int].0@, ms@[s0[j as int] as int].0@, ms@[s0[b - 1] as int].0@);
                }
            } else if a == j {
                if b - 1 != j {
                    lemma_seq_lt_transitive(key@, ms@[s0[j as int] as int].0@, ms@[s0[b - 1] as int].0@);
                }
            } else {
                assert(sorted@[a] == s0[a - 1]);
                assert(sorted@[b] == s0[b - 1]);
            }
        }
        assert(sorted@ =~= s0.insert(j as int, p));
        assert forall|x: usize| #[trigger] sorted@.contains(x) <==> (s0.contains(x) || x == p) by {
            if sorted@.contains(x) {
                let i = choose|i: int| 0 <= i < sorted@.len() && sorted@[i] == x;
                if i < j {
                    assert(s0[i] == x);
                } else if i > j {
                    assert(s0[i - 1] == x);
                }
            }
            if s0.contains(x) {
                let i = choose|i: int| 0 <= i < s0.len() && s0[i] == x;
                if i < j {
                    assert(sorted@[i] == x);
                } else {
                    assert(sorted@[i + 1] == x);
                }
            }
            if x == p {
                assert(sorted@[j as int] == x);
            }
        }
    }
}

/// Topologically sorts manifests keyed by mod id.
///
/// `Ok` holds the manifests in dependency order: every mod comes after all
/// of its dependencies, and among the mods whose dependencies have all been
/// placed the alphabetically smallest id comes first.  `Err` lists, in
/// alphabetical order, the ids that could never be placed — the members of
/// a dependency cycle and the mods that (transitively) depend on a mod that
/// is not in the map.
pub fn topological_sort(manifests: Vec<(String, ModManifest)>) -> (r: Result<
    Vec<ModManifest>,
    Vec<String>,
>)
    requires
        keys_distinct(manifests@),
    ensures
        sort_succeeds(manifests@) <==> r is Ok,
        r matches Ok(v) ==> v@.len() == manifests@.len() && forall|t: int|
            0 <= t < v@.len() ==> #[trigger] v@[t]@ == manifests@[kahn_order(manifests@)[t]].1@,
        r matches Err(v) ==> strictly_sorted(string_views(v@)) && forall|k: Seq<char>|
            #![trigger string_views(v@).contains(k)]
            string_views(v@).contains(k) <==> exists|p: int|
                0 <= p < manifests@.len() && !emitted(manifests@, p) && #[trigger] manifests@[p].0@
                    == k,
{
    let ghost ms = manifests@;
    let n = manifests.len();
    let mut done: Vec<bool> = Vec::new();
    let mut i: usize = 0;
    while i < n
        invariant
            i <= n,
            done@.len() == i,
            forall|q: int| 0 <= q < i ==> !#[trigger] done@[q],
        decreases n - i,
    {
        done.push(false);
        i = i + 1;
    }
    let mut order: Vec<usize> = Vec::new();
    let ghost mut og: Seq<int> = seq![];
    assert(well_ordered(ms, og));
    while order.len() < n
        invariant
            ms == manifests@,
            n == ms.len(),
            keys_distinct(ms),
            done@.len() == n,
            og.len() == order@.len(),
            forall|t: int| 0 <= t < og.len() ==> #[trigger] og[t] == order@[t] as int,
            forall|t: int| 0 <= t < og.len() ==> 0 <= #[trigger] og[t] < n,
            forall|q: int| 0 <= q < n ==> (#[trigger] done@[q] <==> og.contains(q)),
            order@.len() <= n,
            kahn_order(ms) == kahn_from(ms, og, (n - og.len()) as nat),
        ensures
            kahn_order(ms) == og,
            done@.len() == n,
            og.len() == order@.len(),
            forall|t: int| 0 <= t < og.len() ==> #[trigger] og[t] == order@[t] as int,
            forall|t: int| 0 <= t < og.len() ==> 0 <= #[trigger] og[t] < n,
            forall|q: int| 0 <= q < n ==> (#[trigger] done@[q] <==> og.contains(q)),
        decreases n - order@.len(),
    {
        let mut best: Option<usize> = None;
        let mut p: usize = 0;
        while p < n
            invariant
                p <= n,
                ms == manifests@,
                n == ms.len(),
                keys_distinct(ms),
                done@.len() == n,
                forall|q: int| 0 <= q < n ==> (#[trigger] done@[q] <==> og.contains(q)),
                forall|t: int| 0 <= t < og.len() ==> 0 <= #[trigger] og[t] < n,
                best matches Some(b) ==> b < p && candidate(ms, og, b as int),
                best matches Some(b) ==> forall|q: int|
                    0 <= q < p && q != b && #[trigger] candidate(ms, og, q) ==> seq_lt(ms[b as int].0@, ms[q].0@),
                best is None ==> forall|q: int| 0 <= q < p ==> !#[trigger] candidate(ms, og, q),
            decreases n - p,
        {
            if !done[p] && is_ready_exec(&manifests, &done, p, Ghost(og)) {
                match best {
                    None => {
                        best = Some(p);
                    },
                    Some(b) => {
                        if str_lt(manifests[p].0.as_str(), manifests[b].0.as_str()) {
                            proof {
                                assert forall|q: int|
                                    0 <= q < p + 1 && q != p && #[trigger] candidate(ms, og, q) implies seq_lt(ms[p as int].0@, ms[q].0@) by {
                                    if q != b {
                                        lemma_seq_lt_transitive(ms[p as int].0@, ms[b as int].0@, ms[q].0@);
                                    }
                                }
                            }
                            best = Some(p);
                        } else {
                            proof {
                                lemma_seq_lt_total(ms[p as int].0@, ms[b as int].0@);
                            }
                        }
                    },
                }
            }
            p = p + 1;
        }
        match best {
            None => {
                proof {
                    if exists|q: int| is_next(ms, og, q) {
                        let q = choose|q: int| is_next(ms, og, q);
                        assert(candidate(ms, og, q));
                    }
                    assert(kahn_from(ms, og, (n - og.len()) as nat) == og);
                    assert(kahn_order(ms) == og);
                }
                break;
            },
            Some(b) => {
                proof {
                    assert(is_next(ms, og, b as int));
                    let c = choose|q: int| is_next(ms, og, q);
                    lemma_is_next_unique(ms, og, b as int, c);
                    assert(kahn_from(ms, og, (n - og.len()) as nat) == kahn_from(ms, og.push(b as int), (n - og.len() - 1) as nat));
                }
                let ghost og0 = og;
                done.set(b, true);
                order.push(b);
                proof {
                    og = og.push(b as int);
                    assert forall|q: int| 0 <= q < n implies (#[trigger] done@[q] <==> og.contains(q)) by {
                        if og.contains(q) && q != b as int {
                            let t = choose|t: int| 0 <= t < og.len() && og[t] == q;
                            assert(og0[t] == q);
                        }
                        if og0.contains(q) {
                            let t = choose|t: int| 0 <= t < og0.len() && og0[t] == q;
                            assert(og[t] == q);
                        }
                        if q == b as int {
                            assert(og[og.len() - 1] == q);
                        }
                    }
                }
            },
        }
    }
    if order.len() == n {
        let mut out: Vec<ModManifest> = Vec::new();
        let mut t: usize = 0;
        while t < n
            invariant
                t <= n,
                n == ms.len(),
                ms == manifests@,
                order@.len() == n,
                og.len() == order@.len(),
                kahn_order(ms) == og,
                forall|u: int| 0 <= u < og.len() ==> #[trigger] og[u] == order@[u] as int,
                forall|u: int| 0 <= u < og.len() ==> 0 <= #[trigger] og[u] < n,
                out@.len() == t,
                forall|u: int| 0 <= u < t ==> #[trigger] out@[u]@ == ms[og[u]].1@,
            decreases n - t,
        {
            assert(og[t as int] == order@[t as int] as int);
            out.push(manifests[order[t]].1.duplicate());
            t = t + 1;
        }
        proof {
            assert(sort_succeeds(ms));
        }
        Ok(out)
    } else {
        let mut sorted: Vec<usize> = Vec::new();
        let mut q: usize = 0;
        while q < n
            invariant
                q <= n,
                n == ms.len(),
                ms == manifests@,
                keys_distinct(ms),
                kahn_order(ms) == og,
                done@.len() == n,
                forall|q2: int| 0 <= q2 < n ==> (#[trigger] done@[q2] <==> og.contains(q2)),
                forall|i: int| 0 <= i < sorted@.len() ==> #[trigger] sorted@[i] < n,
                forall|i: int| 0 <= i < sorted@.len() ==> #[trigger] sorted@[i] < q,
                forall|i: int, j: int|
                    0 <= i < j < sorted@.len() ==> seq_lt(
                        ms[#[trigger] sorted@[i] as int].0@,
                        ms[#[trigger] sorted@[j] as int].0@,
                    ),
                forall|x: usize| #![trigger sorted@.contains(x)] sorted@.contains(x) <==> (x < q && !done@[x as int]),
            decreases n - q,
        {
            if !done[q] {
                let ghost s0 = sorted@;
                insert_sorted(&manifests, &mut sorted, q);
                proof {
                    assert forall|x: usize| #![trigger sorted@.contains(x)] sorted@.contains(x) <==> (x < q + 1 && !done@[x as int]) by {
                        assert(sorted@.contains(x) <==> (s0.contains(x) || x == q));
                    }
                    assert forall|i: int| 0 <= i < sorted@.len() implies #[trigger] sorted@[i] < q + 1 by {
                        assert(sorted@.contains(sorted@[i]));
                    }
                }
            } else {
                proof {
                    assert forall|x: usize| #![trigger sorted@.contains(x)] sorted@.contains(x) <==> (x < q + 1 && !done@[x as int]) by {
                        if x == q {
                            if sorted@.contains(x) {
                                let i = choose|i: int| 0 <= i < sorted@.len() && sorted@[i] == x;
                            }
                        }
                    }
                }
            }
            q = q + 1;
        }
        let mut out: Vec<String> = Vec::new();
        let mut t: usize = 0;
        while t < sorted.len()
            invariant
                t <= sorted@.len(),
                ms == manifests@,
                forall|i: int| 0 <= i < sorted@.len() ==> #[trigger] sorted@[i] < ms.len(),
                out@.len() == t,
                forall|u: int| 0 <= u < t ==> #[trigger] out@[u]@ == ms[sorted@[u] as int].0@,
            decreases sorted@.len() - t,
        {
            out.push(manifests[sorted[t]].0.clone());
            t = t + 1;
        }
        proof {
            let ov = string_views(out@);
            assert(!sort_succeeds(ms));
            assert forall|i: int, j: int| 0 <= i < j < ov.len() implies seq_lt(#[trigger] ov[i], #[trigger] ov[j]) by {
                assert(ov[i] == ms[sorted@[i] as int].0@);
                assert(ov[j] == ms[sorted@[j] as int].0@);
            }
            assert forall|k: Seq<char>| #![trigger ov.contains(k)] ov.contains(k) <==> exists|p: int|
                0 <= p < ms.len() && !emitted(ms, p) && #[trigger] ms[p].0@ == k by {
                if ov.contains(k) {
                    let i = choose|i: int| 0 <= i < ov.len() && ov[i] == k;
                    let p = sorted@[i] as int;
                    assert(sorted@.contains(sorted@[i]));
                    assert(!done@[p]);
                    assert(!emitted(ms, p));
                    assert(ms[p].0@ == k);
                }
                if exists|p: int| 0 <= p < ms.len() && !emitted(ms, p) && #[trigger] ms[p].0@ == k {
                    let p = choose|p: int| 0 <= p < ms.len() && !emitted(ms, p) && #[trigger] ms[p].0@ == k;
                    assert(!done@[p]);
                    assert(sorted@.contains(p as usize));
                    let i = choose|i: int| 0 <= i < sorted@.len() && sorted@[i] == p as usize;
                    assert(ov[i] == k);
                }
            }
        }
        Err(out)
    }
}

// ── Discovery ─────────────────────────────────────────────────────────────

/// The `(directory name, manifest)` pairs whose `mod.id` equals the
/// directory name, in order.
pub open spec fn id_matches_dir(raw: Seq<(String, ModManifest)>) -> Seq<(String, ModManifest)>
    decreases raw.len(),
{
    if raw.len() == 0 {
        seq![]
    } else {
        let rest = id_matches_dir(raw.drop_last());
        if raw.last().1.info.id@ == raw.last().0@ {
            rest.push(raw.last())
        } else {
            rest
        }
    }
}

/// Whether every declared dependency of `m` is among `present`.
pub open spec fn deps_present(m: ModManifest, present: Seq<Seq<char>>) -> bool {
    forall|d: int| 0 <= d < m.deps().len() ==> present.contains(#[trigger] m.deps()[d])
}

/// The pairs of `ms` whose dependencies are all among `present`, in order.
pub open spec fn with_deps_present(ms: Seq<(String, ModManifest)>, present: Seq<Seq<char>>) -> Seq<
    (String, ModManifest),
>
    decreases ms.len(),
{
    if ms.len() == 0 {
        seq![]
    } else {
        let rest = with_deps_present(ms.drop_last(), present);
        if deps_present(ms.last().1, present) {
            rest.push(ms.last())
        } else {
            rest
        }
    }
}

/// The keys of a keyed list, in order.
pub open spec fn key_views(ms: Seq<(String, ModManifest)>) -> Seq<Seq<char>> {
    ms.map_values(|p: (String, ModManifest)| p.0@)
}

/// Repeatedly drops the mods of `ms` with a dependency that is not among
/// the remaining mods, until none is dropped (or `fuel` rounds are spent).
pub open spec fn prune(ms: Seq<(String, ModManifest)>, fuel: nat) -> Seq<(String, ModManifest)>
    decreases fuel,
{
    let next = with_deps_present(ms, key_views(ms));
    if fuel == 0 || next.len() == ms.len() {
        ms
    } else {
        prune(next, (fuel - 1) as nat)
    }
}

/// Filtering never lengthens a list.
proof fn lemma_with_deps_present_len(ms: Seq<(String, ModManifest)>, present: Seq<Seq<char>>)
    ensures
        with_deps_present(ms, present).len() <= ms.len(),
    decreases ms.len(),
{
    if ms.len() > 0 {
        lemma_with_deps_present_len(ms.drop_last(), present);
    }
}

/// A filter that keeps the length keeps every element.
proof fn lemma_with_deps_present_same_len(ms: Seq<(String, ModManifest)>, present: Seq<Seq<char>>)
    requires
        with_deps_present(ms, present).len() == ms.len(),
    ensures
        with_deps_present(ms, present) == ms,
    decreases ms.len(),
{
    if ms.len() > 0 {
        lemma_with_deps_present_len(ms.drop_last(), present);
        let rest = with_deps_present(ms.drop_last(), present);
        if deps_present(ms.last().1, present) {
            lemma_with_deps_present_same_len(ms.drop_last(), present);
            assert(rest.push(ms.last()) =~= ms);
        }
    }
}

/// The mods that discovery loads, in load order: those whose id matches
/// their directory, less every mod with a dependency that is not loaded
/// (dropped again and again until none is left to drop), dependency-sorted;
/// nothing at all when the sort finds a dependency cycle.
pub open spec fn installable_spec(raw: Seq<(String, ModManifest)>) -> Seq<ManifestView> {
    let v = id_matches_dir(raw);
    let k = prune(v, v.len());
    if sort_succeeds(k) {
        kahn_order(k).map_values(|p: int| k[p].1@)
    } else {
        seq![]
    }
}

/// Removes every element of `v` from the front, keeping those `keep` marks,
/// in order.
fn take_marked(v: Vec<(String, ModManifest)>, keep: &Vec<bool>) -> (r: Vec<(String, ModManifest)>)
    requires
        keep@.len() == v@.len(),
    ensures
        r@ == marked_spec(v@, keep@),
{
    let mut v = v;
    let ghost orig = v@;
    let mut r: Vec<(String, ModManifest)> = Vec::new();
    let mut i: usize = 0;
    while v.len() > 0
        invariant
            i + v@.len() == orig.len(),
            keep@.len() == orig.len(),
            v@ == orig.skip(i as int),
            r@ == marked_spec(orig.take(i as int), keep@.take(i as int)),
        decreases v@.len(),
    {
        let x = v.remove(0);
        proof {
            assert(orig.take(i + 1).drop_last() =~= orig.take(i as int));
            assert(keep@.take(i + 1).drop_last() =~= keep@.take(i as int));
            assert(orig.take(i + 1).last() == orig[i as int]);
            assert(x == orig[i as int]);
            assert(v@ =~= orig.skip(i + 1));
        }
        if keep[i] {
            r.push(x);
        }
        let kl = keep.len();
        assert(i < kl);
        i = i + 1;
    }
    assert(orig.take(i as int) =~= orig);
    assert(keep@.take(i as int) =~= keep@);
    r
}

/// The elements of `v` whose mark in `keep` is set, in order.
pub open spec fn marked_spec(v: Seq<(String, ModManifest)>, keep: Seq<bool>) -> Seq<(String, ModManifest)>
    decreases v.len(),
{
    if v.len() == 0 || keep.len() == 0 {
        seq![]
    } else {
        let rest = marked_spec(v.drop_last(), keep.drop_last());
        if keep.last() {
            rest.push(v.last())
        } else {
            rest
        }
    }
}

/// Keys of `marked_spec` come from the keys of the input.
proof fn lemma_marked_keys(v: Seq<(String, ModManifest)>, keep: Seq<bool>)
    requires
        keep.len() == v.len(),
        keys_distinct(v),
    ensures
        keys_distinct(marked_spec(v, keep)),
        forall|a: int| 0 <= a < marked_spec(v, keep).len() ==> key_views(v).contains(
            #[trigger] marked_spec(v, keep)[a].0@,
        ),
    decreases v.len(),
{
    if v.len() > 0 {
        let rest = marked_spec(v.drop_last(), keep.drop_last());
        let last = v[v.len() - 1];
        assert forall|i: int, j: int|
            0 <= i < v.drop_last().len() && 0 <= j < v.drop_last().len() && i != j implies #[trigger] v.drop_last()[i].0@ != #[trigger] v.drop_last()[j].0@ by {
            assert(v[i].0@ != v[j].0@);
        }
        lemma_marked_keys(v.drop_last(), keep.drop_last());
        let m = marked_spec(v, keep);
        assert forall|a: int| 0 <= a < m.len() implies key_views(v).contains(#[trigger] m[a].0@) by {
            if a < rest.len() {
                assert(key_views(v.drop_last()).contains(rest[a].0@));
                let j = choose|j: int| 0 <= j < key_views(v.drop_last()).len() && key_views(v.drop_last())[j] == rest[a].0@;
                assert(key_views(v)[j] == m[a].0@);
            } else {
                assert(key_views(v)[v.len() - 1] == m[a].0@);
            }
        }
        if keep.last() {
            assert forall|i: int, j: int|
                0 <= i < m.len() && 0 <= j < m.len() && i != j implies #[trigger] m[i].0@ != #[trigger] m[j].0@ by {
                if i < rest.len() && j < rest.len() {
                } else if i < rest.len() {
                    assert(key_views(v.drop_last()).contains(rest[i].0@));
                    let ji = choose|ji: int| 0 <= ji < key_views(v.drop_last()).len() && key_views(v.drop_last())[ji] == rest[i].0@;
                    assert(v[ji].0@ != v[v.len() - 1].0@);
                } else if j < rest.len() {
                    assert(key_views(v.drop_last()).contains(rest[j].0@));
                    let jj = choose|jj: int| 0 <= jj < key_views(v.drop_last()).len() && key_views(v.drop_last())[jj] == rest[j].0@;
                    assert(v[jj].0@ != v[v.len() - 1].0@);
                }
            }
        }
    }
}

/// `id_matches_dir` keeps exactly the pairs marked by the id check.
proof fn lemma_id_matches_dir_marked(raw: Seq<(String, ModManifest)>, keep: Seq<bool>)
    requires
        keep.len() == raw.len(),
        forall|i: int| 0 <= i < raw.len() ==> #[trigger] keep[i] == (raw[i].1.info.id@ == raw[i].0@),
    ensures
        marked_spec(raw, keep) == id_matches_dir(raw),
    decreases raw.len(),
{
    if raw.len() > 0 {
        lemma_id_matches_dir_marked(raw.drop_last(), keep.drop_last());
    }
}

/// `with_deps_present` keeps exactly the pairs marked by the dependency check.
proof fn lemma_deps_present_marked(ms: Seq<(String, ModManifest)>, keep: Seq<bool>, present: Seq<Seq<char>>)
    requires
        keep.len() == ms.len(),
        forall|i: int| 0 <= i < ms.len() ==> #[trigger] keep[i] == deps_present(ms[i].1, present),
    ensures
        marked_spec(ms, keep) == with_deps_present(ms, present),
    decreases ms.len(),
{
    if ms.len() > 0 {
        lemma_deps_present_marked(ms.drop_last(), keep.drop_last(), present);
    }
}

/// Whether one of the pairs of `ms` has key `k`.
fn has_key(ms: &Vec<(String, ModManifest)>, k: &str) -> (r: bool)
    ensures
        r == key_views(ms@).contains(k@),
{
    let mut i: usize = 0;
    while i < ms.len()
        invariant
            i <= ms@.len(),
            forall|j: int| 0 <= j < i ==> #[trigger] ms@[j].0@ != k@,
        decreases ms@.len() - i,
    {
        if str_eq(ms[i].0.as_str(), k) {
            assert(key_views(ms@)[i as int] == k@);
            return true;
        }
        i = i + 1;
    }
    proof {
        if key_views(ms@).contains(k@) {
            let j = choose|j: int| 0 <= j < key_views(ms@).len() && key_views(ms@)[j] == k@;
            assert(ms@[j].0@ == k@);
        }
    }
    false
}

/// The pairs of `ms` whose declared dependencies are all among the keys of
/// `ms`, in order.
fn drop_unmet(ms: Vec<(String, ModManifest)>) -> (r: Vec<(String, ModManifest)>)
    requires
        keys_distinct(ms@),
    ensures
        r@ == with_deps_present(ms@, key_views(ms@)),
        keys_distinct(r@),
{
    let ghost v = ms@;
    let mut keep2: Vec<bool> = Vec::new();
    let mut i: usize = 0;
    while i < ms.len()
        invariant
            i <= ms@.len(),
            keep2@.len() == i,
            forall|j: int| 0 <= j < i ==> #[trigger] keep2@[j] == deps_present(ms@[j].1, key_views(ms@)),
        decreases ms@.len() - i,
    {
        let deps = &ms[i].1.info.dependencies;
        let mut ok = true;
        let mut d: usize = 0;
        while d < deps.len()
            invariant
                d <= deps@.len(),
                deps@ == ms@[i as int].1.info.dependencies@,
                ok == forall|e: int| 0 <= e < d ==> key_views(ms@).contains(#[trigger] ms@[i as int].1.deps()[e]),
            decreases deps@.len() - d,
        {
            let present = has_key(&ms, deps[d].as_str());
            assert(ms@[i as int].1.deps()[d as int] == deps@[d as int]@);
            if !present {
                ok = false;
            }
            d = d + 1;
        }
        keep2.push(ok);
        i = i + 1;
    }
    proof {
        lemma_deps_present_marked(v, keep2@, key_views(v));
        lemma_marked_keys(v, keep2@);
    }
    take_marked(ms, &keep2)
}

/// Discovery's selection and ordering of mods.  `raw` holds, for every mod
/// directory whose `mod.toml` parsed, the directory name and the manifest.
/// A mod is kept when its `mod.id` equals its directory name and every
/// dependency it declares is among the kept ids (dropping a mod can drop
/// the mods depending on it in turn); the kept mods are returned in
/// dependency order, or none at all when a dependency cycle prevents it.
pub fn select_installable(raw: Vec<(String, ModManifest)>) -> (r: Vec<ModManifest>)
    requires
        keys_distinct(raw@),
    ensures
        r@.map_values(|m: ModManifest| m@) == installable_spec(raw@),
{
    let ghost raw0 = raw@;
    let mut keep1: Vec<bool> = Vec::new();
    let mut i: usize = 0;
    while i < raw.len()
        invariant
            i <= raw@.len(),
            keep1@.len() == i,
            forall|j: int| 0 <= j < i ==> #[trigger] keep1@[j] == (raw@[j].1.info.id@ == raw@[j].0@),
        decreases raw@.len() - i,
    {
        keep1.push(str_eq(raw[i].1.info.id.as_str(), raw[i].0.as_str()));
        i = i + 1;
    }
    proof {
        lemma_id_matches_dir_marked(raw0, keep1@);
        lemma_marked_keys(raw0, keep1@);
    }
    let validated = take_marked(raw, &keep1);
    let ghost v = validated@;
    let ghost mut fuel: nat = v.len();
    let mut cur = validated;
    loop
        invariant
            keys_distinct(cur@),
            cur@.len() <= fuel,
            prune(cur@, fuel) == prune(v, v.len()),
        ensures
            keys_distinct(cur@),
            cur@ == prune(v, v.len()),
        decreases cur@.len(),
    {
        let n = cur.len();
        let ghost c0 = cur@;
        let next = drop_unmet(cur);
        proof {
            lemma_with_deps_present_len(c0, key_views(c0));
        }
        if next.len() == n {
            assert(prune(c0, fuel) == c0);
            cur = next;
            assert(cur@ =~= c0) by {
                lemma_with_deps_present_same_len(c0, key_views(c0));
            }
            break;
        }
        proof {
            assert(fuel > 0);
            assert(prune(c0, fuel) == prune(next@, (fuel - 1) as nat));
            fuel = (fuel - 1) as nat;
        }
        cur = next;
    }
    let kept = cur;
    assert(kept@ == prune(v, v.len()));
    match topological_sort(kept) {
        Ok(sorted) => {
            proof {
                let k = prune(v, v.len());
                assert(sorted@.map_values(|m: ModManifest| m@) =~= kahn_order(k).map_values(|p: int| k[p].1@));
            }
            sorted
        },
        Err(_) => {
            let r: Vec<ModManifest> = Vec::new();
            assert(r@.map_values(|m: ModManifest| m@) =~= installable_spec(raw0));
            r
        },
    }
}

} // verus!
