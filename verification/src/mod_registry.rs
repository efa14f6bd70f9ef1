//! Mod directory discovery: which sub-directories of `mods/` are loaded,
//! and in what order.
//!
//! A directory is loaded when its `mod.toml` parses, declares
//! `schema_version = 1`, and its `[mod].id` equals the directory's name.
//! Loaded mods come in alphabetical order of directory name. The
//! filesystem is read by the caller, who describes each directory as a
//! [`ModDirEntry`].

use vstd::prelude::*;
use crate::text::{chars_of, seq_lt, str_eq, str_lt, string_of};

verus! {

/// What reading a directory's `mod.toml` gave.
#[derive(Clone, Debug)]
pub enum ManifestProbe {
    /// There is no `mod.toml`.
    Missing,
    /// The file exists but could not be read.
    Unreadable,
    /// The file could not be parsed as a manifest.
    Malformed,
    /// The manifest's fields.
    Parsed {
        /// `schema_version`.
        schema_version: u32,
        /// `[mod].id`.
        id: String,
        /// `[mod].name`.
        name: String,
        /// `[mod].version`.
        version: String,
    },
}

/// One sub-directory of the mods directory.
#[derive(Clone, Debug)]
pub struct ModDirEntry {
    /// The directory's own name.
    pub dir_name: String,
    /// The directory's path.
    pub dir_path: String,
    /// What its manifest held.
    pub manifest: ManifestProbe,
}

/// A discovered and validated mod.
#[derive(Clone, Debug)]
pub struct LoadedMod {
    /// Unique id; equals the directory name.
    pub id: String,
    /// Display name.
    pub name: String,
    /// Path of the mod's root directory.
    pub dir: String,
}

/// `base` joined with `rel` as `Path::join` joins on Unix: an absolute
/// `rel` replaces `base`; otherwise a separator is added unless `base` is
/// empty or already ends with one.
pub open spec fn path_join(base: Seq<char>, rel: Seq<char>) -> Seq<char> {
    if rel.len() > 0 && rel[0] == '/' {
        rel
    } else if base.len() == 0 {
        rel
    } else if base.last() == '/' {
        base + rel
    } else {
        base + seq!['/'] + rel
    }
}

/// `Path::join` on Unix path strings.
pub fn join_path(base: &str, rel: &str) -> (p: String)
    ensures
        p@ == path_join(base@, rel@),
{
    let b = chars_of(base);
    let r = chars_of(rel);
    if r.len() > 0 && r[0] == '/' {
        return string_of(&r);
    }
    let mut v = b.clone();
    if b.len() > 0 && b[b.len() - 1] != '/' {
        v.push('/');
    }
    let ghost pre = v@;
    let mut i: usize = 0;
    while i < r.len()
        invariant
            i <= r.len(),
            v@ == pre + r@.take(i as int),
        decreases r.len() - i,
    {
        v.push(r[i]);
        i = i + 1;
        assert(v@ =~= pre + r@.take(i as int));
    }
    assert(r@.take(r.len() as int) =~= r@);
    assert(v@ =~= path_join(base@, rel@));
    string_of(&v)
}

impl LoadedMod {
    /// The mod's id.
    pub fn id(&self) -> (s: &str)
        ensures
            s@ == self.id@,
    {
        self.id.as_str()
    }

    /// Root of the mod's `assets/` tree.
    pub fn asset_root(&self) -> (p: String)
        ensures
            p@ == path_join(self.dir@, "assets"@),
    {
        join_path(self.dir.as_str(), "assets")
    }

    /// Path of an asset inside the mod's `assets/` tree, mirroring the base
    /// game's layout.
    pub fn asset_path(&self, relative: &str) -> (p: String)
        ensures
            p@ == path_join(path_join(self.dir@, "assets"@), relative@),
    {
        let root = self.asset_root();
        join_path(root.as_str(), relative)
    }
}

/// The discovered mods, in load order.
#[derive(Clone, Debug)]
pub struct ModRegistry {
    /// Mods sorted by directory name.
    pub mods: Vec<LoadedMod>,
}

impl ModRegistry {
    /// The discovered mods, in load order.
    pub fn mods(&self) -> (m: &[LoadedMod])
        ensures
            m@ == self.mods@,
    {
        self.mods.as_slice()
    }
}

impl Default for ModRegistry {
    fn default() -> (r: Self)
        ensures
            r.mods@.len() == 0,
    {
        ModRegistry { mods: Vec::new() }
    }
}

/// Whether the directory is loaded: its manifest parsed, has schema 1, and
/// its id is the directory's name.
pub open spec fn accepted(e: ModDirEntry) -> bool {
    match e.manifest {
        ManifestProbe::Parsed { schema_version, id, .. } => schema_version == 1 && id@
            == e.dir_name@,
        _ => false,
    }
}

/// Whether the entry at `a` sorts before the one at `b`: by directory name,
/// equal names in listing order.
pub open spec fn dir_before(es: Seq<ModDirEntry>, a: usize, b: usize) -> bool {
    ||| seq_lt(es[a as int].dir_name@, es[b as int].dir_name@)
    ||| (es[a as int].dir_name@ == es[b as int].dir_name@ && a < b)
}

/// `order` lists every entry position once, sorted by `dir_before`.
pub open spec fn is_dir_order(es: Seq<ModDirEntry>, order: Seq<usize>) -> bool {
    &&& forall|k: int| 0 <= k < order.len() ==> (#[trigger] order[k]) < es.len()
    &&& forall|p: usize| p < es.len() ==> #[trigger] order.contains(p)
    &&& forall|k: int, l: int| 0 <= k < l < order.len() ==> dir_before(es, order[k], order[l])
}

/// The `(id, name, dir)` of the loaded mods among the first `n` listed
/// positions.
pub open spec fn loaded_views(es: Seq<ModDirEntry>, order: Seq<usize>, n: int) -> Seq<
    (Seq<char>, Seq<char>, Seq<char>),
>
    decreases n,
{
    if n <= 0 {
        Seq::empty()
    } else {
        let e = es[order[n - 1] as int];
        loaded_views(es, order, n - 1) + match e.manifest {
            ManifestProbe::Parsed { schema_version, id, name, .. } => if schema_version == 1 && id@
                == e.dir_name@ {
                seq![(id@, name@, e.dir_path@)]
            } else {
                Seq::empty()
            },
            _ => Seq::empty(),
        }
    }
}

/// `(id, name, dir)` of each mod.
pub open spec fn mod_views(ms: Seq<LoadedMod>) -> Seq<(Seq<char>, Seq<char>, Seq<char>)> {
    Seq::new(ms.len(), |i: int| (ms[i].id@, ms[i].name@, ms[i].dir@))
}

/// The directory order is determined by the entries.
pub proof fn lemma_dir_order_unique(es: Seq<ModDirEntry>, o1: Seq<usize>, o2: Seq<usize>)
    requires
        is_dir_order(es, o1),
        is_dir_order(es, o2),
    ensures
        o1 == o2,
{
    let lt = |a: usize, b: usize| dir_before(es, a, b);
    assert forall|a: usize, b: usize| #[trigger] lt(a, b) implies !lt(b, a) by {
        if seq_lt(es[a as int].dir_name@, es[b as int].dir_name@) {
            crate::text::lemma_seq_lt_asymmetric(es[a as int].dir_name@, es[b as int].dir_name@);
            crate::text::lemma_seq_lt_irreflexive(es[a as int].dir_name@);
        }
    }
    assert forall|a: usize| !#[trigger] lt(a, a) by {
        crate::text::lemma_seq_lt_irreflexive(es[a as int].dir_name@);
    }
    assert forall|k: int, l: int| 0 <= k < l < o1.len() implies lt(o1[k], o1[l]) by {}
    assert forall|k: int, l: int| 0 <= k < l < o2.len() implies lt(o2[k], o2[l]) by {}
    assert forall|x: usize| o1.contains(x) <==> o2.contains(x) by {
        if o1.contains(x) {
            let k = choose|k: int| 0 <= k < o1.len() && o1[k] == x;
            assert(x < es.len());
        }
        if o2.contains(x) {
            let k = choose|k: int| 0 <= k < o2.len() && o2[k] == x;
            assert(x < es.len());
        }
    }
    crate::order::lemma_strictly_sorted_unique(lt, o1, o2);
}

fn dir_order(es: &Vec<ModDirEntry>) -> (order: Vec<usize>)
    ensures
        is_dir_order(es@, order@),
{
    let mut order: Vec<usize> = Vec::new();
    let mut p: usize = 0;
    while p < es.len()
        invariant
            p <= es.len(),
            forall|k: int| 0 <= k < order.len() ==> (#[trigger] order@[k]) < p,
            forall|q: usize| q < p ==> #[trigger] order@.contains(q),
            forall|k: int, l: int| 0 <= k < l < order.len() ==> dir_before(es@, order@[k], order@[l]),
        decreases es.len() - p,
    {
        let mut j: usize = order.len();
        while j > 0 && str_lt(es[p].dir_name.as_str(), es[order[j - 1]].dir_name.as_str())
            invariant
                j <= order.len(),
                p < es.len(),
                forall|k: int| 0 <= k < order.len() ==> (#[trigger] order@[k]) < p,
                forall|k: int|
                    j <= k < order.len() ==> seq_lt(
                        es@[p as int].dir_name@,
                        es@[#[trigger] order@[k] as int].dir_name@,
                    ),
            decreases j,
        {
            j = j - 1;
        }
        let ghost before = order@;
        order.insert(j, p);
        assert forall|k: int, l: int| 0 <= k < l < order.len() implies dir_before(
            es@,
            order@[k],
            order@[l],
        ) by {
            if l < j {
                assert(order@[k] == before[k] && order@[l] == before[l]);
            } else if l == j {
                assert(order@[k] == before[k]);
                let q = before[j - 1];
                assert(!seq_lt(es@[p as int].dir_name@, es@[q as int].dir_name@));
                if es@[p as int].dir_name@ != es@[q as int].dir_name@ {
                    crate::text::lemma_seq_lt_total(es@[p as int].dir_name@, es@[q as int].dir_name@);
                }
                if k < j - 1 {
                    assert(dir_before(es@, before[k], q));
                    if seq_lt(es@[before[k] as int].dir_name@, es@[q as int].dir_name@) && seq_lt(
                        es@[q as int].dir_name@,
                        es@[p as int].dir_name@,
                    ) {
                        crate::text::lemma_seq_lt_transitive(
                            es@[before[k] as int].dir_name@,
                            es@[q as int].dir_name@,
                            es@[p as int].dir_name@,
                        );
                    }
                }
            } else if k < j {
                assert(order@[k] == before[k] && order@[l] == before[l - 1]);
            } else if k == j {
                assert(order@[l] == before[l - 1]);
            } else {
                assert(order@[k] == before[k - 1] && order@[l] == before[l - 1]);
            }
        }
        assert forall|q: usize| q < p + 1 implies #[trigger] order@.contains(q) by {
            if q == p {
                assert(order@[j as int] == q);
            } else {
                assert(before.contains(q));
                let k0 = choose|k: int| 0 <= k < before.len() && before[k] == q;
                if k0 < j {
                    assert(order@[k0] == q);
                } else {
                    assert(order@[k0 + 1] == q);
                }
            }
        }
        p = p + 1;
    }
    order
}

/// The mods to load among the directories `entries`: those whose manifest
/// parsed with schema 1 and an id equal to the directory name, in
/// alphabetical order of directory name.
pub fn discover_mods(entries: Vec<ModDirEntry>) -> (mods: Vec<LoadedMod>)
    ensures
        exists|order: Seq<usize>|
            #![trigger is_dir_order(entries@, order)]
            is_dir_order(entries@, order) && mod_views(mods@) == loaded_views(
                entries@,
                order,
                order.len() as int,
            ),
{
    let order = dir_order(&entries);
    let mut mods: Vec<LoadedMod> = Vec::new();
    let mut k: usize = 0;
    while k < order.len()
        invariant
            k <= order.len(),
            is_dir_order(entries@, order@),
            mod_views(mods@) == loaded_views(entries@, order@, k as int),
        decreases order.len() - k,
    {
        let e = &entries[order[k]];
        match &e.manifest {
            ManifestProbe::Parsed { schema_version, id, name, .. } => {
                if *schema_version == 1 && str_eq(id.as_str(), e.dir_name.as_str()) {
                    let ghost before = mods@;
                    mods.push(LoadedMod { id: id.clone(), name: name.clone(), dir: e.dir_path.clone() });
                    assert(mod_views(mods@) =~= mod_views(before) + seq![(id@, name@, e.dir_path@)]);
                } else {
                    assert(loaded_views(entries@, order@, k + 1) =~= loaded_views(entries@, order@, k as int));
                }
            },
            _ => {
                assert(loaded_views(entries@, order@, k + 1) =~= loaded_views(entries@, order@, k as int));
            },
        }
        k = k + 1;
    }
    mods
}

} // verus!
