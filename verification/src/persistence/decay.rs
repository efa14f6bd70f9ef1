//! Modification decay: keeping the bytes of player-made world changes under
//! a budget by evicting the least valuable changes first.
//!
//! Candidates are the changes whose weight is not `High`. They are evicted
//! in order of weight (`Low` before `Medium`), then by effective age (older
//! first), then by distance to the nearest anchor (farther first), ties in
//! listing order, until the total size fits the budget. Effective age and
//! anchor distance are computed from world positions by the caller and
//! handed over as order-preserving integer keys.

use vstd::prelude::*;

verus! {

/// Identifier of a decay anchor.
#[derive(Clone, Copy, Debug, PartialEq, Eq, Hash, Structural)]
pub struct AnchorId(pub u64);

/// Priority tier of a modification: `Low < Medium < High`. `High`
/// modifications are never evicted.
#[derive(Clone, Copy, Debug, PartialEq, Eq, PartialOrd, Ord, Hash, Structural)]
pub enum Weight {
    /// Decorative or transient changes, evicted first.
    Low,
    /// Significant changes, evicted after every `Low` one.
    Medium,
    /// Core structures and anchors, never evicted.
    High,
}

/// The tier's rank: 1, 2, 3 for `Low`, `Medium`, `High`.
pub open spec fn weight_rank(w: Weight) -> int {
    match w {
        Weight::Low => 1,
        Weight::Medium => 2,
        Weight::High => 3,
    }
}

/// A player-placed anchor that slows the decay of nearby changes. Its
/// position and radius are the bit patterns of `f32` world coordinates.
#[derive(Clone, Debug)]
pub struct AnchorRecord {
    /// Stable identifier.
    pub id: AnchorId,
    /// Bit patterns of the `[x, y, z]` position.
    pub position: [u32; 3],
    /// Bit pattern of the protection radius.
    pub radius: u32,
}

/// What a modification changed, with its estimated size in bytes.
#[derive(Clone, Copy, Debug, PartialEq, Eq, Structural)]
pub enum ModificationKind {
    /// A player-placed object.
    ChunkAddition {
        /// Estimated size of the record's data.
        data_bytes: usize,
    },
    /// A generated object the player removed.
    ChunkRemoval {
        /// Estimated size of the record's data.
        data_bytes: usize,
    },
}

impl ModificationKind {
    /// The size this kind records.
    pub open spec fn bytes(self) -> usize {
        match self {
            ModificationKind::ChunkAddition { data_bytes } => data_bytes,
            ModificationKind::ChunkRemoval { data_bytes } => data_bytes,
        }
    }

    /// Estimated size of the record's data in bytes.
    pub fn data_bytes(&self) -> (r: usize)
        ensures
            r == self.bytes(),
    {
        match self {
            ModificationKind::ChunkAddition { data_bytes } => *data_bytes,
            ModificationKind::ChunkRemoval { data_bytes } => *data_bytes,
        }
    }
}

/// One tracked world modification.
#[derive(Clone, Debug)]
pub struct ModificationRecord {
    /// Identifier used to evict the record.
    pub id: u64,
    /// What was changed, and its size.
    pub kind: ModificationKind,
    /// Priority tier.
    pub weight: Weight,
    /// Creation time, in seconds since the Unix epoch.
    pub created_at: u64,
    /// Anchors the record was associated with (informational).
    pub anchor_ids: Vec<AnchorId>,
    /// Bit patterns of the `[x, y, z]` position.
    pub position: [u32; 3],
}

/// Order-preserving keys of the two float quantities that rank candidates
/// within a weight tier: the effective age and the distance to the nearest
/// anchor. A larger key means an older change, or one farther away, and is
/// evicted first. (For non-negative finite floats the IEEE-754 bit pattern
/// is such a key.)
#[derive(Clone, Copy, Debug, PartialEq, Eq, Structural)]
pub struct EvictionRank {
    /// Key of the effective age.
    pub age: u64,
    /// Key of the distance to the nearest anchor.
    pub distance: u64,
}

/// The modifications and anchors the decay system manages.
#[derive(Debug)]
pub struct WorldState {
    /// The tracked modifications, in insertion order.
    pub modifications: Vec<ModificationRecord>,
    /// The anchors; never evicted.
    pub anchors: Vec<AnchorRecord>,
}

/// Sum of the records' sizes.
pub open spec fn total_size(ms: Seq<ModificationRecord>) -> nat
    decreases ms.len(),
{
    if ms.len() == 0 {
        0
    } else {
        total_size(ms.drop_last()) + ms.last().kind.bytes() as nat
    }
}

/// The records whose id differs from `id`, in order.
pub open spec fn without_id(ms: Seq<ModificationRecord>, id: u64) -> Seq<ModificationRecord>
    decreases ms.len(),
{
    if ms.len() == 0 {
        Seq::empty()
    } else {
        let r = without_id(ms.drop_first(), id);
        if ms[0].id == id {
            r
        } else {
            seq![ms[0]] + r
        }
    }
}

impl WorldState {
    /// An empty world state.
    pub fn new() -> (s: Self)
        ensures
            s.modifications@.len() == 0,
            s.anchors@.len() == 0,
    {
        WorldState { modifications: Vec::new(), anchors: Vec::new() }
    }

    /// Total estimated size of all tracked modifications, in bytes.
    pub fn estimated_size(&self) -> (r: usize)
        requires
            total_size(self.modifications@) <= usize::MAX,
        ensures
            r == total_size(self.modifications@),
    {
        let mut sum: usize = 0;
        let mut i: usize = 0;
        while i < self.modifications.len()
            invariant
                i <= self.modifications.len(),
                sum == total_size(self.modifications@.take(i as int)),
                total_size(self.modifications@) <= usize::MAX,
            decreases self.modifications.len() - i,
        {
            assert(self.modifications@.take(i + 1).drop_last() =~= self.modifications@.take(
                i as int,
            ));
            proof {
                lemma_total_size_prefix(self.modifications@, i + 1);
            }
            sum = sum + self.modifications[i].kind.data_bytes();
            i = i + 1;
        }
        assert(self.modifications@.take(i as int) =~= self.modifications@);
        sum
    }

    /// Removes every modification whose id is `id`.
    fn evict(&mut self, id: u64)
        ensures
            final(self).modifications@ == without_id(old(self).modifications@, id),
            final(self).anchors@ == old(self).anchors@,
    {
        let mut rest: Vec<ModificationRecord> = Vec::new();
        std::mem::swap(&mut rest, &mut self.modifications);
        let ghost all = rest@;
        let mut rev: Vec<ModificationRecord> = Vec::new();
        while rest.len() > 0
            invariant
                rest@ == all.take(rest@.len() as int),
                rest@.len() <= all.len(),
                rev@ == without_id(all.skip(rest@.len() as int), id).reverse(),
            decreases rest.len(),
        {
            let ghost n = rest@.len() as int;
            let x = rest.pop().unwrap();
            assert(all.skip(n - 1).drop_first() =~= all.skip(n));
            assert(all.skip(n - 1)[0] == x);
            assert(rest@ =~= all.take(n - 1));
            if x.id != id {
                let ghost r = without_id(all.skip(n), id);
                rev.push(x);
                assert((seq![x] + r).reverse() =~= r.reverse().push(x));
            }
        }
        assert(all.skip(0) =~= all);
        let ghost w = without_id(all, id);
        let mut kept: Vec<ModificationRecord> = Vec::new();
        while rev.len() > 0
            invariant
                kept@ + rev@.reverse() == w,
            decreases rev.len(),
        {
            let ghost before = rev@;
            let x = rev.pop().unwrap();
            assert(before.reverse() =~= seq![x] + rev@.reverse());
            kept.push(x);
            assert(kept@ + rev@.reverse() =~= w);
        }
        assert(kept@ =~= w);
        self.modifications = kept;
    }
}

impl Default for WorldState {
    fn default() -> (s: Self)
        ensures
            s.modifications@.len() == 0,
            s.anchors@.len() == 0,
    {
        Self::new()
    }
}

/// The size of a prefix never exceeds the size of the whole.
pub proof fn lemma_total_size_prefix(ms: Seq<ModificationRecord>, i: int)
    requires
        0 <= i <= ms.len(),
    ensures
        total_size(ms.take(i)) <= total_size(ms),
    decreases ms.len(),
{
    if i < ms.len() {
        assert(ms.drop_last().take(i) =~= ms.take(i));
        lemma_total_size_prefix(ms.drop_last(), i);
    } else {
        assert(ms.take(i) =~= ms);
    }
}

// ── Eviction order ────────────────────────────────────────────────────────

/// Whether the record at position `a` is evicted before the one at `b`:
/// lower weight first, then larger age key, then larger distance key, then
/// earlier position.
pub open spec fn evicted_before(
    ms: Seq<ModificationRecord>,
    ks: Seq<EvictionRank>,
    a: int,
    b: int,
) -> bool {
    let wa = weight_rank(ms[a].weight);
    let wb = weight_rank(ms[b].weight);
    ||| wa < wb
    ||| wa == wb && ks[a].age > ks[b].age
    ||| wa == wb && ks[a].age == ks[b].age && ks[a].distance > ks[b].distance
    ||| wa == wb && ks[a].age == ks[b].age && ks[a].distance == ks[b].distance && a < b
}

/// `order` lists the positions of all eviction candidates (the records
/// whose weight is not `High`), each once, in eviction order.
pub open spec fn is_eviction_order(
    ms: Seq<ModificationRecord>,
    ks: Seq<EvictionRank>,
    order: Seq<usize>,
) -> bool {
    &&& forall|k: int|
        0 <= k < order.len() ==> (#[trigger] order[k]) < ms.len() && ms[order[k] as int].weight
            != Weight::High
    &&& forall|p: int|
        0 <= p < ms.len() && (#[trigger] ms[p]).weight != Weight::High ==> exists|k: int|
            0 <= k < order.len() && order[k] == p
    &&& forall|k: int, l: int|
        0 <= k < l < order.len() ==> evicted_before(ms, ks, order[k] as int, order[l] as int)
}

/// The ids of the records at the listed positions.
pub open spec fn ids_at(ms: Seq<ModificationRecord>, order: Seq<usize>) -> Seq<u64> {
    Seq::new(order.len(), |k: int| ms[order[k] as int].id)
}

/// Evicts the listed ids one at a time, checking the budget before each:
/// the state left once it fits `budget`, or once the list is exhausted.
pub open spec fn evict_until(ms: Seq<ModificationRecord>, ids: Seq<u64>, budget: nat) -> Seq<
    ModificationRecord,
>
    decreases ids.len(),
{
    if total_size(ms) <= budget || ids.len() == 0 {
        ms
    } else {
        evict_until(without_id(ms, ids[0]), ids.drop_first(), budget)
    }
}

/// Whether the record at `a` is ranked strictly before the one at `b` on
/// weight and keys alone.
fn ranks_before(
    ms: &Vec<ModificationRecord>,
    ks: &Vec<EvictionRank>,
    a: usize,
    b: usize,
) -> (r: bool)
    requires
        a < ms.len(),
        b < ms.len(),
        ks.len() == ms.len(),
    ensures
        r == (evicted_before(ms@, ks@, a as int, b as int) && !(weight_rank(ms@[a as int].weight)
            == weight_rank(ms@[b as int].weight) && ks@[a as int] == ks@[b as int])),
{
    let wa = weight_number(ms[a].weight);
    let wb = weight_number(ms[b].weight);
    if wa != wb {
        return wa < wb;
    }
    if ks[a].age != ks[b].age {
        return ks[a].age > ks[b].age;
    }
    ks[a].distance > ks[b].distance
}

fn weight_number(w: Weight) -> (r: u8)
    ensures
        r as int == weight_rank(w),
{
    match w {
        Weight::Low => 1,
        Weight::Medium => 2,
        Weight::High => 3,
    }
}

/// The eviction order of the records `ms` under the keys `ks`.
fn eviction_order(ms: &Vec<ModificationRecord>, ks: &Vec<EvictionRank>) -> (order: Vec<usize>)
    requires
        ks.len() == ms.len(),
    ensures
        is_eviction_order(ms@, ks@, order@),
{
    let mut order: Vec<usize> = Vec::new();
    let mut p: usize = 0;
    while p < ms.len()
        invariant
            p <= ms.len(),
            ks.len() == ms.len(),
            forall|k: int|
                0 <= k < order.len() ==> (#[trigger] order@[k]) < p && ms@[order@[k] as int].weight
                    != Weight::High,
            forall|q: int|
                0 <= q < p && (#[trigger] ms@[q]).weight != Weight::High ==> exists|k: int|
                    0 <= k < order.len() && order@[k] == q,
            forall|k: int, l: int|
                0 <= k < l < order.len() ==> evicted_before(
                    ms@,
                    ks@,
                    order@[k] as int,
                    order@[l] as int,
                ),
        decreases ms.len() - p,
    {
        if weight_number(ms[p].weight) != 3 {
            let mut j: usize = order.len();
            while j > 0 && ranks_before(ms, ks, p, order[j - 1])
                invariant
                    j <= order.len(),
                    p < ms.len(),
                    ks.len() == ms.len(),
                    forall|k: int| 0 <= k < order.len() ==> (#[trigger] order@[k]) < p,
                    forall|k: int|
                        j <= k < order.len() ==> evicted_before(
                            ms@,
                            ks@,
                            p as int,
                            #[trigger] order@[k] as int,
                        ),
                decreases j,
            {
                j = j - 1;
            }
            let ghost before = order@;
            order.insert(j, p);
            assert forall|k: int, l: int| 0 <= k < l < order.len() implies evicted_before(
                ms@,
                ks@,
                order@[k] as int,
                order@[l] as int,
            ) by {
                if l < j {
                    assert(order@[k] == before[k] && order@[l] == before[l]);
                } else if l == j {
                    assert(order@[k] == before[k]);
                    assert(before[j - 1] < p);
                    if k < j - 1 {
                        assert(evicted_before(ms@, ks@, before[k] as int, before[j - 1] as int));
                    }
                } else if k < j {
                    assert(order@[k] == before[k] && order@[l] == before[l - 1]);
                } else if k == j {
                    assert(order@[l] == before[l - 1]);
                } else {
                    assert(order@[k] == before[k - 1] && order@[l] == before[l - 1]);
                }
            }
            assert forall|q: int|
                0 <= q < p + 1 && (#[trigger] ms@[q]).weight != Weight::High implies exists|k: int|
                0 <= k < order.len() && order@[k] == q by {
                if q == p {
                    assert(order@[j as int] == q);
                } else {
                    let k0 = choose|k: int| 0 <= k < before.len() && before[k] == q;
                    if k0 < j {
                        assert(order@[k0] == q);
                    } else {
                        assert(order@[k0 + 1] == q);
                    }
                }
            }
        }
        p = p + 1;
    }
    order
}

// ── The tick ──────────────────────────────────────────────────────────────

/// Sizes add up over concatenation.
pub proof fn lemma_total_size_concat(a: Seq<ModificationRecord>, b: Seq<ModificationRecord>)
    ensures
        total_size(a + b) == total_size(a) + total_size(b),
    decreases b.len(),
{
    if b.len() > 0 {
        assert((a + b).drop_last() =~= a + b.drop_last());
        lemma_total_size_concat(a, b.drop_last());
    } else {
        assert(a + b =~= a);
    }
}

/// What `without_id` keeps: records of `ms` whose id differs, all of them,
/// and never more bytes than `ms` holds.
pub proof fn lemma_without_id(ms: Seq<ModificationRecord>, id: u64)
    ensures
        total_size(without_id(ms, id)) <= total_size(ms),
        forall|x: ModificationRecord| #[trigger]
            without_id(ms, id).contains(x) ==> ms.contains(x) && x.id != id,
        forall|x: ModificationRecord|
            ms.contains(x) && x.id != id ==> #[trigger] without_id(ms, id).contains(x),
    decreases ms.len(),
{
    if ms.len() > 0 {
        let rest = ms.drop_first();
        lemma_without_id(rest, id);
        assert(ms =~= seq![ms[0]] + rest);
        lemma_total_size_concat(seq![ms[0]], rest);
        let r = without_id(rest, id);
        if ms[0].id != id {
            lemma_total_size_concat(seq![ms[0]], r);
        }
        assert forall|x: ModificationRecord| #[trigger]
            without_id(ms, id).contains(x) implies ms.contains(x) && x.id != id by {
            let j = choose|j: int| 0 <= j < without_id(ms, id).len() && without_id(ms, id)[j] == x;
            if ms[0].id != id && j == 0 {
                assert(ms[0] == x);
            } else {
                let jj = if ms[0].id != id { j - 1 } else { j };
                assert(r[jj] == x);
                assert(r.contains(x));
                let i = choose|i: int| 0 <= i < rest.len() && rest[i] == x;
                assert(ms[i + 1] == x);
            }
        }
        assert forall|x: ModificationRecord|
            ms.contains(x) && x.id != id implies #[trigger] without_id(ms, id).contains(x) by {
            let i = choose|i: int| 0 <= i < ms.len() && ms[i] == x;
            if i == 0 {
                assert(without_id(ms, id)[0] == x);
            } else {
                assert(rest[i - 1] == x);
                assert(r.contains(x));
                let j = choose|j: int| 0 <= j < r.len() && r[j] == x;
                if ms[0].id != id {
                    assert(without_id(ms, id)[j + 1] == x);
                } else {
                    assert(without_id(ms, id)[j] == x);
                }
            }
        }
    }
}

/// Evicts the least valuable modifications until the total size fits
/// `budget`; `ranks[i]` holds the age and distance keys of
/// `state.modifications[i]`. `High` records and anchors are never touched.
pub fn decay_tick(state: &mut WorldState, budget: usize, ranks: &Vec<EvictionRank>)
    requires
        ranks.len() == old(state).modifications.len(),
        total_size(old(state).modifications@) <= usize::MAX,
    ensures
        final(state).anchors@ == old(state).anchors@,
        exists|order: Seq<usize>|
            #![trigger is_eviction_order(old(state).modifications@, ranks@, order)]
            is_eviction_order(old(state).modifications@, ranks@, order)
                && final(state).modifications@ == evict_until(
                old(state).modifications@,
                ids_at(old(state).modifications@, order),
                budget as nat,
            ),
{
    let ghost ms0 = state.modifications@;
    let ghost anchors0 = state.anchors@;
    let order = eviction_order(&state.modifications, ranks);
    let mut ids: Vec<u64> = Vec::new();
    let mut k: usize = 0;
    while k < order.len()
        invariant
            k <= order.len(),
            state.modifications@ == ms0,
            is_eviction_order(ms0, ranks@, order@),
            ids@ == ids_at(ms0, order@).take(k as int),
        decreases order.len() - k,
    {
        ids.push(state.modifications[order[k]].id);
        k = k + 1;
        assert(ids@ =~= ids_at(ms0, order@).take(k as int));
    }
    assert(ids@ =~= ids_at(ms0, order@));
    let mut k: usize = 0;
    loop
        invariant_except_break
            k <= ids.len(),
            evict_until(state.modifications@, ids@.skip(k as int), budget as nat) == evict_until(
                ms0,
                ids@,
                budget as nat,
            ),
            total_size(state.modifications@) <= total_size(ms0),
            total_size(ms0) <= usize::MAX,
            state.anchors@ == anchors0,
        ensures
            state.modifications@ == evict_until(ms0, ids@, budget as nat),
            state.anchors@ == anchors0,
        decreases ids.len() - k,
    {
        if state.estimated_size() <= budget || k == ids.len() {
            assert(evict_until(state.modifications@, ids@.skip(k as int), budget as nat)
                == state.modifications@);
            break;
        }
        let ghost cur = state.modifications@;
        proof {
            lemma_without_id(cur, ids@[k as int]);
        }
        assert(ids@.skip(k as int).drop_first() =~= ids@.skip(k + 1));
        state.evict(ids[k]);
        k = k + 1;
    }
}

// ── Laws ──────────────────────────────────────────────────────────────────

/// Eviction only removes records, and stops either within budget or once
/// no record with an id in the list remains.
proof fn lemma_evict_until_shape(ms: Seq<ModificationRecord>, ids: Seq<u64>, budget: nat)
    ensures
        forall|x: ModificationRecord| #[trigger]
            evict_until(ms, ids, budget).contains(x) ==> ms.contains(x),
        total_size(evict_until(ms, ids, budget)) <= budget || forall|x: ModificationRecord| #[trigger]
            evict_until(ms, ids, budget).contains(x) ==> !ids.contains(x.id),
    decreases ids.len(),
{
    if !(total_size(ms) <= budget || ids.len() == 0) {
        let next = without_id(ms, ids[0]);
        lemma_without_id(ms, ids[0]);
        lemma_evict_until_shape(next, ids.drop_first(), budget);
        let r = evict_until(ms, ids, budget);
        assert(r == evict_until(next, ids.drop_first(), budget));
        if total_size(r) > budget {
            assert forall|x: ModificationRecord| #[trigger] r.contains(x) implies !ids.contains(
                x.id,
            ) by {
                assert(next.contains(x));
                if ids.contains(x.id) {
                    let k = choose|k: int| 0 <= k < ids.len() && ids[k] == x.id;
                    if k > 0 {
                        assert(ids.drop_first()[k - 1] == x.id);
                    }
                }
            }
        }
    }
}

/// A record whose id is never listed survives eviction.
proof fn lemma_evict_until_keeps(
    ms: Seq<ModificationRecord>,
    ids: Seq<u64>,
    budget: nat,
    x: ModificationRecord,
)
    requires
        ms.contains(x),
        !ids.contains(x.id),
    ensures
        evict_until(ms, ids, budget).contains(x),
    decreases ids.len(),
{
    if !(total_size(ms) <= budget || ids.len() == 0) {
        lemma_without_id(ms, ids[0]);
        assert(ids[0] != x.id);
        assert(!ids.drop_first().contains(x.id)) by {
            if ids.drop_first().contains(x.id) {
                let k = choose|k: int| 0 <= k < ids.drop_first().len() && ids.drop_first()[k] == x.id;
                assert(ids[k + 1] == x.id);
            }
        }
        lemma_evict_until_keeps(without_id(ms, ids[0]), ids.drop_first(), budget, x);
    }
}

/// After a tick the modifications fit the budget, unless every eviction
/// candidate is already gone: what remains then is `High` records only.
pub proof fn lemma_decay_fits_budget(
    ms: Seq<ModificationRecord>,
    ks: Seq<EvictionRank>,
    order: Seq<usize>,
    budget: nat,
)
    requires
        is_eviction_order(ms, ks, order),
    ensures
        ({
            let r = evict_until(ms, ids_at(ms, order), budget);
            total_size(r) <= budget || forall|j: int|
                0 <= j < r.len() ==> (#[trigger] r[j]).weight == Weight::High
        }),
{
    let ids = ids_at(ms, order);
    let r = evict_until(ms, ids, budget);
    lemma_evict_until_shape(ms, ids, budget);
    if total_size(r) > budget {
        assert forall|j: int| 0 <= j < r.len() implies (#[trigger] r[j]).weight == Weight::High by {
            let x = r[j];
            assert(r.contains(x));
            assert(ms.contains(x));
            if x.weight != Weight::High {
                let p = choose|p: int| 0 <= p < ms.len() && ms[p] == x;
                assert(ms[p].weight != Weight::High);
                let k = choose|k: int| 0 <= k < order.len() && order[k] == p;
                assert(ids[k] == x.id);
                assert(ids.contains(x.id));
            }
        }
    }
}

/// When ids are unique, a tick never evicts a `High` record.
pub proof fn lemma_decay_keeps_high(
    ms: Seq<ModificationRecord>,
    ks: Seq<EvictionRank>,
    order: Seq<usize>,
    budget: nat,
    i: int,
)
    requires
        is_eviction_order(ms, ks, order),
        forall|a: int, b: int| 0 <= a < b < ms.len() ==> ms[a].id != ms[b].id,
        0 <= i < ms.len(),
        ms[i].weight == Weight::High,
    ensures
        evict_until(ms, ids_at(ms, order), budget).contains(ms[i]),
{
    let ids = ids_at(ms, order);
    assert(!ids.contains(ms[i].id)) by {
        if ids.contains(ms[i].id) {
            let k = choose|k: int| 0 <= k < ids.len() && ids[k] == ms[i].id;
            let p = order[k] as int;
            assert(ms[p].weight != Weight::High);
            assert(p != i);
            if p < i {
                assert(ms[p].id != ms[i].id);
            } else {
                assert(ms[i].id != ms[p].id);
            }
        }
    }
    assert(ms[i] == ms[i]);
    assert(ms.contains(ms[i]));
    lemma_evict_until_keeps(ms, ids, budget, ms[i]);
}

/// A tick evicts nothing when the modifications already fit the budget.
pub proof fn lemma_decay_noop_within_budget(
    ms: Seq<ModificationRecord>,
    ids: Seq<u64>,
    budget: nat,
)
    requires
        total_size(ms) <= budget,
    ensures
        evict_until(ms, ids, budget) == ms,
{
}

/// The eviction order is determined by the records and their keys: two
/// orders that both satisfy `is_eviction_order` are equal.
pub proof fn lemma_eviction_order_unique(
    ms: Seq<ModificationRecord>,
    ks: Seq<EvictionRank>,
    o1: Seq<usize>,
    o2: Seq<usize>,
)
    requires
        is_eviction_order(ms, ks, o1),
        is_eviction_order(ms, ks, o2),
    ensures
        o1 == o2,
{
    assert forall|x: usize| o1.contains(x) <==> o2.contains(x) by {
        if o1.contains(x) {
            let k = choose|k: int| 0 <= k < o1.len() && o1[k] == x;
            assert(ms[x as int].weight != Weight::High);
        }
        if o2.contains(x) {
            let k = choose|k: int| 0 <= k < o2.len() && o2[k] == x;
            assert(ms[x as int].weight != Weight::High);
        }
    }
    let lt = |a: usize, b: usize| evicted_before(ms, ks, a as int, b as int);
    assert forall|k: int, l: int| 0 <= k < l < o1.len() implies lt(o1[k], o1[l]) by {}
    assert forall|k: int, l: int| 0 <= k < l < o2.len() implies lt(o2[k], o2[l]) by {}
    crate::order::lemma_strictly_sorted_unique(lt, o1, o2);
}

} // verus!
