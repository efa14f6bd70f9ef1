use apeiron_cipher::persistence::mutation::{ModificationDecayMeta, PlayerAddedIdCounterSnapshot};
use apeiron_cipher::persistence::decay::{
    decay_tick, AnchorId, AnchorRecord, EvictionRank, ModificationKind, ModificationRecord,
    Weight, WorldState,
};

fn bits(p: [f32; 3]) -> [u32; 3] {
    [p[0].to_bits(), p[1].to_bits(), p[2].to_bits()]
}

fn pos(p: [u32; 3]) -> [f32; 3] {
    [f32::from_bits(p[0]), f32::from_bits(p[1]), f32::from_bits(p[2])]
}

fn make_mod(
    id: u64,
    weight: Weight,
    created_at: u64,
    position: [f32; 3],
    data_bytes: usize,
) -> ModificationRecord {
    ModificationRecord {
        id,
        kind: ModificationKind::ChunkAddition { data_bytes },
        weight,
        created_at,
        anchor_ids: vec![],
        position: bits(position),
    }
}

fn make_anchor(id: u64, position: [f32; 3], radius: f32) -> AnchorRecord {
    AnchorRecord {
        id: AnchorId(id),
        position: bits(position),
        radius: radius.to_bits(),
    }
}

fn distance(a: [f32; 3], b: [f32; 3]) -> f32 {
    let dx = a[0] - b[0];
    let dy = a[1] - b[1];
    let dz = a[2] - b[2];
    (dx * dx + dy * dy + dz * dz).sqrt()
}

/// The ranking keys the game computes: effective age scaled by anchor
/// proximity, and distance to the nearest anchor, as float bit patterns.
fn ranks(state: &WorldState, now: u64) -> Vec<EvictionRank> {
    state
        .modifications
        .iter()
        .map(|m| {
            let p = pos(m.position);
            let mut factor: f32 = 1.0;
            let mut nearest = f32::MAX;
            for a in &state.anchors {
                let d = distance(p, pos(a.position));
                let r = f32::from_bits(a.radius);
                if d <= r {
                    let f = 0.5 * (d / r);
                    if f < factor {
                        factor = f;
                    }
                }
                nearest = nearest.min(d);
            }
            let age = now.saturating_sub(m.created_at) as f64 * factor as f64;
            EvictionRank {
                age: age.to_bits(),
                distance: nearest.to_bits() as u64,
            }
        })
        .collect()
}

fn tick(state: &mut WorldState, budget: usize, now: u64) {
    let r = ranks(state, now);
    decay_tick(state, budget, &r);
}

#[test]
fn decay_tick_noop_when_already_within_budget() {
    let mut state = WorldState::new();
    state
        .modifications
        .push(make_mod(1, Weight::Low, 0, [0.0, 0.0, 0.0], 100));
    tick(&mut state, 200, 1000);
    assert_eq!(state.modifications.len(), 1, "no eviction needed");
}

#[test]
fn decay_tick_empty_state_is_noop() {
    let mut state = WorldState::new();
    tick(&mut state, 0, 1000);
    assert_eq!(state.modifications.len(), 0);
}

#[test]
fn decay_tick_evicts_oldest_low_weight_first() {
    let now = 10_000;
    let mut state = WorldState::new();
    state
        .modifications
        .push(make_mod(1, Weight::Low, 0, [0.0, 0.0, 0.0], 100));
    state
        .modifications
        .push(make_mod(2, Weight::Low, 9_900, [0.0, 0.0, 0.0], 100));
    tick(&mut state, 100, now);
    assert_eq!(state.modifications.len(), 1, "should have evicted one record");
    assert_eq!(
        state.modifications[0].id, 2,
        "oldest Low mod (id=1) should be evicted first"
    );
}

#[test]
fn decay_tick_prefers_low_over_medium_weight() {
    let now = 1_000;
    let mut state = WorldState::new();
    state
        .modifications
        .push(make_mod(1, Weight::Low, 900, [0.0, 0.0, 0.0], 100));
    state
        .modifications
        .push(make_mod(2, Weight::Medium, 0, [0.0, 0.0, 0.0], 100));
    tick(&mut state, 100, now);
    assert_eq!(
        state.modifications[0].id, 2,
        "Low weight must be evicted before Medium regardless of age"
    );
}

#[test]
fn decay_tick_never_evicts_high_weight() {
    let mut state = WorldState::new();
    state
        .modifications
        .push(make_mod(1, Weight::High, 0, [0.0, 0.0, 0.0], 1_000_000));
    tick(&mut state, 0, 999_999);
    assert_eq!(
        state.modifications.len(),
        1,
        "High weight modification must never be auto-evicted"
    );
}

#[test]
fn decay_tick_protects_mods_near_anchor() {
    let now = 10_000;
    let mut state = WorldState::new();
    state.anchors.push(make_anchor(1, [0.0, 0.0, 0.0], 50.0));
    state
        .modifications
        .push(make_mod(1, Weight::Low, 0, [0.0, 0.0, 0.0], 100));
    state
        .modifications
        .push(make_mod(2, Weight::Low, 0, [1000.0, 0.0, 0.0], 100));
    tick(&mut state, 100, now);
    assert_eq!(
        state.modifications[0].id, 1,
        "mod at anchor centre should survive eviction (id=1)"
    );
    assert_eq!(state.anchors.len(), 1, "anchors are never evicted");
}

#[test]
fn decay_tick_breaks_age_ties_by_anchor_distance_then_listing() {
    let mut state = WorldState::new();
    state.anchors.push(make_anchor(1, [0.0, 0.0, 0.0], 1.0));
    state
        .modifications
        .push(make_mod(1, Weight::Low, 0, [10.0, 0.0, 0.0], 100));
    state
        .modifications
        .push(make_mod(2, Weight::Low, 0, [20.0, 0.0, 0.0], 100));
    state
        .modifications
        .push(make_mod(3, Weight::Low, 0, [10.0, 0.0, 0.0], 100));
    tick(&mut state, 200, 50);
    let ids: Vec<u64> = state.modifications.iter().map(|m| m.id).collect();
    assert_eq!(ids, vec![1, 3], "the farther change goes first");
    tick(&mut state, 100, 50);
    let ids: Vec<u64> = state.modifications.iter().map(|m| m.id).collect();
    assert_eq!(ids, vec![3], "equal ranks go in listing order");
}

#[test]
fn decay_tick_stops_as_soon_as_budget_fits() {
    let mut state = WorldState::new();
    for id in 0..5u64 {
        state
            .modifications
            .push(make_mod(id, Weight::Low, id, [0.0, 0.0, 0.0], 100));
    }
    tick(&mut state, 350, 100);
    let ids: Vec<u64> = state.modifications.iter().map(|m| m.id).collect();
    assert_eq!(ids, vec![2, 3, 4]);
    assert_eq!(state.estimated_size(), 300);
}

#[test]
fn estimated_size_sums_both_kinds() {
    let mut state = WorldState::default();
    state
        .modifications
        .push(make_mod(1, Weight::Low, 0, [0.0, 0.0, 0.0], 7));
    state.modifications.push(ModificationRecord {
        id: 2,
        kind: ModificationKind::ChunkRemoval { data_bytes: 5 },
        weight: Weight::Medium,
        created_at: 0,
        anchor_ids: vec![],
        position: bits([0.0, 0.0, 0.0]),
    });
    assert_eq!(state.estimated_size(), 12);
    assert_eq!(state.modifications[1].kind.data_bytes(), 5);
}

#[test]
fn simulation_10k_mods_5_anchors_core_base_persists() {
    let now = 86_400;
    let mut state = WorldState::new();
    let anchor_positions: [[f32; 3]; 5] = [
        [0.0, 0.0, 0.0],
        [200.0, 0.0, 0.0],
        [100.0, 0.0, 173.0],
        [-100.0, 0.0, 173.0],
        [-200.0, 0.0, 0.0],
    ];
    for (i, p) in anchor_positions.iter().enumerate() {
        state.anchors.push(make_anchor(i as u64, *p, 30.0));
    }
    for i in 0_u64..500 {
        let anchor_pos = anchor_positions[(i % 5) as usize];
        let p = [
            anchor_pos[0] + (i % 10) as f32 * 2.0,
            0.0,
            anchor_pos[2] + (i / 10 % 10) as f32 * 2.0,
        ];
        state.modifications.push(ModificationRecord {
            id: i,
            kind: ModificationKind::ChunkAddition { data_bytes: 512 },
            weight: Weight::High,
            created_at: 0,
            anchor_ids: vec![AnchorId(i % 5)],
            position: bits(p),
        });
    }
    for i in 500_u64..10_000 {
        let x = ((i * 37) % 5_000) as f32 + 500.0;
        let z = ((i * 53) % 5_000) as f32 + 500.0;
        state.modifications.push(ModificationRecord {
            id: i,
            kind: ModificationKind::ChunkAddition { data_bytes: 256 },
            weight: Weight::Low,
            created_at: 0,
            anchor_ids: vec![],
            position: bits([x, 0.0, z]),
        });
    }
    assert_eq!(state.estimated_size(), 2_688_000);
    let budget: usize = 320_000;
    tick(&mut state, budget, now);
    assert!(
        state.estimated_size() <= budget,
        "state should be within budget after tick, got {} bytes",
        state.estimated_size()
    );
    let high_surviving = state
        .modifications
        .iter()
        .filter(|m| m.weight == Weight::High)
        .count();
    assert_eq!(high_surviving, 500, "all 500 High-weight core-base mods must survive");
    let surviving_low = state
        .modifications
        .iter()
        .filter(|m| m.weight == Weight::Low)
        .count();
    let high_bytes: usize = 500 * 512;
    let low_bytes_each: usize = 256;
    let max_low = (budget.saturating_sub(high_bytes)) / low_bytes_each;
    assert!(
        surviving_low <= max_low,
        "too many Low mods survived: {surviving_low} > {max_low}"
    );
}

#[test]
fn decay_meta_snapshots_compare_by_fields() {
    let a = ModificationDecayMeta {
        modification_id: 200,
        weight_tier: 3,
        created_at: 1_700_000_123,
        nearest_anchor_id: Some(5),
    };
    let mut b = a;
    assert_eq!(a, b);
    b.nearest_anchor_id = None;
    assert_ne!(a, b);
    assert_eq!(
        PlayerAddedIdCounterSnapshot { next_id: 42 },
        PlayerAddedIdCounterSnapshot { next_id: 42 }
    );
}
