use apeiron_cipher::journal::{
    key_less, matches_filter, reconcile_selection, Journal, JournalContext, JournalEntry, JournalFilter,
    JournalKey, JournalSelectionTracker, JournalUiState, Observation, ObservationCategory,
};
use apeiron_cipher::observation::ConfidenceLevel;

fn mat(seed: u64) -> JournalKey {
    JournalKey::Material {
        seed,
        planet_seed: None,
    }
}

fn obs(
    category: ObservationCategory,
    confidence: ConfidenceLevel,
    description: &str,
    recorded_at: u64,
) -> Observation {
    Observation {
        category,
        confidence,
        description: description.to_string(),
        recorded_at,
    }
}

fn entry_with_observation(key: JournalKey, category: ObservationCategory) -> JournalEntry {
    let mut entry = JournalEntry::new(key, "Subject".to_string(), 0);
    entry.add_observation(obs(category, ConfidenceLevel::Tentative, "obs", 0));
    entry
}

fn ui(selected_index: usize, scroll_offset: usize, entries_per_page: usize) -> JournalUiState {
    JournalUiState {
        visible: true,
        selected_index,
        scroll_offset,
        entries_per_page,
        filter: JournalFilter::default(),
    }
}

// ── Keys and filters ────────────────────────────────────────────────

#[test]
fn journal_key_material_equality() {
    let a = mat(42);
    let b = mat(42);
    let c = mat(99);
    assert_eq!(a, b);
    assert_ne!(a, c);
}

#[test]
fn journal_key_material_planet_seed_participates_in_equality() {
    let unknown = mat(42);
    let on_planet_a = JournalKey::Material {
        seed: 42,
        planet_seed: Some(1),
    };
    let on_planet_b = JournalKey::Material {
        seed: 42,
        planet_seed: Some(2),
    };
    let on_planet_a_again = JournalKey::Material {
        seed: 42,
        planet_seed: Some(1),
    };
    assert_ne!(unknown, on_planet_a);
    assert_ne!(on_planet_a, on_planet_b);
    assert_eq!(on_planet_a, on_planet_a_again);
}

#[test]
fn journal_key_material_ord_seed_then_planet_seed() {
    let mut keys = vec![
        JournalKey::Material {
            seed: 2,
            planet_seed: Some(0),
        },
        JournalKey::Material {
            seed: 1,
            planet_seed: Some(99),
        },
        JournalKey::Material {
            seed: 1,
            planet_seed: None,
        },
        JournalKey::Material {
            seed: 1,
            planet_seed: Some(1),
        },
    ];
    keys.sort();
    assert_eq!(
        keys,
        vec![
            JournalKey::Material {
                seed: 1,
                planet_seed: None
            },
            JournalKey::Material {
                seed: 1,
                planet_seed: Some(1)
            },
            JournalKey::Material {
                seed: 1,
                planet_seed: Some(99)
            },
            JournalKey::Material {
                seed: 2,
                planet_seed: Some(0)
            },
        ],
    );
}

#[test]
fn key_less_agrees_with_derived_order() {
    let keys = vec![
        mat(1),
        JournalKey::Material {
            seed: 1,
            planet_seed: Some(0),
        },
        JournalKey::Material {
            seed: 1,
            planet_seed: Some(5),
        },
        mat(2),
        JournalKey::Fabrication { output_seed: 0 },
        JournalKey::Fabrication { output_seed: 9 },
    ];
    for a in &keys {
        for b in &keys {
            assert_eq!(key_less(a, b), a < b, "{a:?} vs {b:?}");
        }
    }
}

#[test]
fn journal_filter_default_is_unrestricted() {
    let filter = JournalFilter::default();
    assert!(filter.category.is_none());
    assert!(filter.context.is_none());
}

#[test]
fn journal_filter_equality_distinguishes_dimensions() {
    let a = JournalFilter {
        category: Some(ObservationCategory::SurfaceAppearance),
        context: Some(JournalContext::CurrentPlanet { planet_seed: 7 }),
    };
    let b = JournalFilter {
        category: Some(ObservationCategory::SurfaceAppearance),
        context: Some(JournalContext::CurrentPlanet { planet_seed: 7 }),
    };
    let different_category = JournalFilter {
        category: Some(ObservationCategory::ThermalBehavior),
        context: Some(JournalContext::CurrentPlanet { planet_seed: 7 }),
    };
    let different_context = JournalFilter {
        category: Some(ObservationCategory::SurfaceAppearance),
        context: Some(JournalContext::CurrentPlanet { planet_seed: 8 }),
    };
    assert_eq!(a, b);
    assert_ne!(a, different_category);
    assert_ne!(a, different_context);
}

#[test]
fn journal_ui_state_default_filter_is_unrestricted() {
    let state = JournalUiState::default();
    assert_eq!(*state.filter(), JournalFilter::default());
    assert!(state.filter().category.is_none());
    assert!(state.filter().context.is_none());
}

#[test]
fn journal_ui_state_set_filter_replaces_active_filter() {
    let mut state = JournalUiState::default();
    let new_filter = JournalFilter {
        category: Some(ObservationCategory::SurfaceAppearance),
        context: Some(JournalContext::CurrentPlanet { planet_seed: 42 }),
    };
    state.set_filter(new_filter.clone());
    assert_eq!(*state.filter(), new_filter);
}

#[test]
fn journal_ui_state_filter_persists_across_visibility_toggle() {
    let mut state = JournalUiState::default();
    let active = JournalFilter {
        category: Some(ObservationCategory::ThermalBehavior),
        context: None,
    };
    state.set_filter(active.clone());
    state.set_visible(true);
    assert_eq!(*state.filter(), active);
    state.set_visible(false);
    assert_eq!(*state.filter(), active);
    state.set_visible(true);
    assert_eq!(*state.filter(), active);
}

#[test]
fn journal_context_biome_equality_is_string_based() {
    let a = JournalContext::CurrentBiome {
        biome_key: "tundra".to_string(),
    };
    let b = JournalContext::CurrentBiome {
        biome_key: "tundra".to_string(),
    };
    let c = JournalContext::CurrentBiome {
        biome_key: "basalt_flats".to_string(),
    };
    assert_eq!(a, b);
    assert_ne!(a, c);
}

#[test]
fn matches_filter_default_accepts_every_entry() {
    let filter = JournalFilter::default();
    let entry = JournalEntry::new(mat(1), "Empty".to_string(), 0);
    assert!(matches_filter(&entry, &filter));
    let populated = entry_with_observation(
        JournalKey::Material {
            seed: 2,
            planet_seed: Some(99),
        },
        ObservationCategory::SurfaceAppearance,
    );
    assert!(matches_filter(&populated, &filter));
}

#[test]
fn matches_filter_category_only_keeps_matching_entries() {
    let filter = JournalFilter {
        category: Some(ObservationCategory::ThermalBehavior),
        context: None,
    };
    let thermal = entry_with_observation(mat(1), ObservationCategory::ThermalBehavior);
    assert!(matches_filter(&thermal, &filter));
    let surface = entry_with_observation(mat(2), ObservationCategory::SurfaceAppearance);
    assert!(!matches_filter(&surface, &filter));
}

#[test]
fn matches_filter_category_rejects_entry_with_no_observations() {
    let filter = JournalFilter {
        category: Some(ObservationCategory::SurfaceAppearance),
        context: None,
    };
    let empty = JournalEntry::new(mat(1), "Empty".to_string(), 0);
    assert!(!matches_filter(&empty, &filter));
}

#[test]
fn matches_filter_current_planet_uses_key_planet_seed() {
    let filter = JournalFilter {
        category: None,
        context: Some(JournalContext::CurrentPlanet { planet_seed: 7 }),
    };
    let on_planet = entry_with_observation(
        JournalKey::Material {
            seed: 1,
            planet_seed: Some(7),
        },
        ObservationCategory::SurfaceAppearance,
    );
    assert!(matches_filter(&on_planet, &filter));
    let other_planet = entry_with_observation(
        JournalKey::Material {
            seed: 2,
            planet_seed: Some(8),
        },
        ObservationCategory::SurfaceAppearance,
    );
    assert!(!matches_filter(&other_planet, &filter));
    let no_planet = entry_with_observation(mat(3), ObservationCategory::SurfaceAppearance);
    assert!(!matches_filter(&no_planet, &filter));
}

#[test]
fn matches_filter_current_planet_excludes_fabrications() {
    let filter = JournalFilter {
        category: None,
        context: Some(JournalContext::CurrentPlanet { planet_seed: 7 }),
    };
    let fab = entry_with_observation(
        JournalKey::Fabrication { output_seed: 42 },
        ObservationCategory::FabricationResult,
    );
    assert!(!matches_filter(&fab, &filter));
}

#[test]
fn matches_filter_combined_uses_and_logic() {
    let entry = entry_with_observation(
        JournalKey::Material {
            seed: 1,
            planet_seed: Some(7),
        },
        ObservationCategory::SurfaceAppearance,
    );
    let both_match = JournalFilter {
        category: Some(ObservationCategory::SurfaceAppearance),
        context: Some(JournalContext::CurrentPlanet { planet_seed: 7 }),
    };
    assert!(matches_filter(&entry, &both_match));
    let category_mismatch = JournalFilter {
        category: Some(ObservationCategory::ThermalBehavior),
        context: Some(JournalContext::CurrentPlanet { planet_seed: 7 }),
    };
    assert!(!matches_filter(&entry, &category_mismatch));
    let context_mismatch = JournalFilter {
        category: Some(ObservationCategory::SurfaceAppearance),
        context: Some(JournalContext::CurrentPlanet { planet_seed: 8 }),
    };
    assert!(!matches_filter(&entry, &context_mismatch));
    let both_mismatch = JournalFilter {
        category: Some(ObservationCategory::ThermalBehavior),
        context: Some(JournalContext::CurrentPlanet { planet_seed: 8 }),
    };
    assert!(!matches_filter(&entry, &both_mismatch));
}

#[test]
fn matches_filter_current_biome_is_no_op_until_data_capture() {
    let filter = JournalFilter {
        category: None,
        context: Some(JournalContext::CurrentBiome {
            biome_key: "tundra".to_string(),
        }),
    };
    let entry = entry_with_observation(
        JournalKey::Material {
            seed: 1,
            planet_seed: Some(7),
        },
        ObservationCategory::SurfaceAppearance,
    );
    assert!(matches_filter(&entry, &filter));
}

#[test]
fn journal_key_planet_seed_accessor() {
    assert_eq!(
        JournalKey::Material {
            seed: 1,
            planet_seed: Some(42),
        }
        .planet_seed(),
        Some(42)
    );
    assert_eq!(mat(1).planet_seed(), None);
    assert_eq!(
        JournalKey::Fabrication { output_seed: 7 }.planet_seed(),
        None
    );
}

#[test]
fn matches_filter_handles_500_entries_quickly() {
    let entries: Vec<JournalEntry> = (0..500u64)
        .map(|i| {
            entry_with_observation(
                JournalKey::Material {
                    seed: i,
                    planet_seed: Some(i % 4),
                },
                if i % 2 == 0 {
                    ObservationCategory::SurfaceAppearance
                } else {
                    ObservationCategory::ThermalBehavior
                },
            )
        })
        .collect();
    let filter = JournalFilter {
        category: Some(ObservationCategory::SurfaceAppearance),
        context: Some(JournalContext::CurrentPlanet { planet_seed: 2 }),
    };
    let start = std::time::Instant::now();
    let kept = entries
        .iter()
        .filter(|e| matches_filter(e, &filter))
        .count();
    let elapsed = start.elapsed();
    assert_eq!(kept, 125);
    assert!(
        elapsed < std::time::Duration::from_millis(10),
        "matches_filter over 500 entries took {elapsed:?}, expected < 10ms"
    );
}

#[test]
fn journal_key_fabrication_equality() {
    let a = JournalKey::Fabrication { output_seed: 7 };
    let b = JournalKey::Fabrication { output_seed: 7 };
    let c = JournalKey::Fabrication { output_seed: 8 };
    assert_eq!(a, b);
    assert_ne!(a, c);
}

#[test]
fn journal_key_variants_are_distinct() {
    let material = mat(42);
    let fab = JournalKey::Fabrication { output_seed: 42 };
    assert_ne!(material, fab);
}

#[test]
fn journal_key_btreemap_ordering_is_stable() {
    let mut map = std::collections::BTreeMap::new();
    map.insert(JournalKey::Fabrication { output_seed: 1 }, "fab");
    map.insert(mat(99), "mat99");
    map.insert(mat(1), "mat1");
    let keys: Vec<_> = map.keys().collect();
    assert_eq!(*keys[0], mat(1));
    assert_eq!(*keys[1], mat(99));
    assert_eq!(*keys[2], JournalKey::Fabrication { output_seed: 1 });
}

#[test]
fn journal_entries_are_kept_in_key_order() {
    let mut journal = Journal::default();
    for key in [
        JournalKey::Fabrication { output_seed: 1 },
        mat(99),
        mat(1),
    ] {
        journal.record(
            key,
            "X",
            obs(ObservationCategory::SurfaceAppearance, ConfidenceLevel::Tentative, "x", 0),
        );
    }
    let keys: Vec<JournalKey> = journal.entries.iter().map(|e| e.key).collect();
    assert_eq!(
        keys,
        vec![mat(1), mat(99), JournalKey::Fabrication { output_seed: 1 }]
    );
}

// ── Entries and the journal ─────────────────────────────────────────

#[test]
fn journal_entry_new_sets_timestamps() {
    let key = mat(1);
    let entry = JournalEntry::new(key, "Ferrite".into(), 100);
    assert_eq!(entry.key, key);
    assert_eq!(entry.name, "Ferrite");
    assert!(entry.observations.is_empty());
    assert_eq!(entry.first_observed_at, 100);
    assert_eq!(entry.last_updated_at, 100);
}

#[test]
fn journal_entry_add_observation_updates_timestamp() {
    let mut entry = JournalEntry::new(mat(1), "Ferrite".into(), 10);
    entry.add_observation(obs(
        ObservationCategory::SurfaceAppearance,
        ConfidenceLevel::Tentative,
        "Warm rust tone",
        20,
    ));
    assert_eq!(entry.observation_count(), 1);
    assert_eq!(entry.first_observed_at, 10);
    assert_eq!(entry.last_updated_at, 20);
}

#[test]
fn journal_entry_accumulates_multiple_observations() {
    let mut entry = JournalEntry::new(mat(1), "Ferrite".into(), 10);
    entry.add_observation(obs(
        ObservationCategory::SurfaceAppearance,
        ConfidenceLevel::Tentative,
        "Warm rust tone",
        10,
    ));
    entry.add_observation(obs(
        ObservationCategory::ThermalBehavior,
        ConfidenceLevel::Observed,
        "Holds together under heat",
        50,
    ));
    entry.add_observation(obs(
        ObservationCategory::Weight,
        ConfidenceLevel::Tentative,
        "Heavy",
        55,
    ));
    assert_eq!(entry.observation_count(), 3);
    assert_eq!(entry.last_updated_at, 55);
}

#[test]
fn journal_entry_observations_by_category() {
    let mut entry = JournalEntry::new(mat(1), "Ferrite".into(), 10);
    entry.add_observation(obs(
        ObservationCategory::SurfaceAppearance,
        ConfidenceLevel::Tentative,
        "Warm rust tone",
        10,
    ));
    entry.add_observation(obs(
        ObservationCategory::ThermalBehavior,
        ConfidenceLevel::Observed,
        "Holds together under heat",
        20,
    ));
    entry.add_observation(obs(
        ObservationCategory::SurfaceAppearance,
        ConfidenceLevel::Observed,
        "Slightly rough texture",
        30,
    ));
    let surface = entry.observations_by_category(&ObservationCategory::SurfaceAppearance);
    assert_eq!(surface.len(), 2);
    assert_eq!(surface[0].description, "Warm rust tone");
    assert_eq!(surface[1].description, "Slightly rough texture");
    let thermal = entry.observations_by_category(&ObservationCategory::ThermalBehavior);
    assert_eq!(thermal.len(), 1);
    let weight = entry.observations_by_category(&ObservationCategory::Weight);
    assert!(weight.is_empty());
    assert!(entry.has_category(ObservationCategory::ThermalBehavior));
    assert!(!entry.has_category(ObservationCategory::Weight));
}

#[test]
fn new_journal_ensure_entry_creates_and_retrieves() {
    let mut journal = Journal::default();
    let key = mat(42);
    journal.ensure_entry(key, "Ferrite", 100);
    journal.ensure_entry(key, "Ignored Name", 200);
    assert_eq!(journal.entries.len(), 1);
    let entry = journal.get(&key).expect("entry should exist");
    assert_eq!(entry.name, "Ferrite");
    assert_eq!(entry.first_observed_at, 100);
}

#[test]
fn new_journal_record_accumulates_observations() {
    let mut journal = Journal::default();
    let key = mat(42);
    journal.record(
        key,
        "Ferrite",
        obs(
            ObservationCategory::SurfaceAppearance,
            ConfidenceLevel::Tentative,
            "Warm rust tone",
            10,
        ),
    );
    journal.record(
        key,
        "Ferrite",
        obs(
            ObservationCategory::ThermalBehavior,
            ConfidenceLevel::Observed,
            "Holds together under heat",
            50,
        ),
    );
    let entry = journal.get(&key).expect("entry should exist");
    assert_eq!(entry.observation_count(), 2);
    assert_eq!(entry.first_observed_at, 10);
    assert_eq!(entry.last_updated_at, 50);
}

#[test]
fn new_journal_different_keys_coexist() {
    let mut journal = Journal::default();
    let mat_key = mat(1);
    let fab_key = JournalKey::Fabrication { output_seed: 2 };
    journal.record(
        mat_key,
        "Ferrite",
        obs(
            ObservationCategory::SurfaceAppearance,
            ConfidenceLevel::Tentative,
            "Warm rust tone",
            10,
        ),
    );
    journal.record(
        fab_key,
        "Neoite",
        obs(
            ObservationCategory::FabricationResult,
            ConfidenceLevel::Confident,
            "Combined Ferrite + Silite -> Neoite",
            20,
        ),
    );
    assert_eq!(journal.entries.len(), 2);
    assert!(journal.get(&mat_key).is_some());
    assert!(journal.get(&fab_key).is_some());
}

#[test]
fn new_journal_empty_default() {
    let journal = Journal::default();
    assert!(journal.entries.is_empty());
    assert!(journal.is_empty());
    assert_eq!(journal.len(), 0);
}

#[test]
fn single_observation_recorded_correctly() {
    let mut journal = Journal::default();
    let key = mat(55);
    journal.record(
        key,
        "Quarite",
        obs(
            ObservationCategory::ThermalBehavior,
            ConfidenceLevel::Observed,
            "Cracks under rapid heating",
            42,
        ),
    );
    assert_eq!(journal.entries.len(), 1);
    let entry = journal.get(&key).expect("entry should exist");
    assert_eq!(entry.key, key);
    assert_eq!(entry.name, "Quarite");
    assert_eq!(entry.first_observed_at, 42);
    assert_eq!(entry.last_updated_at, 42);
    assert_eq!(entry.observation_count(), 1);
    let o = &entry.observations_by_category(&ObservationCategory::ThermalBehavior)[0];
    assert_eq!(o.category, ObservationCategory::ThermalBehavior);
    assert_eq!(o.confidence, ConfidenceLevel::Observed);
    assert_eq!(o.description, "Cracks under rapid heating");
    assert_eq!(o.recorded_at, 42);
}

#[test]
fn duplicate_observation_same_category_and_description_is_skipped() {
    let mut entry = JournalEntry::new(mat(1), "Ferrite".into(), 10);
    entry.add_observation(obs(
        ObservationCategory::SurfaceAppearance,
        ConfidenceLevel::Tentative,
        "Warm rust tone",
        10,
    ));
    entry.add_observation(obs(
        ObservationCategory::SurfaceAppearance,
        ConfidenceLevel::Tentative,
        "Warm rust tone",
        20,
    ));
    assert_eq!(entry.observation_count(), 1, "duplicate should be skipped");
    assert_eq!(entry.last_updated_at, 20);
}

#[test]
fn duplicate_observation_upgrades_confidence() {
    let mut entry = JournalEntry::new(mat(1), "Ferrite".into(), 10);
    entry.add_observation(obs(
        ObservationCategory::ThermalBehavior,
        ConfidenceLevel::Tentative,
        "Holds together under heat",
        10,
    ));
    entry.add_observation(obs(
        ObservationCategory::ThermalBehavior,
        ConfidenceLevel::Confident,
        "Holds together under heat",
        30,
    ));
    assert_eq!(entry.observation_count(), 1, "duplicate should be skipped");
    assert_eq!(
        entry.observations_by_category(&ObservationCategory::ThermalBehavior)[0].confidence,
        ConfidenceLevel::Confident,
        "confidence should be upgraded"
    );
    assert_eq!(entry.last_updated_at, 30);
}

#[test]
fn duplicate_does_not_downgrade_confidence() {
    let mut entry = JournalEntry::new(mat(1), "Ferrite".into(), 10);
    entry.add_observation(obs(
        ObservationCategory::Weight,
        ConfidenceLevel::Confident,
        "Heavy",
        10,
    ));
    entry.add_observation(obs(
        ObservationCategory::Weight,
        ConfidenceLevel::Tentative,
        "Heavy",
        20,
    ));
    assert_eq!(entry.observation_count(), 1);
    assert_eq!(
        entry.observations_by_category(&ObservationCategory::Weight)[0].confidence,
        ConfidenceLevel::Confident,
        "confidence should not downgrade"
    );
}

#[test]
fn examine_same_material_twice_does_not_duplicate() {
    let mut journal = Journal::default();
    let key = mat(42);
    let observation = obs(
        ObservationCategory::SurfaceAppearance,
        ConfidenceLevel::Tentative,
        "Warm rust tone",
        10,
    );
    journal.record(key, "Ferrite", observation.clone());
    journal.record(
        key,
        "Ferrite",
        obs(
            ObservationCategory::SurfaceAppearance,
            ConfidenceLevel::Tentative,
            "Warm rust tone",
            50,
        ),
    );
    assert_eq!(journal.entries.len(), 1, "only one entry for the material");
    let entry = journal.get(&key).expect("entry must exist");
    assert_eq!(
        entry.observation_count(),
        1,
        "duplicate observation must not be appended"
    );
    assert_eq!(entry.last_updated_at, 50, "timestamp should advance");
}

#[test]
fn examine_same_material_twice_upgrades_confidence() {
    let mut journal = Journal::default();
    let key = mat(42);
    journal.record(
        key,
        "Ferrite",
        obs(
            ObservationCategory::SurfaceAppearance,
            ConfidenceLevel::Tentative,
            "Warm rust tone",
            10,
        ),
    );
    journal.record(
        key,
        "Ferrite",
        obs(
            ObservationCategory::SurfaceAppearance,
            ConfidenceLevel::Observed,
            "Warm rust tone",
            50,
        ),
    );
    assert_eq!(journal.entries.len(), 1);
    let entry = journal.get(&key).expect("entry must exist");
    assert_eq!(entry.observation_count(), 1);
    assert_eq!(
        entry.observations_by_category(&ObservationCategory::SurfaceAppearance)[0].confidence,
        ConfidenceLevel::Observed,
        "confidence should upgrade on re-examination"
    );
}

#[test]
fn same_category_different_description_is_not_duplicate() {
    let mut entry = JournalEntry::new(mat(1), "Ferrite".into(), 10);
    entry.add_observation(obs(
        ObservationCategory::SurfaceAppearance,
        ConfidenceLevel::Tentative,
        "Warm rust tone",
        10,
    ));
    entry.add_observation(obs(
        ObservationCategory::SurfaceAppearance,
        ConfidenceLevel::Tentative,
        "Slightly rough texture",
        20,
    ));
    assert_eq!(
        entry
            .observations_by_category(&ObservationCategory::SurfaceAppearance)
            .len(),
        2,
        "different descriptions are distinct observations"
    );
}

#[test]
fn same_description_different_category_is_not_duplicate() {
    let mut entry = JournalEntry::new(mat(1), "Ferrite".into(), 10);
    entry.add_observation(obs(
        ObservationCategory::SurfaceAppearance,
        ConfidenceLevel::Tentative,
        "Notable",
        10,
    ));
    entry.add_observation(obs(
        ObservationCategory::LocationNote,
        ConfidenceLevel::Tentative,
        "Notable",
        20,
    ));
    assert_eq!(
        entry.observation_count(),
        2,
        "different categories are distinct observations"
    );
}

#[test]
fn multiple_observations_for_same_key_accumulate() {
    let mut journal = Journal::default();
    let key = mat(77);
    journal.record(
        key,
        "Volite",
        obs(
            ObservationCategory::SurfaceAppearance,
            ConfidenceLevel::Tentative,
            "Dark mineral grey",
            10,
        ),
    );
    journal.record(
        key,
        "Volite",
        obs(
            ObservationCategory::ThermalBehavior,
            ConfidenceLevel::Observed,
            "Glows faintly when heated",
            25,
        ),
    );
    journal.record(
        key,
        "Volite",
        obs(
            ObservationCategory::SurfaceAppearance,
            ConfidenceLevel::Observed,
            "Slightly crystalline texture",
            40,
        ),
    );
    journal.record(
        key,
        "Volite",
        obs(
            ObservationCategory::Weight,
            ConfidenceLevel::Confident,
            "Very heavy",
            60,
        ),
    );
    journal.record(
        key,
        "Volite",
        obs(
            ObservationCategory::FabricationResult,
            ConfidenceLevel::Confident,
            "Combined Volite + Silite -> Crystite",
            80,
        ),
    );
    assert_eq!(journal.entries.len(), 1, "all observations share one entry");
    let entry = journal.get(&key).expect("entry should exist");
    assert_eq!(entry.name, "Volite");
    assert_eq!(entry.first_observed_at, 10);
    assert_eq!(entry.last_updated_at, 80);
    assert_eq!(entry.observation_count(), 5);

    let surface = entry.observations_by_category(&ObservationCategory::SurfaceAppearance);
    assert_eq!(surface.len(), 2);
    assert_eq!(surface[0].description, "Dark mineral grey");
    assert_eq!(surface[0].confidence, ConfidenceLevel::Tentative);
    assert_eq!(surface[0].recorded_at, 10);
    assert_eq!(surface[1].description, "Slightly crystalline texture");
    assert_eq!(surface[1].confidence, ConfidenceLevel::Observed);
    assert_eq!(surface[1].recorded_at, 40);

    let thermal = entry.observations_by_category(&ObservationCategory::ThermalBehavior);
    assert_eq!(thermal.len(), 1);
    assert_eq!(thermal[0].description, "Glows faintly when heated");
    assert_eq!(thermal[0].confidence, ConfidenceLevel::Observed);
    assert_eq!(thermal[0].recorded_at, 25);

    let weight = entry.observations_by_category(&ObservationCategory::Weight);
    assert_eq!(weight.len(), 1);
    assert_eq!(weight[0].description, "Very heavy");
    assert_eq!(weight[0].confidence, ConfidenceLevel::Confident);
    assert_eq!(weight[0].recorded_at, 60);

    let fab = entry.observations_by_category(&ObservationCategory::FabricationResult);
    assert_eq!(fab.len(), 1);
    assert_eq!(fab[0].description, "Combined Volite + Silite -> Crystite");
    assert_eq!(fab[0].confidence, ConfidenceLevel::Confident);
    assert_eq!(fab[0].recorded_at, 80);

    let loc = entry.observations_by_category(&ObservationCategory::LocationNote);
    assert_eq!(loc.len(), 0);
}

#[test]
fn different_keys_stored_independently() {
    let mut journal = Journal::default();
    let mat_a = mat(10);
    let mat_b = mat(20);
    let fab_a = JournalKey::Fabrication { output_seed: 10 };
    journal.record(
        mat_a,
        "Ferrite",
        obs(
            ObservationCategory::SurfaceAppearance,
            ConfidenceLevel::Tentative,
            "Warm rust tone",
            1,
        ),
    );
    journal.record(
        mat_b,
        "Silite",
        obs(
            ObservationCategory::SurfaceAppearance,
            ConfidenceLevel::Observed,
            "Cool blue tone",
            2,
        ),
    );
    journal.record(
        fab_a,
        "Neoite",
        obs(
            ObservationCategory::FabricationResult,
            ConfidenceLevel::Confident,
            "Combined Ferrite + Silite -> Neoite",
            3,
        ),
    );
    journal.record(
        mat_a,
        "Ferrite",
        obs(
            ObservationCategory::ThermalBehavior,
            ConfidenceLevel::Observed,
            "Holds together under heat",
            4,
        ),
    );
    assert_eq!(journal.entries.len(), 3, "three distinct keys = three entries");

    let entry_a = journal.get(&mat_a).expect("mat_a entry should exist");
    assert_eq!(entry_a.name, "Ferrite");
    assert_eq!(entry_a.observation_count(), 2);
    assert_eq!(entry_a.first_observed_at, 1);
    assert_eq!(entry_a.last_updated_at, 4);
    assert_eq!(
        entry_a.observations_by_category(&ObservationCategory::SurfaceAppearance)[0].description,
        "Warm rust tone"
    );
    assert_eq!(
        entry_a
            .observations_by_category(&ObservationCategory::ThermalBehavior)
            .len(),
        1
    );

    let entry_b = journal.get(&mat_b).expect("mat_b entry should exist");
    assert_eq!(entry_b.name, "Silite");
    assert_eq!(entry_b.observation_count(), 1);
    assert_eq!(entry_b.first_observed_at, 2);
    assert_eq!(entry_b.last_updated_at, 2);
    assert_eq!(
        entry_b.observations_by_category(&ObservationCategory::SurfaceAppearance)[0].description,
        "Cool blue tone"
    );

    let entry_fab = journal.get(&fab_a).expect("fab_a entry should exist");
    assert_eq!(entry_fab.name, "Neoite");
    assert_eq!(entry_fab.observation_count(), 1);
    assert_eq!(entry_fab.first_observed_at, 3);
    assert_eq!(entry_fab.last_updated_at, 3);
    assert_eq!(
        entry_fab
            .observations_by_category(&ObservationCategory::FabricationResult)
            .len(),
        1
    );

    assert!(
        entry_a.observations.iter().all(|o| o.description != "Cool blue tone"
            && o.description != "Combined Ferrite + Silite -> Neoite"),
        "mat_a must not contain observations from other keys"
    );
    assert!(
        entry_b.observations.iter().all(|o| o.description != "Warm rust tone"
            && o.description != "Holds together under heat"
            && o.description != "Combined Ferrite + Silite -> Neoite"),
        "mat_b must not contain observations from other keys"
    );
    assert!(
        entry_fab.observations.iter().all(|o| o.description != "Warm rust tone"
            && o.description != "Cool blue tone"
            && o.description != "Holds together under heat"),
        "fab_a must not contain observations from other keys"
    );
}

#[test]
fn remove_takes_the_entry_out() {
    let mut journal = Journal::default();
    for seed in 1..4u64 {
        journal.ensure_entry(mat(seed), "X", seed);
    }
    let removed = journal.remove(&mat(2)).expect("entry 2 exists");
    assert_eq!(removed.key, mat(2));
    assert_eq!(journal.len(), 2);
    assert!(journal.get(&mat(2)).is_none());
    assert!(journal.remove(&mat(2)).is_none());
    assert_eq!(journal.len(), 2);
}

#[test]
fn display_keys_sort_by_name_then_key_and_apply_filter() {
    let mut journal = Journal::default();
    journal.record(
        mat(3),
        "Bravo",
        obs(ObservationCategory::Weight, ConfidenceLevel::Tentative, "w", 0),
    );
    journal.record(
        mat(1),
        "Charlie",
        obs(ObservationCategory::SurfaceAppearance, ConfidenceLevel::Tentative, "s", 0),
    );
    journal.record(
        mat(2),
        "Alpha",
        obs(ObservationCategory::SurfaceAppearance, ConfidenceLevel::Tentative, "s", 0),
    );
    journal.record(
        mat(0),
        "Bravo",
        obs(ObservationCategory::SurfaceAppearance, ConfidenceLevel::Tentative, "s", 0),
    );
    let all = journal.display_keys(&JournalFilter::default());
    assert_eq!(all, vec![mat(2), mat(0), mat(3), mat(1)]);
    let surface_only = journal.display_keys(&JournalFilter {
        category: Some(ObservationCategory::SurfaceAppearance),
        context: None,
    });
    assert_eq!(surface_only, vec![mat(2), mat(0), mat(1)]);
    let order = journal.display_order(&JournalFilter::default());
    assert_eq!(order, vec![2, 0, 3, 1]);
}

// ── Navigation: fitting the highlight and window to the list ────────

#[test]
fn navigation_clamp_up_from_first_stays_at_first() {
    let mut state = ui(0, 0, 15);
    state.selected_index = state.selected_index.saturating_sub(1);
    state.clamp_to_entry_count(5);
    assert_eq!(state.selected_index, 0);
}

#[test]
fn navigation_clamp_down_from_last_stays_at_last() {
    let mut state = ui(4, 0, 15);
    state.selected_index = (state.selected_index + 1).min(4);
    state.clamp_to_entry_count(5);
    assert_eq!(state.selected_index, 4);
}

#[test]
fn scroll_offset_adjusts_when_selection_moves_past_visible_range() {
    let mut state = ui(0, 0, 3);
    state.selected_index = 4;
    state.clamp_to_entry_count(10);
    assert!(
        state.scroll_offset + state.entries_per_page > 4,
        "selected entry must be within visible window"
    );
    assert_eq!(state.scroll_offset, 2, "scroll should be 4+1-3=2");
}

#[test]
fn scroll_offset_adjusts_when_selection_moves_above_visible_range() {
    let mut state = ui(1, 3, 3);
    state.clamp_to_entry_count(10);
    assert_eq!(
        state.scroll_offset, 1,
        "scroll should snap to selected index when it is above the window"
    );
}

#[test]
fn page_down_moves_selection_by_entries_per_page() {
    let mut state = ui(2, 0, 5);
    state.selected_index = (state.selected_index + state.entries_per_page).min(20 - 1);
    state.clamp_to_entry_count(20);
    assert_eq!(state.selected_index, 7);
    assert!(state.scroll_offset + state.entries_per_page > 7);
}

#[test]
fn page_down_clamps_to_last_entry() {
    let mut state = ui(8, 5, 5);
    let entry_count = 10;
    state.selected_index = (state.selected_index + state.entries_per_page).min(entry_count - 1);
    state.clamp_to_entry_count(entry_count);
    assert_eq!(state.selected_index, 9);
}

#[test]
fn page_up_moves_selection_by_entries_per_page() {
    let mut state = ui(12, 10, 5);
    state.selected_index = state.selected_index.saturating_sub(state.entries_per_page);
    state.clamp_to_entry_count(20);
    assert_eq!(state.selected_index, 7);
    assert!(state.scroll_offset <= 7);
    assert!(state.scroll_offset + state.entries_per_page > 7);
}

#[test]
fn page_up_clamps_to_first_entry() {
    let mut state = ui(2, 0, 5);
    state.selected_index = state.selected_index.saturating_sub(state.entries_per_page);
    state.clamp_to_entry_count(10);
    assert_eq!(state.selected_index, 0);
    assert_eq!(state.scroll_offset, 0);
}

#[test]
fn home_jumps_to_first_entry() {
    let mut state = ui(42, 30, 15);
    state.selected_index = 0;
    state.clamp_to_entry_count(50);
    assert_eq!(state.selected_index, 0);
    assert_eq!(state.scroll_offset, 0);
}

#[test]
fn end_jumps_to_last_entry() {
    let mut state = ui(3, 0, 15);
    let entry_count = 50;
    state.selected_index = entry_count - 1;
    state.clamp_to_entry_count(entry_count);
    assert_eq!(state.selected_index, 49);
    assert_eq!(state.scroll_offset, 35);
}

#[test]
fn page_down_adjusts_scroll_offset_past_visible_range() {
    let mut state = ui(0, 0, 3);
    state.selected_index = (state.selected_index + state.entries_per_page).min(10 - 1);
    state.clamp_to_entry_count(10);
    assert_eq!(state.selected_index, 3);
    assert_eq!(
        state.scroll_offset, 1,
        "scroll_offset should be 3+1-3=1 so index 3 is the last visible"
    );
}

#[test]
fn clamp_to_entry_count_zero_entries() {
    let mut state = ui(5, 3, 15);
    state.clamp_to_entry_count(0);
    assert_eq!(state.selected_index, 0);
    assert_eq!(state.scroll_offset, 0);
}

#[test]
fn toggle_close_reopen_preserves_selection_and_scroll() {
    let mut state = ui(7, 3, 15);
    state.visible = false;
    state.visible = true;
    assert_eq!(state.selected_index, 7, "selection preserved after toggle");
    assert_eq!(state.scroll_offset, 3, "scroll preserved after toggle");
}

#[test]
fn clamp_corrects_out_of_range_selected_index() {
    let mut state = ui(25, 20, 5);
    state.clamp_to_entry_count(10);
    assert_eq!(
        state.selected_index, 9,
        "selected_index must clamp to last valid index"
    );
    assert!(
        state.selected_index >= state.scroll_offset
            && state.selected_index < state.scroll_offset + state.entries_per_page,
        "scroll_offset must adjust to keep clamped selection visible"
    );
}

#[test]
fn clamp_keeps_selection_visible_for_every_small_case() {
    for n in 1..12usize {
        for per_page in 1..6usize {
            for sel in 0..14usize {
                for scroll in 0..14usize {
                    let mut state = ui(sel, scroll, per_page);
                    state.clamp_to_entry_count(n);
                    assert!(state.selected_index < n);
                    assert!(state.scroll_offset <= state.selected_index);
                    assert!(state.selected_index < state.scroll_offset + per_page);
                    assert!(state.scroll_offset + per_page <= n || state.scroll_offset == 0);
                }
            }
        }
    }
}

// ── Keeping the highlight on its subject as entries come and go ─────

struct Panel {
    journal: Journal,
    state: JournalUiState,
    tracker: JournalSelectionTracker,
}

impl Panel {
    fn new(entries_per_page: usize) -> Panel {
        Panel {
            journal: Journal::default(),
            state: ui(0, 0, entries_per_page),
            tracker: JournalSelectionTracker::default(),
        }
    }

    fn update(&mut self) {
        let keys = self.journal.display_keys(&self.state.filter);
        reconcile_selection(&keys, &mut self.state, &mut self.tracker);
    }

    fn record(&mut self, key: JournalKey, name: &str, recorded_at: u64) {
        self.journal.record(
            key,
            name,
            obs(
                ObservationCategory::SurfaceAppearance,
                ConfidenceLevel::Tentative,
                &format!("Appearance of {name}"),
                recorded_at,
            ),
        );
    }

    fn delete(&mut self, key: &JournalKey) {
        self.journal.remove(key);
    }
}

#[test]
fn selection_follows_subject_when_entry_inserted_before_it() {
    let mut panel = Panel::new(15);
    panel.record(mat(1), "Bravo", 1);
    panel.record(mat(2), "Charlie", 2);
    panel.record(mat(3), "Delta", 3);
    panel.update();
    panel.state.selected_index = 1;
    panel.update();
    panel.record(mat(4), "Alpha", 4);
    panel.update();
    assert_eq!(
        panel.state.selected_index, 2,
        "selection must follow Charlie to its new sort position"
    );
}

#[test]
fn deleting_selected_entry_selects_nearest_by_sort_position() {
    let mut panel = Panel::new(15);
    panel.record(mat(1), "Alpha", 1);
    panel.record(mat(2), "Bravo", 2);
    panel.record(mat(3), "Charlie", 3);
    panel.record(mat(4), "Delta", 4);
    panel.update();
    panel.state.selected_index = 1;
    panel.update();
    panel.delete(&mat(2));
    panel.update();
    assert_eq!(
        panel.state.selected_index, 1,
        "highlight must land on the entry now at the deleted slot"
    );
    assert_eq!(
        panel.tracker.key,
        Some(mat(3)),
        "tracker must re-anchor onto the nearest entry"
    );
}

#[test]
fn deleting_last_entry_while_selected_falls_back_to_new_last() {
    let mut panel = Panel::new(15);
    panel.record(mat(1), "Alpha", 1);
    panel.record(mat(2), "Bravo", 2);
    panel.record(mat(3), "Charlie", 3);
    panel.update();
    panel.state.selected_index = 2;
    panel.update();
    panel.delete(&mat(3));
    panel.update();
    assert_eq!(
        panel.state.selected_index, 1,
        "highlight must clamp to the new last entry"
    );
    assert_eq!(panel.tracker.key, Some(mat(2)), "tracker must re-anchor onto Bravo");
}

#[test]
fn emptying_journal_resets_tracker_then_re_anchors_on_repopulation() {
    let mut panel = Panel::new(15);
    panel.record(mat(1), "Alpha", 1);
    panel.record(mat(2), "Bravo", 2);
    panel.update();
    panel.state.selected_index = 1;
    panel.update();
    panel.delete(&mat(1));
    panel.delete(&mat(2));
    panel.update();
    assert!(
        panel.tracker.key.is_none(),
        "tracker must reset to None on empty journal"
    );
    panel.record(mat(99), "Charlie", 10);
    panel.update();
    assert_eq!(panel.state.selected_index, 0);
    assert_eq!(
        panel.tracker.key,
        Some(mat(99)),
        "tracker must anchor onto the new sole entry"
    );
}

#[test]
fn selection_follows_subject_when_entry_deleted_before_it() {
    let mut panel = Panel::new(15);
    panel.record(mat(1), "Alpha", 1);
    panel.record(mat(2), "Bravo", 2);
    panel.record(mat(3), "Charlie", 3);
    panel.update();
    panel.state.selected_index = 2;
    panel.update();
    panel.delete(&mat(1));
    panel.update();
    assert_eq!(
        panel.state.selected_index, 1,
        "selection must follow Charlie to its new sort position after deletion before it"
    );
}

#[test]
fn new_entry_before_visible_window_keeps_visible_entries_stable() {
    let mut panel = Panel::new(3);
    panel.record(mat(1), "Bravo", 1);
    panel.record(mat(2), "Charlie", 2);
    panel.record(mat(3), "Delta", 3);
    panel.record(mat(4), "Echo", 4);
    panel.record(mat(5), "Foxtrot", 5);
    panel.record(mat(6), "Golf", 6);
    panel.update();
    panel.state.scroll_offset = 3;
    panel.state.selected_index = 4;
    panel.update();
    assert_eq!(panel.state.scroll_offset, 3, "precondition: window starts at 3");
    assert_eq!(panel.state.selected_index, 4, "precondition: Foxtrot selected");
    panel.record(mat(99), "Alpha", 7);
    panel.update();
    assert_eq!(
        panel.state.scroll_offset, 4,
        "scroll_offset must follow the top entry (Echo)"
    );
    assert_eq!(
        panel.state.selected_index, 5,
        "selection must follow Foxtrot to its new sort position"
    );
}

#[test]
fn new_entry_after_visible_window_does_not_move_view() {
    let mut panel = Panel::new(3);
    panel.record(mat(1), "Alpha", 1);
    panel.record(mat(2), "Bravo", 2);
    panel.record(mat(3), "Charlie", 3);
    panel.update();
    panel.state.selected_index = 1;
    panel.update();
    panel.record(mat(99), "Zulu", 4);
    panel.update();
    assert_eq!(
        panel.state.scroll_offset, 0,
        "scroll_offset must not move when entry is inserted past the visible window"
    );
    assert_eq!(
        panel.state.selected_index, 1,
        "selection must stay on Bravo when an unrelated entry is added"
    );
}

#[test]
fn new_entry_between_top_and_selection_shifts_only_selection() {
    let mut panel = Panel::new(5);
    panel.record(mat(1), "Alpha", 1);
    panel.record(mat(2), "Bravo", 2);
    panel.record(mat(3), "Delta", 3);
    panel.record(mat(4), "Echo", 4);
    panel.update();
    panel.state.selected_index = 3;
    panel.update();
    panel.record(mat(99), "Charlie", 5);
    panel.update();
    assert_eq!(
        panel.state.scroll_offset, 0,
        "scroll_offset must not move when the top entry's position is unchanged"
    );
    assert_eq!(
        panel.state.selected_index, 4,
        "selection must follow Echo to its new sort position"
    );
}

#[test]
fn tracker_remembers_frame_results() {
    let mut panel = Panel::new(2);
    panel.record(mat(1), "Alpha", 1);
    panel.record(mat(2), "Bravo", 2);
    panel.record(mat(3), "Charlie", 3);
    panel.state.selected_index = 2;
    panel.update();
    assert_eq!(panel.state.selected_index, 2);
    assert_eq!(panel.state.scroll_offset, 1);
    assert_eq!(panel.tracker.last_selected_index, 2);
    assert_eq!(panel.tracker.last_scroll_offset, 1);
    assert_eq!(panel.tracker.key, Some(mat(3)));
    assert_eq!(panel.tracker.top_key, Some(mat(2)));
}
