use apeiron_cipher::materials::{
    disambiguated_name, MaterialCatalog, MaterialSeed, WellKnownMaterial,
    ALL_WELL_KNOWN_MATERIALS,
};
use apeiron_cipher::naming::procedural_name;

/// Registers `seed` under its procedural name, as seed derivation does.
fn register_seed(catalog: &mut MaterialCatalog<u64>, seed: u64) -> String {
    let base = procedural_name(seed);
    catalog.register(MaterialSeed(seed), &base, seed).name.clone()
}

#[test]
fn catalog_default_is_empty() {
    let catalog: MaterialCatalog<u64> = MaterialCatalog::default();
    assert!(catalog.is_empty());
    assert_eq!(catalog.len(), 0);
}

#[test]
fn derive_and_register_returns_same_entry_for_same_seed() {
    let mut catalog = MaterialCatalog::default();
    let name1 = register_seed(&mut catalog, 42);
    let name2 = register_seed(&mut catalog, 42);
    assert_eq!(name1, name2);
    assert_eq!(catalog.len(), 1);
}

#[test]
fn derive_and_register_disambiguates_name_collision() {
    let mut catalog = MaterialCatalog::default();
    let base_name = procedural_name(999);
    catalog.register(MaterialSeed(0xBEEF), &base_name, 0xBEEF);
    let registered = register_seed(&mut catalog, 999);
    assert_ne!(registered, base_name);
    assert!(
        registered.starts_with(&base_name),
        "disambiguated name '{}' should start with base '{}'",
        registered,
        base_name
    );
    assert!(
        registered.contains('-'),
        "disambiguated name should contain a '-' separator"
    );
    assert_eq!(registered, format!("{base_name}-03e7"));
    assert_eq!(catalog.len(), 2);
}

#[test]
fn disambiguated_name_no_collision_returns_base() {
    let existing: Vec<String> = Vec::new();
    let result = disambiguated_name("Vexorite", MaterialSeed(42), &existing);
    assert_eq!(result, "Vexorite");
}

#[test]
fn disambiguated_name_with_collision_appends_suffix() {
    let existing = vec!["Vexorite".to_string()];
    let result = disambiguated_name("Vexorite", MaterialSeed(0x1234_5678_9ABC_DEF0), &existing);
    assert_eq!(result, "Vexorite-def0");
}

#[test]
fn disambiguated_name_walks_the_seed_windows_then_the_full_seed() {
    let seed = MaterialSeed(0x1234_5678_9ABC_DEF0);
    let mut existing = vec!["V".to_string(), "V-def0".to_string()];
    assert_eq!(disambiguated_name("V", seed, &existing), "V-9abc");
    existing.push("V-9abc".to_string());
    assert_eq!(disambiguated_name("V", seed, &existing), "V-5678");
    existing.push("V-5678".to_string());
    assert_eq!(disambiguated_name("V", seed, &existing), "V-1234");
    existing.push("V-1234".to_string());
    assert_eq!(disambiguated_name("V", seed, &existing), "V-123456789abcdef0");
}

#[test]
fn derive_and_register_1000_seeds_no_duplicate_names() {
    let mut catalog = MaterialCatalog::default();
    let seeds: Vec<u64> = (0u64..1000)
        .map(|i| i.wrapping_mul(0x9E37_79B9_7F4A_7C15).wrapping_add(1))
        .collect();
    for &seed in &seeds {
        register_seed(&mut catalog, seed);
    }
    assert_eq!(
        catalog.len(),
        1000,
        "catalog should contain exactly 1000 materials after 1000 unique seeds"
    );
    let names = catalog.names();
    let unique_names: std::collections::HashSet<&String> = names.iter().collect();
    assert_eq!(
        unique_names.len(),
        1000,
        "all 1000 registered material names must be unique"
    );
}

#[test]
fn disambiguated_name_deterministic() {
    let existing = vec!["Coranite".to_string()];
    let a = disambiguated_name("Coranite", MaterialSeed(777), &existing);
    let b = disambiguated_name("Coranite", MaterialSeed(777), &existing);
    assert_eq!(a, b);
}

#[test]
fn well_known_seeds_are_unique() {
    let mut seen: std::collections::HashMap<u64, &'static str> = std::collections::HashMap::new();
    for &wk in WellKnownMaterial::all() {
        let seed = wk.seed();
        if let Some(previous_label) = seen.insert(seed, wk.display_name()) {
            panic!(
                "duplicate WellKnownMaterial seed {seed} produced by both {previous_label} and {}",
                wk.display_name(),
            );
        }
    }
    assert_eq!(WellKnownMaterial::all().len(), 10);
    assert_eq!(seen.len(), 10);
    for expected_seed in 1001_u64..=1010_u64 {
        assert!(
            seen.contains_key(&expected_seed),
            "canonical WellKnownMaterial seed {expected_seed} is missing",
        );
    }
    assert_eq!(ALL_WELL_KNOWN_MATERIALS.len(), 10);
    assert_eq!(WellKnownMaterial::Ferrite.seed(), 1001);
    assert_eq!(WellKnownMaterial::Ferrite.display_name(), "Ferrite");
}

#[test]
fn catalog_lookups_by_seed_and_name() {
    let mut catalog = MaterialCatalog::default();
    catalog.register(MaterialSeed(1), "Alpha", 10u32);
    catalog.register(MaterialSeed(2), "Alpha", 20u32);
    catalog.register(MaterialSeed(3), "Beta", 30u32);
    assert_eq!(catalog.get_by_seed(MaterialSeed(2)).unwrap().material, 20);
    assert!(catalog.get_by_seed(MaterialSeed(9)).is_none());
    assert_eq!(catalog.get_by_name("Alpha").unwrap().seed, MaterialSeed(1));
    assert_eq!(catalog.get_by_name("Alpha-0002").unwrap().seed, MaterialSeed(2));
    assert!(catalog.get_by_name("Gamma").is_none());
    assert_eq!(
        catalog.seeds(),
        vec![MaterialSeed(1), MaterialSeed(2), MaterialSeed(3)]
    );
    assert_eq!(catalog.values(), vec![&10, &20, &30]);
    assert_eq!(catalog.names(), vec!["Alpha", "Alpha-0002", "Beta"]);
}

#[test]
fn material_seed_renders_as_padded_hex() {
    assert_eq!(MaterialSeed(0xBEEF).to_text(), "0x000000000000beef");
    assert_eq!(MaterialSeed(u64::MAX).to_text(), "0xffffffffffffffff");
}

#[test]
fn disambiguated_name_extends_a_taken_full_seed_name_until_free() {
    let seed = MaterialSeed(0x1234_5678_9ABC_DEF0);
    let mut existing: Vec<String> = ["V", "V-def0", "V-9abc", "V-5678", "V-1234", "V-123456789abcdef0"]
        .iter()
        .map(|s| s.to_string())
        .collect();
    assert_eq!(
        disambiguated_name("V", seed, &existing),
        "V-123456789abcdef0-123456789abcdef0"
    );
    existing.push("V-123456789abcdef0-123456789abcdef0".to_string());
    assert_eq!(
        disambiguated_name("V", seed, &existing),
        "V-123456789abcdef0-123456789abcdef0-123456789abcdef0"
    );
}

#[test]
fn catalog_never_repeats_a_name_even_past_the_full_seed() {
    let mut catalog: MaterialCatalog<u64> = MaterialCatalog::new();
    for (i, name) in ["V", "V-def0", "V-9abc", "V-5678", "V-1234", "V-123456789abcdef0"].iter().enumerate() {
        catalog.register(MaterialSeed(i as u64 + 1), name, 0);
    }
    let e = catalog.register(MaterialSeed(0x1234_5678_9ABC_DEF0), "V", 0);
    assert_eq!(e.name, "V-123456789abcdef0-123456789abcdef0");
    assert_eq!(catalog.len(), 7);
}
