use apeiron_cipher::naming::procedural_name;

#[test]
fn deterministic_same_seed_same_name() {
    assert_eq!(procedural_name(42), procedural_name(42));
}

#[test]
fn varies_by_seed() {
    assert_ne!(procedural_name(1000), procedural_name(999_999));
}

#[test]
fn prefix_index_stays_in_bounds() {
    for seed in [0u64, 1, u64::MAX, 0xDEAD_BEEF, 0xCAFE_BABE_1234_5678] {
        let name = procedural_name(seed);
        assert!(!name.is_empty(), "name must be non-empty for seed {seed:#X}");
    }
}

#[test]
fn name_depends_only_on_the_two_selector_windows() {
    // Bits outside the prefix (bits 8..12) and suffix (bits 16..20) windows
    // never change the name.
    let base = 0x000A_0B00u64;
    assert_eq!(procedural_name(base), procedural_name(base | 0xFF));
    assert_eq!(procedural_name(base), procedural_name(base | 0xFFFF_0000_0000_0000));
}

#[test]
fn tables_have_power_of_two_length() {
    assert!(apeiron_cipher::naming::TABLE_LEN.is_power_of_two());
}
