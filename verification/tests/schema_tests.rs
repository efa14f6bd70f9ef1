use apeiron_cipher::persistence::schema::{GenerationVersionCheck, SaveHeader, SAVE_SCHEMA_VERSION};
use apeiron_cipher::world_generation::GENERATION_VERSION;

#[test]
fn save_header_generation_version_matches_constant() {
    let header = SaveHeader::new(42);
    assert_eq!(
        header.generation_version, GENERATION_VERSION,
        "SaveHeader::generation_version must equal GENERATION_VERSION"
    );
}

#[test]
fn save_header_world_seed_preserved() {
    let seed = 0xCAFE_BABE_0000_0001_u64;
    let header = SaveHeader::new(seed);
    assert_eq!(header.world_seed, seed, "world_seed must be stored verbatim in SaveHeader");
}

#[test]
fn save_header_schema_version_matches_constant() {
    let header = SaveHeader::new(1);
    assert_eq!(
        header.schema_version, SAVE_SCHEMA_VERSION,
        "SaveHeader::schema_version must equal SAVE_SCHEMA_VERSION"
    );
}

#[test]
fn check_generation_version_exact_match() {
    let header = SaveHeader::new(99);
    assert_eq!(header.check_generation_version(), GenerationVersionCheck::Match);
}

#[test]
fn check_generation_version_saved_older() {
    let current = GENERATION_VERSION;
    let header = SaveHeader { schema_version: SAVE_SCHEMA_VERSION, generation_version: 0, world_seed: 1 };
    assert_eq!(
        header.check_generation_version(),
        GenerationVersionCheck::SavedOlder { saved: 0, current }
    );
}

#[test]
fn check_generation_version_saved_newer() {
    let current = GENERATION_VERSION;
    let future_version = current + 1;
    let header = SaveHeader {
        schema_version: SAVE_SCHEMA_VERSION,
        generation_version: future_version,
        world_seed: 1,
    };
    assert_eq!(
        header.check_generation_version(),
        GenerationVersionCheck::SavedNewer { saved: future_version, current }
    );
}

#[test]
fn check_generation_version_multi_version_gap() {
    let current = GENERATION_VERSION;
    let old_version = current.saturating_sub(5);
    let header = SaveHeader { schema_version: SAVE_SCHEMA_VERSION, generation_version: old_version, world_seed: 42 };
    match header.check_generation_version() {
        GenerationVersionCheck::SavedOlder { saved, current: c } => {
            assert_eq!(saved, old_version);
            assert_eq!(c, current);
        }
        other => panic!("expected SavedOlder, got {other:?}"),
    }
}

#[test]
fn generation_version_is_one() {
    assert_eq!(GENERATION_VERSION, 1);
    assert_eq!(SAVE_SCHEMA_VERSION, 1);
}
