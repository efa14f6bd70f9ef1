use apeiron_cipher::mod_registry::{
    discover_mods, join_path, LoadedMod, ManifestProbe, ModDirEntry, ModRegistry,
};

const ROOT: &str = "/tmp/apeiron_mods";

fn valid_entry(id: &str, name: &str) -> ModDirEntry {
    ModDirEntry {
        dir_name: id.to_string(),
        dir_path: format!("{ROOT}/{id}"),
        manifest: ManifestProbe::Parsed {
            schema_version: 1,
            id: id.to_string(),
            name: name.to_string(),
            version: "1.0.0".to_string(),
        },
    }
}

fn entry(dir: &str, manifest: ManifestProbe) -> ModDirEntry {
    ModDirEntry {
        dir_name: dir.to_string(),
        dir_path: format!("{ROOT}/{dir}"),
        manifest,
    }
}

#[test]
fn empty_mods_dir_returns_no_mods() {
    let result = discover_mods(Vec::new());
    assert!(result.is_empty(), "expected no mods, got {:?}", result);
}

#[test]
fn single_valid_mod_is_discovered() {
    let result = discover_mods(vec![valid_entry("test.alpha", "Alpha Mod")]);
    assert_eq!(result.len(), 1);
    assert_eq!(result[0].id, "test.alpha");
    assert_eq!(result[0].name, "Alpha Mod");
    assert_eq!(result[0].dir, "/tmp/apeiron_mods/test.alpha");
}

#[test]
fn mods_are_sorted_alphabetically() {
    let result = discover_mods(vec![
        valid_entry("test.gamma", "Gamma"),
        valid_entry("test.alpha", "Alpha"),
        valid_entry("test.beta", "Beta"),
    ]);
    assert_eq!(result.len(), 3);
    assert_eq!(result[0].id, "test.alpha");
    assert_eq!(result[1].id, "test.beta");
    assert_eq!(result[2].id, "test.gamma");
}

#[test]
fn mod_missing_mod_toml_is_skipped() {
    let result = discover_mods(vec![
        entry("no.manifest", ManifestProbe::Missing),
        valid_entry("valid.mod", "Valid"),
    ]);
    assert_eq!(result.len(), 1);
    assert_eq!(result[0].id, "valid.mod");
}

#[test]
fn mod_with_id_mismatch_is_skipped() {
    let result = discover_mods(vec![entry(
        "dir.name",
        ManifestProbe::Parsed {
            schema_version: 1,
            id: "other.name".to_string(),
            name: "Mismatch".to_string(),
            version: "1.0.0".to_string(),
        },
    )]);
    assert!(
        result.is_empty(),
        "expected id-mismatch mod to be skipped, got {:?}",
        result
    );
}

#[test]
fn mod_with_malformed_manifest_is_skipped() {
    let result = discover_mods(vec![
        entry("bad.mod", ManifestProbe::Malformed),
        entry("locked.mod", ManifestProbe::Unreadable),
    ]);
    assert!(result.is_empty());
}

#[test]
fn unsupported_schema_version_is_skipped() {
    let result = discover_mods(vec![entry(
        "future.mod",
        ManifestProbe::Parsed {
            schema_version: 2,
            id: "future.mod".to_string(),
            name: "Future".to_string(),
            version: "1.0.0".to_string(),
        },
    )]);
    assert!(result.is_empty());
}

#[test]
fn asset_path_mirrors_assets_layout() {
    let mods = discover_mods(vec![valid_entry("path.test", "Path Test")]);
    assert_eq!(mods.len(), 1);
    let expected = std::path::Path::new(ROOT)
        .join("path.test")
        .join("assets")
        .join("materials")
        .join("classifications.toml");
    let actual = mods[0].asset_path("materials/classifications.toml");
    assert_eq!(std::path::PathBuf::from(actual), expected);
    assert_eq!(mods[0].asset_root(), "/tmp/apeiron_mods/path.test/assets");
    assert_eq!(mods[0].id(), "path.test");
}

#[test]
fn join_path_behaves_like_path_join() {
    for (base, rel) in [
        ("/a/b", "c"),
        ("/a/b/", "c/d"),
        ("", "c"),
        ("/a", "/abs"),
        ("rel", ""),
    ] {
        let ours = join_path(base, rel);
        let std_join = std::path::Path::new(base).join(rel);
        assert_eq!(std::path::PathBuf::from(&ours), std_join, "{base:?} + {rel:?}");
    }
}

#[test]
fn registry_exposes_its_mods() {
    let registry = ModRegistry {
        mods: vec![LoadedMod {
            id: "a.b".to_string(),
            name: "AB".to_string(),
            dir: "/m/a.b".to_string(),
        }],
    };
    assert_eq!(registry.mods().len(), 1);
    assert!(ModRegistry::default().mods().is_empty());
}
