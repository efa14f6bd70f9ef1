use apeiron_cipher::mod_manifest::{ModInfo, ModLicensing, ModManifest};
use apeiron_cipher::mod_validator::{
    parse_semver, ModRootFacts, ModValidator, ValidationResult,
};

fn valid_manifest(id: &str) -> ModManifest {
    valid_manifest_with_deps(id, &[])
}

fn valid_manifest_with_deps(id: &str, deps: &[&str]) -> ModManifest {
    ModManifest {
        schema_version: 1,
        info: ModInfo {
            id: id.to_owned(),
            name: "Test Mod".to_owned(),
            version: "0.1.0".to_owned(),
            description: "A test mod.".to_owned(),
            author: "Tester".to_owned(),
            dependencies: deps.iter().map(|s| s.to_string()).collect(),
            game_version_min: "0.1.0".to_owned(),
        },
        licensing: ModLicensing {
            spdx_license: "CC-BY-4.0".to_owned(),
            free_distribution_url: String::new(),
        },
    }
}

fn validator_no_installed() -> ModValidator<'static> {
    ModValidator::new("0.1.0", &[])
}

fn errors(result: &ValidationResult) -> Vec<String> {
    result.errors.iter().map(|e| e.message.clone()).collect()
}

fn warnings(result: &ValidationResult) -> Vec<String> {
    result.warnings.iter().map(|w| w.message.clone()).collect()
}

/// What the caller would find for a root directory at `root`.
fn facts(root: &str, is_dir: bool, has_manifest: bool) -> ModRootFacts {
    ModRootFacts {
        root_display: root.to_string(),
        root_is_dir: is_dir,
        manifest_path_display: format!("{root}/mod.toml"),
        manifest_exists: has_manifest,
        dir_name: root.rsplit('/').next().map(|s| s.to_string()),
    }
}

#[test]
fn semver_valid() {
    assert_eq!(parse_semver("1.2.3"), Some((1, 2, 3)));
    assert_eq!(parse_semver("0.0.0"), Some((0, 0, 0)));
    assert_eq!(parse_semver("10.20.30"), Some((10, 20, 30)));
}

#[test]
fn semver_invalid() {
    assert!(parse_semver("1.2").is_none());
    assert!(parse_semver("1.2.3.4").is_none());
    assert!(parse_semver("abc").is_none());
    assert!(parse_semver("").is_none());
    assert!(parse_semver("1.2.x").is_none());
}

#[test]
fn semver_takes_plain_digits_only() {
    assert!(parse_semver("+1.2.3").is_none());
    assert!(parse_semver("1.+2.3").is_none());
    assert_eq!(parse_semver("01.002.0003"), Some((1, 2, 3)));
    assert_eq!(
        parse_semver("18446744073709551615.0.0"),
        Some((u64::MAX, 0, 0))
    );
    assert!(parse_semver("18446744073709551616.0.0").is_none());
    assert!(parse_semver("1..3").is_none());
    assert!(parse_semver("-1.2.3").is_none());
    assert!(parse_semver(" 1.2.3").is_none());
}

#[test]
fn valid_manifest_passes() {
    let m = valid_manifest("author.my-mod");
    let result = validator_no_installed().validate(&m, None);
    assert!(result.is_valid(), "errors: {:?}", errors(&result));
    assert!(result.warnings.is_empty(), "warnings: {:?}", warnings(&result));
}

#[test]
fn wrong_schema_version_is_error() {
    let mut m = valid_manifest("author.my-mod");
    m.schema_version = 2;
    let result = validator_no_installed().validate(&m, None);
    assert!(!result.is_valid());
    assert!(result.errors[0].message.contains("schema_version 2"));
}

#[test]
fn empty_id_is_error() {
    let mut m = valid_manifest("author.my-mod");
    m.info.id = String::new();
    let result = validator_no_installed().validate(&m, None);
    assert!(!result.is_valid());
    let msgs: Vec<&str> = result.errors.iter().map(|e| e.message.as_str()).collect();
    assert!(msgs.iter().any(|m| m.contains("mod.id")));
}

#[test]
fn empty_name_is_error() {
    let mut m = valid_manifest("author.my-mod");
    m.info.name = String::new();
    let result = validator_no_installed().validate(&m, None);
    assert!(!result.is_valid());
    assert!(result.errors.iter().any(|e| e.message.contains("mod.name")));
}

#[test]
fn empty_spdx_license_is_error() {
    let mut m = valid_manifest("author.my-mod");
    m.licensing.spdx_license = String::new();
    let result = validator_no_installed().validate(&m, None);
    assert!(!result.is_valid());
    assert!(result
        .errors
        .iter()
        .any(|e| e.message.contains("spdx_license")));
}

#[test]
fn whitespace_only_field_counts_as_empty() {
    let mut m = valid_manifest("author.my-mod");
    m.info.name = " \t ".to_owned();
    let result = validator_no_installed().validate(&m, None);
    assert_eq!(errors(&result), vec!["required field `mod.name` is empty"]);
}

#[test]
fn id_without_dot_is_error() {
    let mut m = valid_manifest("nodotmod");
    m.info.id = "nodotmod".to_owned();
    let result = validator_no_installed().validate(&m, None);
    assert!(!result.is_valid());
    assert!(result
        .errors
        .iter()
        .any(|e| e.message.contains("dot-notation")));
}

#[test]
fn id_with_leading_dot_is_error() {
    let mut m = valid_manifest(".author.mod");
    m.info.id = ".author.mod".to_owned();
    let result = validator_no_installed().validate(&m, None);
    assert!(!result.is_valid());
}

#[test]
fn id_with_hyphen_and_dot_is_valid() {
    let m = valid_manifest("my-author.my-mod");
    let result = validator_no_installed().validate(&m, None);
    assert!(result.is_valid(), "errors: {:?}", errors(&result));
}

#[test]
fn bad_version_string_is_error() {
    let mut m = valid_manifest("author.my-mod");
    m.info.version = "1.0".to_owned();
    let result = validator_no_installed().validate(&m, None);
    assert!(!result.is_valid());
    assert!(result
        .errors
        .iter()
        .any(|e| e.message.contains("mod.version")));
}

#[test]
fn bad_game_version_min_is_error() {
    let mut m = valid_manifest("author.my-mod");
    m.info.game_version_min = "not-semver".to_owned();
    let result = validator_no_installed().validate(&m, None);
    assert!(!result.is_valid());
    assert!(result
        .errors
        .iter()
        .any(|e| e.message.contains("game_version_min")));
}

#[test]
fn mod_targeting_future_game_version_is_warning_not_error() {
    let mut m = valid_manifest("author.my-mod");
    m.info.game_version_min = "99.0.0".to_owned();
    let validator = ModValidator::new("0.1.0", &[]);
    let result = validator.validate(&m, None);
    assert!(result.is_valid(), "errors: {:?}", errors(&result));
    assert!(
        result.warnings.iter().any(|w| w.message.contains("99.0.0")),
        "expected version-compatibility warning"
    );
}

#[test]
fn mod_targeting_same_game_version_has_no_warning() {
    let m = valid_manifest("author.my-mod");
    let validator = ModValidator::new("0.1.0", &[]);
    let result = validator.validate(&m, None);
    assert!(result.is_valid());
    assert!(result.warnings.is_empty());
}

#[test]
fn missing_mod_root_dir_is_error() {
    let m = valid_manifest("author.my-mod");
    let root = facts(
        "/tmp/definitely_does_not_exist_abc123/author.my-mod",
        false,
        false,
    );
    let result = validator_no_installed().validate(&m, Some(&root));
    assert!(!result.is_valid());
    assert!(result
        .errors
        .iter()
        .any(|e| e.message.contains("does not exist")));
}

#[test]
fn dir_exists_but_no_mod_toml_is_error() {
    let m = valid_manifest("author.my-mod");
    let root = facts("/tmp/x/author.my-mod", true, false);
    let result = validator_no_installed().validate(&m, Some(&root));
    assert!(!result.is_valid());
    assert!(result
        .errors
        .iter()
        .any(|e| e.message.contains("mod.toml not found")));
}

#[test]
fn valid_mod_dir_with_mod_toml_passes_entry_point_check() {
    let m = valid_manifest("author.my-mod");
    let root = facts("/tmp/x/author.my-mod", true, true);
    let result = validator_no_installed().validate(&m, Some(&root));
    assert!(result.is_valid(), "errors: {:?}", errors(&result));
}

#[test]
fn mod_dir_name_mismatch_is_error() {
    let m = valid_manifest("author.my-mod");
    let root = facts("/tmp/x/wrong.dir-name", true, true);
    let result = validator_no_installed().validate(&m, Some(&root));
    assert!(!result.is_valid());
    assert!(result.errors.iter().any(
        |e| e.message.contains("wrong.dir-name") && e.message.contains("author.my-mod")
    ));
}

#[test]
fn satisfied_dependency_passes() {
    let m = valid_manifest_with_deps("author.mod", &["base.core"]);
    let validator = ModValidator::new("0.1.0", &["base.core"]);
    let result = validator.validate(&m, None);
    assert!(result.is_valid(), "errors: {:?}", errors(&result));
}

#[test]
fn missing_dependency_is_error() {
    let m = valid_manifest_with_deps("author.mod", &["base.core"]);
    let validator = ModValidator::new("0.1.0", &[]);
    let result = validator.validate(&m, None);
    assert!(!result.is_valid());
    assert!(result
        .errors
        .iter()
        .any(|e| e.message.contains("base.core")));
}

#[test]
fn multiple_missing_deps_each_produce_an_error() {
    let m = valid_manifest_with_deps("author.mod", &["a.dep", "b.dep", "c.dep"]);
    let validator = ModValidator::new("0.1.0", &["a.dep"]);
    let result = validator.validate(&m, None);
    assert!(!result.is_valid());
    assert_eq!(result.errors.len(), 2);
    let msgs: String = result.errors.iter().map(|e| e.message.clone()).collect();
    assert!(msgs.contains("b.dep"));
    assert!(msgs.contains("c.dep"));
}

#[test]
fn no_dependencies_always_passes_dep_check() {
    let m = valid_manifest("author.standalone");
    let validator = ModValidator::new("0.1.0", &[]);
    let result = validator.validate(&m, None);
    assert!(result.is_valid(), "errors: {:?}", errors(&result));
}

#[test]
fn multiple_errors_accumulate() {
    let mut m = valid_manifest("author.my-mod");
    m.schema_version = 99;
    m.info.name = String::new();
    m.info.version = "bad".to_owned();
    let result = validator_no_installed().validate(&m, None);
    assert!(!result.is_valid());
    assert!(
        result.errors.len() >= 3,
        "expected at least 3 errors, got {:?}",
        errors(&result)
    );
}

#[test]
fn is_valid_reflects_error_list() {
    let good = ValidationResult::default();
    assert!(good.is_valid());
    let mut bad = ValidationResult::default();
    bad.push_error("something broke".to_string());
    assert!(!bad.is_valid());
}

#[test]
fn error_and_warning_text_carry_their_labels() {
    let mut r = ValidationResult::default();
    r.push_error("bad".to_string());
    r.push_warning("odd".to_string());
    assert_eq!(r.errors[0].to_text(), "error: bad");
    assert_eq!(r.warnings[0].to_text(), "warning: odd");
}

#[test]
fn id_with_underscore_is_error() {
    let m = valid_manifest("my_author.my_mod");
    let result = validator_no_installed().validate(&m, None);
    assert!(!result.is_valid());
    assert!(result
        .errors
        .iter()
        .any(|e| e.message.contains("dot-notation")));
}
