use apeiron_cipher::mod_asset_validator::{
    validate_biomes_file, validate_classification_file, validate_combinations_file,
    validate_language_file, validate_language_race_crossref, validate_race_file, FloatNum,
    TomlValue,
};

fn num(x: f64) -> FloatNum {
    FloatNum {
        bits: x.to_bits(),
        text: format!("{x}"),
    }
}

/// The document model of a parsed TOML value.
fn model(v: &toml::Value) -> TomlValue {
    match v {
        toml::Value::String(s) => TomlValue::String(s.clone()),
        toml::Value::Integer(i) => TomlValue::Integer {
            value: *i,
            as_float: num(*i as f64),
        },
        toml::Value::Float(f) => TomlValue::Float(num(*f)),
        toml::Value::Boolean(b) => TomlValue::Boolean(*b),
        toml::Value::Datetime(d) => TomlValue::Datetime(d.to_string()),
        toml::Value::Array(a) => TomlValue::Array(a.iter().map(model).collect()),
        toml::Value::Table(t) => TomlValue::Table(
            t.iter().map(|(k, v)| (k.clone(), model(v))).collect(),
        ),
    }
}

/// Parses `text` as the game does before validating it.
fn doc(text: &str) -> Result<TomlValue, String> {
    match toml::from_str::<toml::Value>(text) {
        Ok(v) => Ok(model(&v)),
        Err(e) => Err(e.to_string()),
    }
}
// ── classification ────────────────────────────────────────────────

#[test]
fn classification_valid_file_passes() {
    let toml = r#"
schema_version = 1

[[classification]]
name         = "ferrite"
display_name = "Ferrite"

[classification.density]
min = 0.45
max = 0.57
"#;
    let r = validate_classification_file("test.toml", &doc(toml));
    assert!(r.errors.is_empty(), "{:?}", r.errors);
    assert!(r.warnings.is_empty(), "{:?}", r.warnings);
}

#[test]
fn classification_missing_schema_version_is_error() {
    let toml = r#"
[[classification]]
name         = "ferrite"
display_name = "Ferrite"
"#;
    let r = validate_classification_file("test.toml", &doc(toml));
    assert!(
        r.errors
            .iter()
            .any(|e| e.message.contains("schema_version"))
    );
}

#[test]
fn classification_wrong_schema_version_is_error() {
    let toml = r#"
schema_version = 2
[[classification]]
name         = "ferrite"
display_name = "Ferrite"
"#;
    let r = validate_classification_file("test.toml", &doc(toml));
    assert!(
        r.errors
            .iter()
            .any(|e| e.message.contains("unsupported schema_version"))
    );
}

#[test]
fn classification_duplicate_name_is_error() {
    let toml = r#"
schema_version = 1
[[classification]]
name         = "ferrite"
display_name = "Ferrite"
[[classification]]
name         = "ferrite"
display_name = "Ferrite Again"
"#;
    let r = validate_classification_file("test.toml", &doc(toml));
    assert!(
        r.errors
            .iter()
            .any(|e| e.message.contains("duplicate classification name"))
    );
}

#[test]
fn classification_range_min_equals_max_is_warning() {
    let toml = r#"
schema_version = 1
[[classification]]
name         = "weird"
display_name = "Weird"
[classification.density]
min = 0.5
max = 0.5
"#;
    let r = validate_classification_file("test.toml", &doc(toml));
    assert!(r.warnings.iter().any(|w| w.message.contains("never match")));
}

#[test]
fn classification_range_out_of_bounds_is_error() {
    let toml = r#"
schema_version = 1
[[classification]]
name         = "overload"
display_name = "Overload"
[classification.density]
min = 0.1
max = 1.5
"#;
    let r = validate_classification_file("test.toml", &doc(toml));
    assert!(
        r.errors
            .iter()
            .any(|e| e.message.contains("outside valid range"))
    );
}

#[test]
fn classification_overlapping_density_ranges_warns() {
    let toml = r#"
schema_version = 1
[[classification]]
name         = "alpha"
display_name = "Alpha"
[classification.density]
min = 0.1
max = 0.5

[[classification]]
name         = "beta"
display_name = "Beta"
[classification.density]
min = 0.4
max = 0.8
"#;
    let r = validate_classification_file("test.toml", &doc(toml));
    assert!(r.warnings.iter().any(|w| w.message.contains("overlap")));
}

// ── combinations ─────────────────────────────────────────────────

#[test]
fn combinations_valid_file_passes() {
    let toml = r#"
schema_version = 1
[[rules]]
material_seed_a = 9002
material_seed_b = 1001
density            = { type = "Catalyze", multiplier = 1.2 }
thermal_resistance = { type = "Max" }
reactivity         = { type = "Min" }
conductivity       = { type = "Max" }
toxicity           = { type = "Blend", weight_a = 0.7, weight_b = 0.3 }
"#;
    let r = validate_combinations_file("test.toml", &doc(toml));
    assert!(r.errors.is_empty(), "{:?}", r.errors);
    assert!(r.warnings.is_empty(), "{:?}", r.warnings);
}

#[test]
fn combinations_self_combination_is_error() {
    let toml = r#"
schema_version = 1
[[rules]]
material_seed_a = 1001
material_seed_b = 1001
"#;
    let r = validate_combinations_file("test.toml", &doc(toml));
    assert!(
        r.errors
            .iter()
            .any(|e| e.message.contains("self-combination"))
    );
}

#[test]
fn combinations_duplicate_pair_is_error() {
    let toml = r#"
schema_version = 1
[[rules]]
material_seed_a = 9002
material_seed_b = 1001
[[rules]]
material_seed_a = 1001
material_seed_b = 9002
"#;
    let r = validate_combinations_file("test.toml", &doc(toml));
    assert!(
        r.errors
            .iter()
            .any(|e| e.message.contains("duplicate rule"))
    );
}

#[test]
fn combinations_catalyze_zero_multiplier_is_error() {
    let toml = r#"
schema_version = 1
[[rules]]
material_seed_a = 9002
material_seed_b = 1001
density = { type = "Catalyze", multiplier = 0.0 }
"#;
    let r = validate_combinations_file("test.toml", &doc(toml));
    assert!(r.errors.iter().any(|e| e.message.contains("multiplier")));
}

#[test]
fn combinations_catalyze_large_multiplier_warns() {
    let toml = r#"
schema_version = 1
[[rules]]
material_seed_a = 9002
material_seed_b = 1001
density = { type = "Catalyze", multiplier = 15.0 }
"#;
    let r = validate_combinations_file("test.toml", &doc(toml));
    assert!(
        r.warnings
            .iter()
            .any(|w| w.message.contains("unusually large"))
    );
}

#[test]
fn combinations_blend_zero_weight_is_error() {
    let toml = r#"
schema_version = 1
[[rules]]
material_seed_a = 9002
material_seed_b = 1001
toxicity = { type = "Blend", weight_a = 0.0, weight_b = 1.0 }
"#;
    let r = validate_combinations_file("test.toml", &doc(toml));
    assert!(r.errors.iter().any(|e| e.message.contains("weight_a")));
}

// ── biomes ────────────────────────────────────────────────────────

#[test]
fn biomes_valid_file_passes() {
    let toml = r#"
schema_version = 1
[[biomes]]
biome_type      = "crystal_lichen_fields"
temperature_min = 0.0
temperature_max = 0.25
moisture_min    = 0.5
moisture_max    = 0.85
ground_color    = [0.41, 0.63, 0.72]
density_modifier = 0.85

[[biomes.material_palette]]
material_seed    = 9002
selection_weight = 4.0
"#;
    let r = validate_biomes_file("test.toml", &doc(toml));
    assert!(r.errors.is_empty(), "{:?}", r.errors);
    assert!(r.warnings.is_empty(), "{:?}", r.warnings);
}

#[test]
fn biomes_temperature_min_exceeds_max_is_error() {
    let toml = r#"
schema_version = 1
[[biomes]]
biome_type      = "bad_biome"
temperature_min = 0.9
temperature_max = 0.1
moisture_min    = 0.0
moisture_max    = 1.0
"#;
    let r = validate_biomes_file("test.toml", &doc(toml));
    assert!(
        r.errors
            .iter()
            .any(|e| e.message.contains("temperature_min"))
    );
}

#[test]
fn biomes_moisture_min_equals_max_is_error() {
    let toml = r#"
schema_version = 1
[[biomes]]
biome_type      = "flat_biome"
temperature_min = 0.0
temperature_max = 1.0
moisture_min    = 0.5
moisture_max    = 0.5
"#;
    let r = validate_biomes_file("test.toml", &doc(toml));
    assert!(r.errors.iter().any(|e| e.message.contains("moisture_min")));
}

#[test]
fn biomes_negative_density_modifier_is_error() {
    let toml = r#"
schema_version = 1
[[biomes]]
biome_type       = "neg_density"
temperature_min  = 0.0
temperature_max  = 1.0
moisture_min     = 0.0
moisture_max     = 1.0
density_modifier = -0.5
"#;
    let r = validate_biomes_file("test.toml", &doc(toml));
    assert!(
        r.errors
            .iter()
            .any(|e| e.message.contains("density_modifier"))
    );
}

#[test]
fn biomes_ground_color_out_of_range_is_error() {
    let toml = r#"
schema_version = 1
[[biomes]]
biome_type      = "colorful_biome"
temperature_min = 0.0
temperature_max = 1.0
moisture_min    = 0.0
moisture_max    = 1.0
ground_color    = [0.5, 1.5, 0.5]
"#;
    let r = validate_biomes_file("test.toml", &doc(toml));
    assert!(r.errors.iter().any(|e| e.message.contains("ground_color")));
}

#[test]
fn biomes_palette_zero_weight_is_error() {
    let toml = r#"
schema_version = 1
[[biomes]]
biome_type      = "light_biome"
temperature_min = 0.0
temperature_max = 1.0
moisture_min    = 0.0
moisture_max    = 1.0

[[biomes.material_palette]]
material_seed    = 1001
selection_weight = 0.0
"#;
    let r = validate_biomes_file("test.toml", &doc(toml));
    assert!(
        r.errors
            .iter()
            .any(|e| e.message.contains("selection_weight"))
    );
}

// ── language ──────────────────────────────────────────────────────

#[test]
fn language_valid_file_passes() {
    let toml = r#"
schema_version = 1
[language]
id               = "deep_sign"
display_name     = "Deep-Sign"
race_id          = "veth"
modality         = "gestural"
strangeness      = 0.82
acquisition_rate = 0.65
"#;
    let r = validate_language_file("test.toml", &doc(toml));
    assert!(r.errors.is_empty(), "{:?}", r.errors);
    assert!(r.warnings.is_empty(), "{:?}", r.warnings);
}

#[test]
fn language_missing_race_id_is_error() {
    let toml = r#"
schema_version = 1
[language]
id               = "deep_sign"
display_name     = "Deep-Sign"
modality         = "gestural"
strangeness      = 0.82
acquisition_rate = 0.65
"#;
    let r = validate_language_file("test.toml", &doc(toml));
    assert!(r.errors.iter().any(|e| e.message.contains("race_id")));
}

#[test]
fn language_strangeness_out_of_range_is_error() {
    let toml = r#"
schema_version = 1
[language]
id               = "weird"
display_name     = "Weird"
race_id          = "aliens"
modality         = "vocal"
strangeness      = 1.5
acquisition_rate = 1.0
"#;
    let r = validate_language_file("test.toml", &doc(toml));
    assert!(r.errors.iter().any(|e| e.message.contains("strangeness")));
}

#[test]
fn language_zero_acquisition_rate_is_error() {
    let toml = r#"
schema_version = 1
[language]
id               = "silent"
display_name     = "Silent"
race_id          = "ghosts"
modality         = "written"
strangeness      = 0.5
acquisition_rate = 0.0
"#;
    let r = validate_language_file("test.toml", &doc(toml));
    assert!(
        r.errors
            .iter()
            .any(|e| e.message.contains("acquisition_rate"))
    );
}

// ── race ──────────────────────────────────────────────────────────

#[test]
fn race_valid_file_passes() {
    let toml = r#"
schema_version = 1
[race]
id           = "veth"
display_name = "Veth"
language_id  = "deep_sign"
strangeness  = 0.78
"#;
    let r = validate_race_file("test.toml", &doc(toml));
    assert!(r.errors.is_empty(), "{:?}", r.errors);
    assert!(r.warnings.is_empty(), "{:?}", r.warnings);
}

#[test]
fn race_missing_language_id_is_error() {
    let toml = r#"
schema_version = 1
[race]
id           = "veth"
display_name = "Veth"
strangeness  = 0.78
"#;
    let r = validate_race_file("test.toml", &doc(toml));
    assert!(r.errors.iter().any(|e| e.message.contains("language_id")));
}

#[test]
fn race_strangeness_below_zero_is_error() {
    let toml = r#"
schema_version = 1
[race]
id           = "friendly"
display_name = "Very Friendly"
language_id  = "common"
strangeness  = -0.1
"#;
    let r = validate_race_file("test.toml", &doc(toml));
    assert!(r.errors.iter().any(|e| e.message.contains("strangeness")));
}

// ── crossref ─────────────────────────────────────────────────────

#[test]
fn crossref_matching_ids_no_warning() {
    let lang = r#"
schema_version = 1
[language]
id               = "deep_sign"
display_name     = "Deep-Sign"
race_id          = "veth"
modality         = "gestural"
strangeness      = 0.82
acquisition_rate = 0.65
"#;
    let race = r#"
schema_version = 1
[race]
id           = "veth"
display_name = "Veth"
language_id  = "deep_sign"
strangeness  = 0.78
"#;
    let r = validate_language_race_crossref("lang.toml", &doc(lang), "race.toml", &doc(race));
    assert!(r.warnings.is_empty(), "{:?}", r.warnings);
}

#[test]
fn crossref_mismatched_race_id_warns() {
    let lang = r#"
schema_version = 1
[language]
id               = "deep_sign"
display_name     = "Deep-Sign"
race_id          = "wrong_race"
modality         = "gestural"
strangeness      = 0.82
acquisition_rate = 0.65
"#;
    let race = r#"
schema_version = 1
[race]
id           = "veth"
display_name = "Veth"
language_id  = "deep_sign"
strangeness  = 0.78
"#;
    let r = validate_language_race_crossref("lang.toml", &doc(lang), "race.toml", &doc(race));
    assert!(r.warnings.iter().any(|w| w.message.contains("race_id")));
}

#[test]
fn crossref_mismatched_language_id_warns() {
    let lang = r#"
schema_version = 1
[language]
id               = "deep_sign"
display_name     = "Deep-Sign"
race_id          = "veth"
modality         = "gestural"
strangeness      = 0.82
acquisition_rate = 0.65
"#;
    let race = r#"
schema_version = 1
[race]
id           = "veth"
display_name = "Veth"
language_id  = "wrong_lang"
strangeness  = 0.78
"#;
    let r = validate_language_race_crossref("lang.toml", &doc(lang), "race.toml", &doc(race));
    assert!(r.warnings.iter().any(|w| w.message.contains("language_id")));
}

fn error_texts(r: &apeiron_cipher::mod_asset_validator::ValidationReport) -> Vec<String> {
    r.errors.iter().map(|e| e.to_text()).collect()
}

fn warning_texts(r: &apeiron_cipher::mod_asset_validator::ValidationReport) -> Vec<String> {
    r.warnings.iter().map(|w| w.to_text()).collect()
}

#[test]
fn unparsable_document_reports_the_parse_error_only() {
    let r = validate_classification_file("bad.toml", &Err("expected `=`".to_string()));
    assert_eq!(error_texts(&r), vec!["[ERROR] bad.toml: TOML parse error: expected `=`"]);
    assert!(r.warnings.is_empty());
    assert!(!r.is_ok());
}

#[test]
fn schema_version_messages_are_exact() {
    let r = validate_race_file("r.toml", &doc("[race]\nid = \"a\"\n"));
    assert_eq!(
        r.errors[0].message,
        "missing required field 'schema_version' (must be the first field)"
    );
    let r = validate_race_file("r.toml", &doc("schema_version = 3\n"));
    assert_eq!(
        r.errors[0].message,
        "unsupported schema_version 3; only version 1 is supported"
    );
    let r = validate_race_file("r.toml", &doc("schema_version = \"1\"\n"));
    assert_eq!(
        r.errors[0].message,
        "field 'schema_version' must be an integer, got: \"string\""
    );
}

#[test]
fn classification_range_messages_are_exact() {
    let toml = r#"
schema_version = 1
[[classification]]
name         = "overload"
display_name = "Overload"
[classification.density]
min = 0.7
max = 1.5
[[classification]]
name         = "flat"
display_name = "Flat"
[classification.toxicity]
min = 0.5
max = 0.5
"#;
    let r = validate_classification_file("c.toml", &doc(toml));
    assert_eq!(
        error_texts(&r),
        vec!["[ERROR] c.toml: field 'max' = 1.5 is outside valid range [0, 1]"]
    );
    assert_eq!(
        warning_texts(&r),
        vec![
            "[WARN]  c.toml: property range 'classification[1].toxicity' has min (0.5) >= max (0.5); the range will never match any material"
        ]
    );
}

#[test]
fn classification_overlap_message_is_exact() {
    let toml = r#"
schema_version = 1
[[classification]]
name         = "alpha"
display_name = "Alpha"
[classification.density]
min = 0.1
max = 0.5
[[classification]]
name         = "beta"
display_name = "Beta"
[classification.density]
min = 0.4
max = 0.8
[[classification]]
name         = "gamma"
display_name = "Gamma"
[classification.density]
min = 0.8
max = 0.9
"#;
    let r = validate_classification_file("c.toml", &doc(toml));
    assert_eq!(
        r.warnings.iter().map(|w| w.message.clone()).collect::<Vec<_>>(),
        vec![
            "density ranges for 'alpha' [0.1, 0.5] and 'beta' [0.4, 0.8] overlap — first-match classification ordering may be non-deterministic"
        ]
    );
    assert!(r.errors.is_empty());
}

#[test]
fn integers_are_accepted_where_numbers_are_expected() {
    let toml = r#"
schema_version = 1
[race]
id           = "veth"
display_name = "Veth"
language_id  = "deep_sign"
strangeness  = 1
"#;
    let r = validate_race_file("r.toml", &doc(toml));
    assert!(r.errors.is_empty(), "{:?}", r.errors);
}
