use apeiron_cipher::mod_manifest::{
    select_installable, topological_sort, InstalledMods, ModInfo, ModLicensing, ModManifest,
};

fn make_manifest(id: &str, deps: &[&str]) -> ModManifest {
    ModManifest {
        schema_version: 1,
        info: ModInfo {
            id: id.to_owned(),
            name: id.to_owned(),
            version: "0.1.0".to_owned(),
            description: String::new(),
            author: String::new(),
            dependencies: deps.iter().map(|s| s.to_string()).collect(),
            game_version_min: "0.1.0".to_owned(),
        },
        licensing: ModLicensing {
            spdx_license: "CC-BY-4.0".to_owned(),
            free_distribution_url: String::new(),
        },
    }
}

fn keyed(id: &str, deps: &[&str]) -> (String, ModManifest) {
    (id.to_owned(), make_manifest(id, deps))
}

fn installed_from(mods: Vec<ModManifest>) -> InstalledMods {
    let mut r = InstalledMods::default();
    r.load(mods);
    r
}

fn ids(mods: &[ModManifest]) -> Vec<String> {
    mods.iter().map(|m| m.info.id.clone()).collect()
}

#[test]
fn topological_sort_simple_dependency() {
    let map = vec![keyed("b.mod", &["a.dep"]), keyed("a.dep", &[])];
    let sorted = topological_sort(map).expect("no cycle");
    let ids = ids(&sorted);
    let pos_a = ids.iter().position(|id| id == "a.dep").unwrap();
    let pos_b = ids.iter().position(|id| id == "b.mod").unwrap();
    assert!(pos_a < pos_b, "dependency must come before dependent");
}

#[test]
fn topological_sort_diamond_dependency() {
    let map = vec![
        keyed("d.mod", &["b.mod", "c.mod"]),
        keyed("c.mod", &["a.base"]),
        keyed("b.mod", &["a.base"]),
        keyed("a.base", &[]),
    ];
    let sorted = topological_sort(map).expect("no cycle");
    let ids = ids(&sorted);
    let pos = |id: &str| ids.iter().position(|x| x == id).unwrap();
    assert!(pos("a.base") < pos("b.mod"), "a.base before b.mod");
    assert!(pos("a.base") < pos("c.mod"), "a.base before c.mod");
    assert!(pos("b.mod") < pos("d.mod"), "b.mod before d.mod");
    assert!(pos("c.mod") < pos("d.mod"), "c.mod before d.mod");
    assert_eq!(ids, vec!["a.base", "b.mod", "c.mod", "d.mod"]);
}

#[test]
fn topological_sort_cycle_detected() {
    let map = vec![keyed("x.mod", &["y.mod"]), keyed("y.mod", &["x.mod"])];
    let result = topological_sort(map);
    assert!(result.is_err(), "cycle should return Err");
    let cycle = result.unwrap_err();
    assert!(cycle.contains(&"x.mod".to_owned()));
    assert!(cycle.contains(&"y.mod".to_owned()));
}

#[test]
fn topological_sort_deterministic_within_level() {
    let map = vec![keyed("z.mod", &[]), keyed("a.mod", &[]), keyed("m.mod", &[])];
    let sorted = topological_sort(map).expect("no cycle");
    assert_eq!(ids(&sorted), vec!["a.mod", "m.mod", "z.mod"]);
}

#[test]
fn topological_sort_reports_dependents_of_missing_mods_sorted() {
    let map = vec![
        keyed("c.top", &["b.mid"]),
        keyed("b.mid", &["gone.dep"]),
        keyed("a.ok", &[]),
    ];
    let err = topological_sort(map).unwrap_err();
    assert_eq!(err, vec!["b.mid".to_string(), "c.top".to_string()]);
}

#[test]
fn topological_sort_of_nothing_is_empty() {
    assert!(topological_sort(Vec::new()).unwrap().is_empty());
}

#[test]
fn select_installable_drops_mismatched_ids_and_unmet_dependencies() {
    let raw = vec![
        ("b.mod".to_string(), make_manifest("b.mod", &["a.base"])),
        ("wrong.dir".to_string(), make_manifest("x.mod", &[])),
        ("a.base".to_string(), make_manifest("a.base", &[])),
        ("c.mod".to_string(), make_manifest("c.mod", &["x.mod"])),
    ];
    assert_eq!(ids(&select_installable(raw)), vec!["a.base", "b.mod"]);
}

#[test]
fn select_installable_of_a_cycle_is_empty() {
    let raw = vec![keyed("x.mod", &["y.mod"]), keyed("y.mod", &["x.mod"]), keyed("a.mod", &[])];
    assert!(select_installable(raw).is_empty());
}

#[test]
fn installed_mods_lookup() {
    let installed = installed_from(vec![make_manifest("a.mod", &[])]);
    assert!(installed.is_installed("a.mod"));
    assert!(!installed.is_installed("missing.mod"));
    assert_eq!(installed.get("a.mod").unwrap().info.id, "a.mod");
    assert!(installed.get("missing.mod").is_none());
}

#[test]
fn all_mods_active_by_default() {
    let installed = installed_from(vec![
        make_manifest("a.mod", &[]),
        make_manifest("b.mod", &[]),
    ]);
    let loaded = installed.get_loaded_mods();
    assert_eq!(loaded.len(), 2, "both mods should be active");
}

#[test]
fn is_active_reflects_default_state() {
    let installed = installed_from(vec![make_manifest("a.mod", &[])]);
    assert!(installed.is_active("a.mod"));
    assert!(!installed.is_active("not-installed.mod"));
}

#[test]
fn deactivate_removes_from_loaded_mods() {
    let mut installed = installed_from(vec![
        make_manifest("a.mod", &[]),
        make_manifest("b.mod", &[]),
    ]);
    let ok = installed.deactivate("a.mod");
    assert!(ok, "deactivate should return true for an installed mod");
    assert!(!installed.is_active("a.mod"));
    let loaded_ids: Vec<&str> = installed
        .get_loaded_mods()
        .iter()
        .map(|m| m.info.id.as_str())
        .collect();
    assert_eq!(loaded_ids, vec!["b.mod"], "only b.mod should remain loaded");
    let all_ids: Vec<&str> = installed
        .iter_all()
        .iter()
        .map(|m| m.info.id.as_str())
        .collect();
    assert!(all_ids.contains(&"a.mod"), "a.mod still installed");
}

#[test]
fn activate_restores_mod_to_loaded_list() {
    let mut installed = installed_from(vec![
        make_manifest("a.mod", &[]),
        make_manifest("b.mod", &[]),
    ]);
    installed.deactivate("a.mod");
    assert!(!installed.is_active("a.mod"));
    let ok = installed.activate("a.mod");
    assert!(ok, "activate should return true for an installed mod");
    assert!(installed.is_active("a.mod"));
    assert_eq!(installed.get_loaded_mods().len(), 2, "both mods active again");
}

#[test]
fn activate_deactivate_unknown_mod_returns_false() {
    let mut installed = InstalledMods::default();
    assert!(!installed.activate("ghost.mod"));
    assert!(!installed.deactivate("ghost.mod"));
}

#[test]
fn deactivate_is_idempotent() {
    let mut installed = installed_from(vec![make_manifest("a.mod", &[])]);
    installed.deactivate("a.mod");
    installed.deactivate("a.mod");
    assert!(!installed.is_active("a.mod"));
}

#[test]
fn activate_is_idempotent() {
    let mut installed = installed_from(vec![make_manifest("a.mod", &[])]);
    installed.activate("a.mod");
    installed.activate("a.mod");
    assert!(installed.is_active("a.mod"));
}

#[test]
fn loaded_mods_order_preserved_after_deactivation() {
    let map = vec![
        keyed("a.base", &[]),
        keyed("b.mid", &["a.base"]),
        keyed("c.top", &["b.mid"]),
    ];
    let sorted = topological_sort(map).expect("no cycle");
    let mut installed = installed_from(sorted);
    installed.deactivate("b.mid");
    let loaded_ids: Vec<&str> = installed
        .get_loaded_mods()
        .iter()
        .map(|m| m.info.id.as_str())
        .collect();
    assert_eq!(loaded_ids, vec!["a.base", "c.top"]);
}

#[test]
fn reload_preserves_inactive_state() {
    let mut installed = installed_from(vec![
        make_manifest("a.mod", &[]),
        make_manifest("b.mod", &[]),
    ]);
    installed.deactivate("a.mod");
    installed.load(vec![
        make_manifest("a.mod", &[]),
        make_manifest("b.mod", &[]),
    ]);
    assert!(
        !installed.is_active("a.mod"),
        "deactivated mod stays inactive after reload"
    );
    assert!(installed.is_active("b.mod"), "b.mod still active after reload");
}

#[test]
fn reload_cleans_stale_inactive_entries() {
    let mut installed = installed_from(vec![
        make_manifest("a.mod", &[]),
        make_manifest("b.mod", &[]),
    ]);
    installed.deactivate("b.mod");
    installed.load(vec![make_manifest("a.mod", &[])]);
    assert!(installed.is_active("a.mod"));
    assert!(!installed.is_installed("b.mod"));
}

#[test]
fn reload_forgets_deactivation_of_removed_then_returning_mod() {
    let mut installed = installed_from(vec![make_manifest("b.mod", &[])]);
    installed.deactivate("b.mod");
    installed.load(Vec::new());
    installed.load(vec![make_manifest("b.mod", &[])]);
    assert!(installed.is_active("b.mod"));
}

#[test]
fn missing_dependency_drops_only_its_dependents() {
    let raw = vec![
        keyed("a.top", &["b.mid"]),
        keyed("b.mid", &["c.missing"]),
        keyed("d.solo", &[]),
    ];
    assert_eq!(ids(&select_installable(raw)), vec!["d.solo"]);
}

#[test]
fn sort_succeeds_whenever_some_dependency_order_exists() {
    // e.mod, c.mod, a.mod, d.mod, b.mod lists every mod after its
    // dependencies, so the sort must succeed, in its own order.
    let map = vec![
        keyed("a.mod", &["c.mod"]),
        keyed("b.mod", &["d.mod", "a.mod"]),
        keyed("c.mod", &["e.mod"]),
        keyed("d.mod", &[]),
        keyed("e.mod", &[]),
    ];
    let sorted = topological_sort(map).expect("a dependency order exists");
    assert_eq!(ids(&sorted), vec!["d.mod", "e.mod", "c.mod", "a.mod", "b.mod"]);
}
