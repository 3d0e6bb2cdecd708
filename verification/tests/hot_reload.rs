use bevy_book::hot_reload::{check_mod, manifest_paths, AssetWatcher, ModInfo, ModLoader, ReloadCoordinator};
use std::collections::HashMap;

#[test]
fn asset_watcher_detects_change() {
    let mut watcher = AssetWatcher::new();
    watcher.register("sprites/player.png", 1);

    assert!(!watcher.check_update("sprites/player.png", 1), "Same version = no update");
    assert!(watcher.check_update("sprites/player.png", 2), "New version = update");
}

#[test]
fn asset_watcher_new_registration() {
    let mut watcher = AssetWatcher::new();
    assert!(!watcher.check_update("new.asset", 1), "First registration = not an update");
}

#[test]
fn asset_watcher_version() {
    let mut watcher = AssetWatcher::new();
    watcher.register("test.png", 42);
    assert_eq!(watcher.version("test.png"), Some(42));
    assert_eq!(watcher.version("missing.png"), None);
}

#[test]
fn asset_watcher_check_update_records_new_version() {
    let mut watcher = AssetWatcher::default();
    assert!(!watcher.check_update("a.png", 3));
    assert_eq!(watcher.version("a.png"), Some(3));
    assert!(watcher.check_update("a.png", 1));
    assert_eq!(watcher.version("a.png"), Some(1));
}

#[test]
fn reload_coordinator_detects_multiple() {
    let mut coord = ReloadCoordinator::new();
    coord.register_asset("a.png", 1);
    coord.register_asset("b.png", 1);

    let mut versions = HashMap::new();
    versions.insert("a.png".to_string(), 2);
    versions.insert("b.png".to_string(), 2);

    let changed = coord.check_all(&versions);

    assert_eq!(changed.len(), 2, "Both assets changed");
    assert_eq!(coord.reload_count(), 1);
}

#[test]
fn reload_coordinator_no_changes() {
    let mut coord = ReloadCoordinator::new();
    coord.register_asset("a.png", 1);

    let mut versions = HashMap::new();
    versions.insert("a.png".to_string(), 1);

    let changed = coord.check_all(&versions);
    assert!(changed.is_empty());
    assert_eq!(coord.reload_count(), 0);
}

#[test]
fn reload_coordinator_increments_count() {
    let mut coord = ReloadCoordinator::new();
    coord.register_asset("a.png", 1);

    let mut versions = HashMap::new();
    versions.insert("a.png".to_string(), 2);
    coord.check_all(&versions);
    coord.check_all(&versions);

    assert_eq!(coord.reload_count(), 1);
}

#[test]
fn reload_coordinator_ignores_unknown_assets() {
    let mut coord = ReloadCoordinator::default();
    coord.register_asset("a.png", 1);

    let mut versions = HashMap::new();
    versions.insert("other.png".to_string(), 9);
    let changed = coord.check_all(&versions);
    assert!(changed.is_empty());
    assert_eq!(coord.reload_count(), 0);
}

#[test]
fn reload_coordinator_check_versions_in_order() {
    let mut coord = ReloadCoordinator::new();
    coord.register_asset("a.png", 1);
    coord.register_asset("b.png", 1);
    let entries = vec![("b.png".to_string(), 5u64), ("a.png".to_string(), 1u64)];
    let changed = coord.check_versions(&entries);
    assert_eq!(changed, vec!["b.png".to_string()]);
    assert_eq!(coord.reload_count(), 1);
}

#[test]
fn mod_loader_load_unload() {
    let mut loader = ModLoader::new();
    let info = ModInfo {
        name: "test_mod".to_string(),
        path: "/tmp/test".to_string(),
        version: "1.0".to_string(),
    };

    loader.load_mod(&info);
    assert!(loader.is_loaded("test_mod"));

    loader.unload_mod("test_mod");
    assert!(!loader.is_loaded("test_mod"));
}

#[test]
fn mod_loader_no_duplicate_load() {
    let mut loader = ModLoader::new();
    let info = ModInfo {
        name: "test".to_string(),
        path: "/tmp".to_string(),
        version: "1.0".to_string(),
    };

    loader.load_mod(&info);
    loader.load_mod(&info);

    assert_eq!(loader.loaded_mods.len(), 1, "Should not duplicate");
}

#[test]
fn mod_validate_nonexistent() {
    let loader = ModLoader::new();
    let result = loader.validate_mod("/nonexistent/path");
    assert!(result.is_err());
}

#[test]
fn mod_validate_nonexistent_message() {
    let loader = ModLoader::default();
    let result = loader.validate_mod("/nonexistent/path");
    assert_eq!(result.unwrap_err(), "Mod path does not exist: /nonexistent/path");
}

#[test]
fn check_mod_decisions() {
    let missing = check_mod("/m", false, None, false, false);
    assert_eq!(missing.unwrap_err(), "Mod path does not exist: /m");

    let unnamed = check_mod("/", true, None, true, true);
    assert_eq!(unnamed.unwrap_err(), "Invalid mod filename");

    let no_manifest = check_mod("/mods/x", true, Some("x".to_string()), false, false);
    assert_eq!(no_manifest.unwrap_err(), "Mod missing manifest file (mod.toml or mod.json)");

    let only_json = check_mod("/mods/x", true, Some("x".to_string()), false, true).unwrap();
    assert_eq!(only_json.name, "x");
    let only_toml = check_mod("/mods/x", true, Some("x".to_string()), true, false).unwrap();
    assert_eq!(only_toml.name, "x");
    let ok = check_mod("/mods/x", true, Some("x".to_string()), true, true).unwrap();
    assert_eq!(ok.name, "x");
    assert_eq!(ok.path, "/mods/x");
    assert_eq!(ok.version, "0.1.0");
}

#[test]
fn manifest_paths_inside_the_mod() {
    let (toml, json) = manifest_paths("/mods/x");
    assert_eq!(toml, "/mods/x/mod.toml");
    assert_eq!(json, "/mods/x/mod.json");
}
