use bevy_book::deployment::{
    desktop_release_profile, generate_release_profile, web_release_profile, BuildProfile, LtoSetting,
    OptLevel, PanicStrategy, Platform, ReleaseChecklist,
};

#[test]
fn platform_target_triples() {
    assert_eq!(Platform::Windows.target_triple(), "x86_64-pc-windows-msvc");
    assert_eq!(Platform::Web.target_triple(), "wasm32-unknown-unknown");
    assert_eq!(Platform::Linux.target_triple(), "x86_64-unknown-linux-gnu");
}

#[test]
fn platform_file_extensions() {
    assert_eq!(Platform::Windows.file_extension(), ".exe");
    assert_eq!(Platform::Web.file_extension(), ".wasm");
    assert_eq!(Platform::Android.file_extension(), ".apk");
}

#[test]
fn opt_level_cargo_values() {
    assert_eq!(OptLevel::Size.cargo_value(), "z");
    assert_eq!(OptLevel::Speed.cargo_value(), "3");
    assert_eq!(OptLevel::Balanced.cargo_value(), "s");
    assert_eq!(OptLevel::Off.cargo_value(), "0");
}

#[test]
fn lto_cargo_values() {
    assert_eq!(LtoSetting::Thin.cargo_value(), "thin");
    assert_eq!(LtoSetting::Fat.cargo_value(), "true");
    assert_eq!(LtoSetting::Off.cargo_value(), "false");
}

#[test]
fn release_checklist_default() {
    let checklist = ReleaseChecklist::default_bevy();
    assert!(!checklist.items.is_empty());
    assert!(checklist.items.iter().any(|i| i.critical));
}

#[test]
fn checklist_not_ready_initially() {
    let checklist = ReleaseChecklist::default_bevy();
    assert!(!checklist.is_ready_for_release());
    assert!(!checklist.pending_critical().is_empty());
}

#[test]
fn checklist_complete_item() {
    let mut checklist = ReleaseChecklist::default_bevy();
    let critical_count = checklist.pending_critical().len();

    checklist.complete("All tests passing (cargo test)");

    assert!(checklist.pending_critical().len() < critical_count);
}

#[test]
fn checklist_ready_when_all_critical_done() {
    let mut checklist = ReleaseChecklist::new();
    checklist.add("Test", "Critical item 1", true);
    checklist.add("Test", "Critical item 2", true);
    checklist.add("Test", "Optional item", false);

    assert!(!checklist.is_ready_for_release());

    checklist.complete("Critical item 1");
    checklist.complete("Critical item 2");

    assert!(checklist.is_ready_for_release(), "Should be ready when all critical done");
}

#[test]
fn checklist_complete_unknown_changes_nothing() {
    let mut checklist = ReleaseChecklist::default();
    checklist.add("T", "Only", true);
    checklist.complete("Missing");
    assert!(!checklist.items[0].completed);
    assert_eq!(checklist.pending_critical().len(), 1);
}

#[test]
fn generate_release_profile_string() {
    let profile = BuildProfile {
        name: "release".to_string(),
        opt_level: OptLevel::Speed,
        lto: LtoSetting::Thin,
        codegen_units: 16,
        strip: true,
        panic: PanicStrategy::Unwind,
    };

    let toml = generate_release_profile(&profile);
    assert!(toml.contains("[profile.release]"));
    assert!(toml.contains("opt-level = \"3\""));
    assert!(toml.contains("lto = \"thin\""));
    assert!(toml.contains("codegen-units = 16"));
    assert!(toml.contains("strip = true"));
    assert!(toml.contains("panic = \"unwind\""));
}

#[test]
fn generate_release_profile_exact_text() {
    let profile = BuildProfile {
        name: "wasm".to_string(),
        opt_level: OptLevel::Size,
        lto: LtoSetting::Off,
        codegen_units: 1,
        strip: false,
        panic: PanicStrategy::Abort,
    };
    assert_eq!(
        generate_release_profile(&profile),
        "[profile.wasm]\nopt-level = \"z\"\nlto = \"false\"\ncodegen-units = 1\nstrip = false\npanic = \"abort\"\n"
    );
}

#[test]
fn web_profile_optimizes_for_size() {
    let profile = web_release_profile();
    assert_eq!(profile.opt_level, OptLevel::Size);
    assert_eq!(profile.lto, LtoSetting::Fat);
    assert_eq!(profile.codegen_units, 1);
    assert_eq!(profile.panic, PanicStrategy::Abort);
}

#[test]
fn desktop_profile_optimizes_for_speed() {
    let profile = desktop_release_profile();
    assert_eq!(profile.opt_level, OptLevel::Speed);
    assert_eq!(profile.lto, LtoSetting::Thin);
    assert!(profile.codegen_units > 1);
    assert_eq!(profile.panic, PanicStrategy::Unwind);
}

#[test]
fn checklist_completed_count() {
    let mut checklist = ReleaseChecklist::new();
    checklist.add("T", "Item 1", false);
    checklist.add("T", "Item 2", false);
    checklist.add("T", "Item 3", false);
    checklist.add("T", "Item 4", false);
    assert_eq!(checklist.completed_count(), 0);
    checklist.complete("Item 1");
    checklist.complete("Item 2");
    assert_eq!(checklist.completed_count(), 2);
}
