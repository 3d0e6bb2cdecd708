use bevy_book::persistence::{Checkpoint, CheckpointSystem, SaveData, Settings};

#[test]
fn save_data_default() {
    let data = SaveData::default();
    assert_eq!(data.player_name, "Player");
    assert_eq!(data.level, 1);
    assert_eq!(data.health, 100);
}

#[test]
fn save_data_default_settings() {
    let data = SaveData::default();
    assert_eq!(data.settings.len(), 3);
    assert_eq!(data.settings.get("music_volume").map(|s| s.as_str()), Some("0.8"));
    assert_eq!(data.settings.get("sfx_volume").map(|s| s.as_str()), Some("1.0"));
    assert_eq!(data.settings.get("fullscreen").map(|s| s.as_str()), Some("false"));
    assert!(data.inventory.is_empty());
    assert_eq!(data.score, 0);
    assert_eq!(data.max_health, 100);
}

#[test]
fn save_data_to_ron_roundtrip() {
    let original = SaveData {
        player_name: "Hero".to_string(),
        level: 5,
        score: 10000,
        health: 75,
        max_health: 100,
        inventory: vec!["sword".to_string(), "potion".to_string()],
        settings: Settings::new(),
    };

    let ron = original.to_ron();
    let parsed = SaveData::from_ron(&ron).expect("Should parse");

    assert_eq!(parsed.player_name, "Hero");
    assert_eq!(parsed.level, 5);
    assert_eq!(parsed.score, 10000);
    assert_eq!(parsed.health, 75);
}

#[test]
fn save_data_health_persists() {
    let data = SaveData { health: 42, max_health: 100, ..Default::default() };
    let ron = data.to_ron();
    let parsed = SaveData::from_ron(&ron).unwrap();
    assert_eq!(parsed.health, 42);
}

#[test]
fn save_data_roundtrip_negative_and_large_values() {
    let mut data = SaveData::default();
    data.player_name = "Zoë \"the\" Brave".to_string();
    data.level = u32::MAX;
    data.score = i64::MAX as u64;
    data.health = -17;
    data.max_health = i32::MIN;
    data.inventory.push("level: 99".to_string());
    let parsed = SaveData::from_ron(&data.to_ron()).unwrap();
    assert_eq!(parsed.player_name, data.player_name);
    assert_eq!(parsed.level, u32::MAX);
    assert_eq!(parsed.score, i64::MAX as u64);
    assert_eq!(parsed.health, -17);
    assert_eq!(parsed.max_health, i32::MIN);
    assert!(parsed.inventory.is_empty());
}

#[test]
fn to_ron_exact_text() {
    let mut data = SaveData::default();
    data.inventory.push("sword".to_string());
    let mut settings = Settings::new();
    settings.insert("k".to_string(), "v".to_string());
    data.settings = settings;
    assert_eq!(
        data.to_ron(),
        "SaveData(\n    player_name: \"Player\",\n    level: 1,\n    score: 0,\n    health: 100,\n    max_health: 100,\n    inventory: [\n        \"sword\",\n    ],\n    settings: {\n        \"k\": \"v\",\n    },\n)\n"
    );
}

#[test]
fn from_ron_errors() {
    assert_eq!(SaveData::from_ron("player_name: Hero").unwrap_err(), "No opening quote");
    assert_eq!(SaveData::from_ron("player_name: \"\",").unwrap_err(), "Invalid string");
    assert_eq!(SaveData::from_ron("player_name: \"x").unwrap_err(), "Invalid string");
    assert_eq!(SaveData::from_ron("level: 1: 2").unwrap_err(), "Invalid format");
    assert_eq!(
        SaveData::from_ron("score: lots").unwrap_err(),
        "Parse error: invalid digit found in string"
    );
    assert_eq!(
        SaveData::from_ron("health: ,").unwrap_err(),
        "Parse error: cannot parse integer from empty string"
    );
    assert_eq!(
        SaveData::from_ron("max_health: 99999999999999999999").unwrap_err(),
        "Parse error: number too large to fit in target type"
    );
}

#[test]
fn from_ron_truncates_like_casts() {
    let parsed = SaveData::from_ron("level: 4294967297,\nhealth: -1,\nscore: -1,").unwrap();
    assert_eq!(parsed.level, 1);
    assert_eq!(parsed.health, -1);
    assert_eq!(parsed.score, u64::MAX);
}

#[test]
fn from_ron_empty_and_unknown_lines() {
    let parsed = SaveData::from_ron("").unwrap();
    assert_eq!(parsed.player_name, "Player");
    let parsed = SaveData::from_ron("   gold: 5\r\n  level:  7,,\r\n").unwrap();
    assert_eq!(parsed.level, 7);
    let err = SaveData::from_ron("level:  7 ,,").unwrap_err();
    assert_eq!(err, "Parse error: invalid digit found in string");
}

#[test]
fn settings_roundtrip() {
    let mut data = SaveData::default();
    data.settings.insert("difficulty".to_string(), "hard".to_string());

    let ron = data.to_ron();
    assert!(ron.contains("difficulty"));
    assert!(ron.contains("hard"));
}

#[test]
fn settings_insert_replaces() {
    let mut s = Settings::new();
    assert_eq!(s.insert("a".to_string(), "1".to_string()), None);
    assert_eq!(s.insert("b".to_string(), "2".to_string()), None);
    assert_eq!(s.insert("a".to_string(), "3".to_string()), Some("1".to_string()));
    assert_eq!(s.len(), 2);
    assert_eq!(s.get("a").map(|v| v.as_str()), Some("3"));
    assert!(s.contains_key("b"));
    assert!(!s.contains_key("c"));
}

#[test]
fn checkpoint_trigger() {
    let mut system = CheckpointSystem::new();
    system.add(Checkpoint { id: 1, position: (10.0, 20.0), timestamp: 1000 });

    assert!(system.trigger(1));
    assert!(!system.trigger(999));
}

#[test]
fn checkpoint_last() {
    let mut system = CheckpointSystem::new();
    system.add(Checkpoint { id: 1, position: (0.0, 0.0), timestamp: 100 });
    system.add(Checkpoint { id: 2, position: (50.0, 50.0), timestamp: 200 });

    system.trigger(1);
    assert_eq!(system.last_checkpoint().unwrap().id, 1);

    system.trigger(2);
    assert_eq!(system.last_checkpoint().unwrap().id, 2);
}

#[test]
fn checkpoint_no_trigger_returns_none() {
    let system = CheckpointSystem::<(f32, f32)>::new();
    assert!(system.last_checkpoint().is_none());
}

#[test]
fn checkpoint_failed_trigger_keeps_last() {
    let mut system = CheckpointSystem::new();
    system.add(Checkpoint { id: 3, position: (1.0, 2.0), timestamp: 5 });
    assert!(system.trigger(3));
    assert!(!system.trigger(4));
    assert_eq!(system.last_checkpoint().unwrap().timestamp, 5);
}
