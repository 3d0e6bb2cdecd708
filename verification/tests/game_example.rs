use bevy_book::game_example::{GameScene, GameState, LevelManager, SceneFlow, ScoreTracker};

#[test]
fn scene_flow_boot_to_title() {
    let flow = SceneFlow::default();
    assert!(flow.can_transition(GameScene::Boot, GameScene::TitleScreen));
}

#[test]
fn scene_flow_invalid_transition() {
    let flow = SceneFlow::default();
    assert!(!flow.can_transition(GameScene::Boot, GameScene::Playing));
}

#[test]
fn scene_flow_playing_to_paused() {
    let flow = SceneFlow::default();
    assert!(flow.can_transition(GameScene::Playing, GameScene::Paused));
}

#[test]
fn scene_flow_paused_to_playing() {
    let flow = SceneFlow::default();
    assert!(flow.can_transition(GameScene::Paused, GameScene::Playing));
}

#[test]
fn scene_flow_valid_targets_in_order() {
    let flow = SceneFlow::default();
    assert_eq!(
        flow.valid_targets(GameScene::Victory),
        vec![GameScene::TitleScreen, GameScene::Credits, GameScene::LevelSelect]
    );
    assert_eq!(flow.valid_targets(GameScene::Credits), vec![GameScene::TitleScreen]);
}

#[test]
fn level_manager_starts_with_one_unlocked() {
    let manager = LevelManager::new(5);
    assert!(manager.is_unlocked(0));
    assert!(!manager.is_unlocked(1));
}

#[test]
fn level_manager_unlocks_next_on_complete() {
    let mut manager = LevelManager::new(5);
    manager.complete_level(0);
    assert!(manager.is_unlocked(1));
}

#[test]
fn level_manager_counts_completed() {
    let mut manager = LevelManager::new(10);
    manager.complete_level(0);
    manager.complete_level(1);
    manager.complete_level(2);
    assert_eq!(manager.completed_count(), 3);
    assert!(!manager.all_completed());
}

#[test]
fn level_manager_all_completed() {
    let mut manager = LevelManager::new(3);
    manager.complete_level(0);
    manager.complete_level(1);
    manager.complete_level(2);
    assert!(manager.all_completed());
}

#[test]
fn level_manager_unknown_level_is_locked() {
    let mut manager = LevelManager::new(2);
    manager.complete_level(7);
    assert_eq!(manager.completed_count(), 0);
    assert!(!manager.is_unlocked(7));
}

#[test]
fn score_tracker_records_best() {
    let mut tracker = ScoreTracker::new();
    assert!(tracker.record_score(0, 1000));
    assert!(tracker.record_score(0, 2000));
    assert!(!tracker.record_score(0, 500), "Lower score should not replace");
}

#[test]
fn score_tracker_total() {
    let mut tracker = ScoreTracker::new();
    tracker.record_score(0, 1000);
    tracker.record_score(1, 2000);

    assert_eq!(tracker.total_score, 3000);
}

#[test]
fn score_tracker_total_follows_best() {
    let mut tracker = ScoreTracker::default();
    tracker.record_score(0, 1000);
    tracker.record_score(0, 1500);
    tracker.record_score(1, 200);
    tracker.record_score(0, 10);
    assert_eq!(tracker.total_score, 1700);
}

#[test]
fn score_tracker_best_score() {
    let mut tracker = ScoreTracker::new();
    tracker.record_score(0, 1000);
    tracker.record_score(0, 500);

    assert_eq!(tracker.best_score(0), 1000, "Should keep best score");
}

#[test]
fn game_state_full_playthrough() {
    let mut state = GameState::new();

    assert!(state.transition_to(GameScene::TitleScreen));
    assert_eq!(state.current_scene, GameScene::TitleScreen);

    assert!(state.transition_to(GameScene::LevelSelect));

    assert!(state.start_level(0));
    assert_eq!(state.current_scene, GameScene::Playing);

    state.complete_level(0, 5000);
    assert_eq!(state.score_tracker.best_score(0), 5000);
    assert!(state.level_manager.is_unlocked(1));
}

#[test]
fn game_state_locked_level_fails() {
    let mut state = GameState::new();
    state.current_scene = GameScene::LevelSelect;

    assert!(!state.start_level(5), "Level 5 should be locked");
}

#[test]
fn game_state_victory_after_all_levels() {
    let mut state = GameState::new();
    state.current_scene = GameScene::LevelSelect;
    state.level_manager = LevelManager::new(2);

    state.start_level(0);
    state.complete_level(0, 1000);

    state.current_scene = GameScene::LevelSelect;
    state.start_level(1);
    state.complete_level(1, 2000);

    assert_eq!(state.current_scene, GameScene::Victory);
}

#[test]
fn game_state_default_starts_at_boot() {
    let state = GameState::default();
    assert_eq!(state.current_scene, GameScene::Boot);
    assert_eq!(state.level_manager.levels.len(), 10);
}
