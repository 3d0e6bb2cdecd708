use bevy_book::performance::{EntityProfiler, ScopeTimer};

#[test]
fn entity_profiler_tracks_spawn() {
    let mut profiler = EntityProfiler::new();
    profiler.on_spawn(10);
    assert_eq!(profiler.current_count, 10);
    assert_eq!(profiler.peak_count, 10);
    assert_eq!(profiler.total_spawned, 10);
}

#[test]
fn entity_profiler_tracks_despawn() {
    let mut profiler = EntityProfiler::new();
    profiler.on_spawn(100);
    profiler.on_despawn(30);
    assert_eq!(profiler.current_count, 70);
    assert_eq!(profiler.total_despawned, 30);
    assert_eq!(profiler.peak_count, 100, "Peak should not decrease");
}

#[test]
fn entity_profiler_peak_tracks_correctly() {
    let mut profiler = EntityProfiler::new();
    profiler.on_spawn(50);
    profiler.on_despawn(20);
    profiler.on_spawn(10);
    assert_eq!(profiler.peak_count, 50, "Peak should be 50 from first spawn");
}

#[test]
fn entity_profiler_despawn_stops_at_zero() {
    let mut profiler = EntityProfiler::default();
    profiler.on_spawn(3);
    profiler.on_despawn(10);
    assert_eq!(profiler.current_count, 0);
    assert_eq!(profiler.total_despawned, 10);
    assert_eq!(profiler.peak_count, 3);
}

#[test]
fn scope_timer_elapsed_is_monotone() {
    let timer = ScopeTimer::start("test");
    let a = timer.elapsed_micros();
    let b = timer.elapsed_micros();
    assert!(b >= a);
}
