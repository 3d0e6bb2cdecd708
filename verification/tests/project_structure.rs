use bevy_book::project_structure::rules;
use bevy_book::project_structure::{DependencyGraph, FileSizeRules, FileSizeStatus};

#[test]
fn single_responsibility_good_names() {
    assert!(rules::is_single_responsibility("combat"));
    assert!(rules::is_single_responsibility("rendering"));
    assert!(rules::is_single_responsibility("audio_system"));
}

#[test]
fn single_responsibility_bad_names() {
    assert!(!rules::is_single_responsibility("misc"));
    assert!(!rules::is_single_responsibility("utils_and_helpers"));
    assert!(!rules::is_single_responsibility("common_stuff"));
}

#[test]
fn single_responsibility_ignores_case() {
    assert!(!rules::is_single_responsibility("MISC"));
    assert!(!rules::is_single_responsibility("Utils_And_Helpers"));
    assert!(rules::is_single_responsibility("Combat"));
}

#[test]
fn acceptable_depth() {
    assert!(rules::is_acceptable_depth(1));
    assert!(rules::is_acceptable_depth(3));
    assert!(!rules::is_acceptable_depth(5));
    assert!(!rules::is_acceptable_depth(10));
}

#[test]
fn dependency_graph_no_cycle() {
    let mut graph = DependencyGraph::new();
    graph.add_dependency("rendering", "core");
    graph.add_dependency("gameplay", "core");
    graph.add_dependency("ui", "rendering");

    assert!(!graph.has_cycle());
}

#[test]
fn dependency_graph_with_cycle() {
    let mut graph = DependencyGraph::new();
    graph.add_dependency("a", "b");
    graph.add_dependency("b", "c");
    graph.add_dependency("c", "a");

    assert!(graph.has_cycle());
}

#[test]
fn dependency_graph_self_loop_is_cycle() {
    let mut graph = DependencyGraph::new();
    graph.add_dependency("a", "a");
    assert!(graph.has_cycle());
    assert!(graph.build_order().is_err());
}

#[test]
fn build_order_linear() {
    let mut graph = DependencyGraph::new();
    graph.add_dependency("rendering", "core");
    graph.add_dependency("gameplay", "rendering");

    let order = graph.build_order().unwrap();
    let core_idx = order.iter().position(|m| m == "core").unwrap();
    let render_idx = order.iter().position(|m| m == "rendering").unwrap();
    let gameplay_idx = order.iter().position(|m| m == "gameplay").unwrap();

    assert!(core_idx < render_idx, "core should come before rendering");
    assert!(render_idx < gameplay_idx, "rendering should come before gameplay");
}

#[test]
fn build_order_lists_every_module_once() {
    let mut graph = DependencyGraph::new();
    graph.add_dependency("ui", "rendering");
    graph.add_dependency("rendering", "core");
    graph.add_dependency("gameplay", "core");
    let order = graph.build_order().unwrap();
    assert_eq!(order.len(), 4);
    for name in ["ui", "rendering", "core", "gameplay"] {
        assert_eq!(order.iter().filter(|m| m.as_str() == name).count(), 1);
    }
}

#[test]
fn build_order_cycle_fails() {
    let mut graph = DependencyGraph::new();
    graph.add_dependency("a", "b");
    graph.add_dependency("b", "a");

    assert!(graph.build_order().is_err());
}

#[test]
fn build_order_cycle_message() {
    let mut graph = DependencyGraph::new();
    graph.add_dependency("a", "b");
    graph.add_dependency("b", "a");
    assert_eq!(graph.build_order().unwrap_err(), "Cannot build order: cycle detected");
}

#[test]
fn file_size_good() {
    assert_eq!(FileSizeRules::check(100), FileSizeStatus::Good);
    assert_eq!(FileSizeRules::check(300), FileSizeStatus::Good);
}

#[test]
fn file_size_warning() {
    assert_eq!(FileSizeRules::check(400), FileSizeStatus::Warning);
}

#[test]
fn file_size_too_large() {
    assert_eq!(FileSizeRules::check(600), FileSizeStatus::TooLarge);
    assert_eq!(FileSizeRules::check(2000), FileSizeStatus::TooLarge);
}

#[test]
fn file_size_boundaries() {
    assert_eq!(FileSizeRules::check(301), FileSizeStatus::Warning);
    assert_eq!(FileSizeRules::check(500), FileSizeStatus::Warning);
    assert_eq!(FileSizeRules::check(501), FileSizeStatus::TooLarge);
}
