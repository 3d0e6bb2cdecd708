use bevy_book::rendering::{layer_index, RenderLayer};
use bevy_book::ui::{anchor_grid, Anchor};

#[test]
fn render_layers_draw_back_to_front() {
    assert!(layer_index(RenderLayer::Background) < layer_index(RenderLayer::Tilemap));
    assert!(layer_index(RenderLayer::Tilemap) < layer_index(RenderLayer::Entities));
    assert!(layer_index(RenderLayer::Entities) < layer_index(RenderLayer::UI));
    assert_eq!(layer_index(RenderLayer::Particles), 3);
    assert!(RenderLayer::Background < RenderLayer::UI);
}

#[test]
fn anchors_sit_in_a_three_by_three_grid() {
    assert_eq!(anchor_grid(Anchor::TopLeft), (0, 0));
    assert_eq!(anchor_grid(Anchor::Center), (1, 1));
    assert_eq!(anchor_grid(Anchor::BottomRight), (2, 2));
    assert_eq!(anchor_grid(Anchor::CenterRight), (2, 1));
    assert_eq!(anchor_grid(Anchor::BottomCenter), (1, 2));
}
