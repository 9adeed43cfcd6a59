use stele::bridge::draw_order;
use std::collections::HashMap;

use stele::error::DocumentError;
use stele::font::{log_font_fallback, FontSelection};
use stele::overlay::{record_anchor_layout, resolve_overlay_target, AnchorPlacement};
use stele::paint::{
    block_background_rect, run_decorations, validate_path_verb, Decoration, PathVerb, RenderLayer,
};
use stele::tree::{AnchorKey, BlockShape, DocumentTree, NodeId};
use stele::solve::{child_width_mode, Align, ChildWidthMode, FlowDirection};
use stele::zorder::{
    block_materializes, lift_subtree_above_z, offset_subtree_z, place_overlay,
    set_subtree_scroll_anchor, subtree_max_materialized_z, subtree_min_materialized_z,
    AtomPayloadSummary, EmbedSummary, RunSummary, ScrollAnchor, ZBlock, ZContent,
};

fn text_paragraph(z_order: u32) -> ZBlock {
    ZBlock {
        z_order,
        has_background: false,
        scroll_anchor: ScrollAnchor::FollowsContent,
        content: ZContent::Paragraph {
            lines: vec![vec![RunSummary::Text { glyph_count: 6, decoration_count: 0 }]],
        },
    }
}

fn image(z_order: u32) -> ZBlock {
    ZBlock {
        z_order,
        has_background: false,
        scroll_anchor: ScrollAnchor::FollowsContent,
        content: ZContent::Embed { kind: EmbedSummary::Image },
    }
}

fn bare_stack(z_order: u32, children: Vec<ZBlock>) -> ZBlock {
    ZBlock {
        z_order,
        has_background: false,
        scroll_anchor: ScrollAnchor::FollowsContent,
        content: ZContent::Stack { children },
    }
}

fn z_orders(block: &ZBlock, out: &mut Vec<u32>) {
    out.push(block.z_order);
    if let ZContent::Stack { children } = &block.content {
        for child in children {
            z_orders(child, out);
        }
    }
}

fn anchors(block: &ZBlock, out: &mut Vec<ScrollAnchor>) {
    out.push(block.scroll_anchor);
    if let ZContent::Stack { children } = &block.content {
        for child in children {
            anchors(child, out);
        }
    }
}

#[test]
fn bridge_sorts_blocks_by_z_order_then_document_order() {
    let keys = vec![(2, 3), (1, 1), (1, 2)];
    let order = draw_order(&keys);
    let block_indices: Vec<usize> = order.iter().map(|&position| keys[position].1).collect();
    assert_eq!(block_indices[0], 1);
    assert_eq!(block_indices[1], 2);
    assert_eq!(block_indices[2], 3);
}

#[test]
fn draw_order_is_stable_for_equal_keys() {
    let keys = vec![(4, 0), (1, 7), (4, 0), (0, 9), (1, 7)];
    assert_eq!(draw_order(&keys), vec![3, 1, 4, 0, 2]);
    assert!(draw_order(&Vec::new()).is_empty());
}

#[test]
fn run_accumulator_emits_background_and_underline_rects() {
    let rects = run_decorations(true, true, true, false);
    assert_eq!(rects.len(), 2);
    assert_eq!(rects[0].layer(), RenderLayer::Background);
    assert_eq!(rects[1].layer(), RenderLayer::Foreground);
}

#[test]
fn decorations_follow_style_in_fixed_order() {
    assert_eq!(
        run_decorations(true, true, true, true),
        vec![Decoration::Background, Decoration::Underline, Decoration::Strikethrough]
    );
    assert_eq!(run_decorations(true, false, false, true), vec![Decoration::Strikethrough]);
    assert!(run_decorations(false, true, true, true).is_empty());
    assert_eq!(Decoration::Strikethrough.layer(), RenderLayer::Foreground);
}

#[test]
fn background_rect_only_for_blocks_with_a_background() {
    let rect = block_background_rect((1.0f32, 2.0f32), (30.0f32, 40.0f32), Some([0.5f32; 4]))
        .expect("a background color gives a rect");
    assert_eq!(rect.pos, (1.0, 2.0));
    assert_eq!(rect.size, (30.0, 40.0));
    assert_eq!(rect.color, [0.5; 4]);
    assert_eq!(rect.layer, RenderLayer::Background);
    assert!(block_background_rect((0.0f32, 0.0f32), (1.0f32, 1.0f32), None::<[f32; 4]>).is_none());
}

#[test]
fn path_verbs_need_every_point_valid() {
    assert!(validate_path_verb(&PathVerb::Close).is_ok());
    assert!(validate_path_verb(&PathVerb::MoveTo { to: true }).is_ok());
    assert!(validate_path_verb(&PathVerb::CubicTo { ctrl1: true, ctrl2: true, to: true }).is_ok());
    assert_eq!(
        validate_path_verb(&PathVerb::LineTo { to: false }),
        Err(DocumentError::InvalidLocalPaint)
    );
    assert_eq!(
        validate_path_verb(&PathVerb::QuadTo { ctrl: false, to: true }),
        Err(DocumentError::InvalidLocalPaint)
    );
    assert_eq!(
        validate_path_verb(&PathVerb::CubicTo { ctrl1: true, ctrl2: false, to: true }),
        Err(DocumentError::InvalidLocalPaint)
    );
}

#[test]
fn child_width_modes_follow_direction_and_alignment() {
    assert_eq!(child_width_mode(FlowDirection::Vertical, Align::Stretch), ChildWidthMode::VerticalStretch);
    assert_eq!(child_width_mode(FlowDirection::Vertical, Align::Center), ChildWidthMode::VerticalFitContent);
    assert_eq!(child_width_mode(FlowDirection::Vertical, Align::End), ChildWidthMode::VerticalFitContent);
    assert_eq!(child_width_mode(FlowDirection::Horizontal, Align::Stretch), ChildWidthMode::Default);
}

#[test]
fn font_fallback_is_reported_when_the_font_changes() {
    assert!(log_font_fallback(FontSelection { requested_font_id: 3, resolved_font_id: 0 }));
    assert!(!log_font_fallback(FontSelection { requested_font_id: 2, resolved_font_id: 2 }));
}

#[test]
fn only_drawing_blocks_count_for_extremes() {
    let tree = bare_stack(
        1,
        vec![
            text_paragraph(7),
            bare_stack(100, vec![image(3)]),
            ZBlock {
                z_order: 50,
                has_background: false,
                scroll_anchor: ScrollAnchor::FollowsContent,
                content: ZContent::Paragraph { lines: vec![vec![], vec![RunSummary::Text { glyph_count: 0, decoration_count: 0 }]] },
            },
        ],
    );
    assert!(!block_materializes(&tree));
    assert_eq!(subtree_min_materialized_z(&tree), Some(3));
    assert_eq!(subtree_max_materialized_z(&tree), Some(7));
    assert_eq!(subtree_min_materialized_z(&bare_stack(4, vec![])), None);

    let atom_line = ZBlock {
        z_order: 2,
        has_background: false,
        scroll_anchor: ScrollAnchor::FollowsContent,
        content: ZContent::Paragraph {
            lines: vec![vec![RunSummary::Atom {
                has_background: false,
                has_border: false,
                payload: AtomPayloadSummary::Chip { glyph_count: 0 },
            }]],
        },
    };
    assert!(!block_materializes(&atom_line));
    let custom = ZBlock {
        z_order: 2,
        has_background: false,
        scroll_anchor: ScrollAnchor::FollowsContent,
        content: ZContent::Embed { kind: EmbedSummary::Custom { paint_count: 0 } },
    };
    assert!(!block_materializes(&custom));
}

#[test]
fn lift_raises_the_lowest_drawn_block_to_the_floor() {
    let mut tree = bare_stack(0, vec![image(2), text_paragraph(6)]);
    lift_subtree_above_z(&mut tree, 5);
    let mut zs = Vec::new();
    z_orders(&tree, &mut zs);
    assert_eq!(zs, vec![3, 5, 9]);
    assert_eq!(subtree_min_materialized_z(&tree), Some(5));

    let mut high = bare_stack(0, vec![image(8)]);
    lift_subtree_above_z(&mut high, 5);
    assert_eq!(high.z_order, 0);
    assert_eq!(subtree_min_materialized_z(&high), Some(8));

    let mut empty = bare_stack(1, vec![]);
    lift_subtree_above_z(&mut empty, 5);
    assert_eq!(empty.z_order, 1);
}

#[test]
fn offsets_saturate_and_anchors_spread() {
    let mut tree = bare_stack(u32::MAX - 1, vec![image(1)]);
    offset_subtree_z(&mut tree, 5);
    let mut zs = Vec::new();
    z_orders(&tree, &mut zs);
    assert_eq!(zs, vec![u32::MAX, 6]);

    set_subtree_scroll_anchor(&mut tree, ScrollAnchor::FixedToViewport);
    let mut found = Vec::new();
    anchors(&tree, &mut found);
    assert_eq!(found, vec![ScrollAnchor::FixedToViewport; 2]);
}

#[test]
fn overlay_subtree_is_lifted_above_anchor_z_order() {
    let anchor = text_paragraph(5);
    let anchor_z = subtree_max_materialized_z(&anchor);
    assert_eq!(anchor_z, Some(5));
    let mut overlay = image(0);
    place_overlay(&mut overlay, ScrollAnchor::FollowsContent, anchor_z);
    assert_eq!(overlay.z_order, 6);
    assert!(overlay.z_order > anchor.z_order);
}

#[test]
fn overlay_anchor_without_materialized_scene_content_does_not_raise_overlay_z() {
    let anchor = bare_stack(9, vec![]);
    let anchor_z = subtree_max_materialized_z(&anchor);
    assert_eq!(anchor_z, None);
    let mut overlay = image(2);
    place_overlay(&mut overlay, ScrollAnchor::FollowsContent, anchor_z);
    assert_eq!(overlay.z_order, 2);
}

#[test]
fn viewport_overlay_is_fixed_and_keeps_its_order() {
    let mut overlay = bare_stack(4, vec![image(7)]);
    place_overlay(&mut overlay, ScrollAnchor::FixedToViewport, None);
    let mut found = Vec::new();
    anchors(&overlay, &mut found);
    assert_eq!(found, vec![ScrollAnchor::FixedToViewport; 2]);
    let mut zs = Vec::new();
    z_orders(&overlay, &mut zs);
    assert_eq!(zs, vec![4, 7]);
}

#[test]
fn overlay_at_the_top_of_the_range_saturates() {
    let mut overlay = image(3);
    place_overlay(&mut overlay, ScrollAnchor::FollowsContent, Some(u32::MAX));
    assert_eq!(overlay.z_order, u32::MAX);
}

#[test]
fn overlay_targets_resolve_to_recorded_flow_placements() {
    let root = BlockShape::Stack {
        node_id: NodeId::new(0),
        anchor_key: None,
        children: vec![
            BlockShape::Paragraph {
                node_id: NodeId::new(0),
                anchor_key: Some(AnchorKey::new("anchor").expect("anchor")),
            },
            BlockShape::Embed {
                node_id: NodeId::new(0),
                anchor_key: Some(AnchorKey::new("unplaced").expect("anchor")),
            },
        ],
    };
    let tree = DocumentTree::new(root).expect("tree must be valid");

    let mut layouts: HashMap<u64, AnchorPlacement<(f32, f32)>> = HashMap::new();
    record_anchor_layout(&mut layouts, NodeId::new(1), (10.0, 20.0), &text_paragraph(5), true);
    record_anchor_layout(&mut layouts, NodeId::new(2), (0.0, 0.0), &image(1), false);
    assert_eq!(layouts.len(), 1);

    let anchor = AnchorKey::new("anchor").expect("anchor");
    let resolved = resolve_overlay_target(Some(&anchor), tree.anchor_index(), &layouts)
        .expect("the anchor was placed");
    assert_eq!(resolved.anchor_rect, Some((10.0, 20.0)));
    assert_eq!(resolved.anchor_z_order, Some(5));
    assert_eq!(resolved.scroll_anchor, ScrollAnchor::FollowsContent);

    let unplaced = AnchorKey::new("unplaced").expect("anchor");
    assert!(resolve_overlay_target(Some(&unplaced), tree.anchor_index(), &layouts).is_none());
    let missing = AnchorKey::new("missing").expect("anchor");
    assert!(resolve_overlay_target(Some(&missing), tree.anchor_index(), &layouts).is_none());

    let viewport = resolve_overlay_target(None, tree.anchor_index(), &layouts).expect("viewport");
    assert_eq!(viewport.anchor_rect, None);
    assert_eq!(viewport.anchor_z_order, None);
    assert_eq!(viewport.scroll_anchor, ScrollAnchor::FixedToViewport);

    let mut overlay = image(0);
    place_overlay(&mut overlay, resolved.scroll_anchor, resolved.anchor_z_order);
    assert_eq!(overlay.z_order, 6);
}
