//! Where overlays attach: the placements recorded for anchored flow blocks, and the
//! resolution of an overlay's target against them.
use std::collections::HashMap;

use crate::tree::{AnchorIndex, AnchorKey, NodeId};
use crate::zorder::{
    anchor_to, lemma_offset_moves_extremes, mapped_subtree, offset_by, overlay_lift, sat_add,
    subtree_max_materialized_z, subtree_max_z, subtree_min_z, ScrollAnchor, ZBlock,
};
use vstd::prelude::*;

verus! {

/// Where a flow block was laid out (`rect`, in the caller's geometry) and the highest
/// z-order that its subtree draws at, if it draws anything.
#[derive(Clone, Copy, Debug)]
pub struct AnchorPlacement<R> {
    pub rect: R,
    pub z_order: Option<u32>,
}

/// What an overlay needs from its resolved target: the anchor block's rectangle (none for
/// the viewport), the z-order to draw above, and how the overlay scrolls.
#[derive(Clone, Copy, Debug)]
pub struct ResolvedOverlayTarget<R> {
    pub anchor_rect: Option<R>,
    pub anchor_z_order: Option<u32>,
    pub scroll_anchor: ScrollAnchor,
}

/// Records the placement of a laid-out block under its node id, when anchors are being
/// recorded (that is, outside overlays).
pub fn record_anchor_layout<R>(
    anchor_layouts: &mut HashMap<u64, AnchorPlacement<R>>,
    node_id: NodeId,
    rect: R,
    block: &ZBlock,
    record_anchors: bool,
)
    ensures
        final(anchor_layouts)@ == if record_anchors {
            old(anchor_layouts)@.insert(
                node_id@,
                AnchorPlacement { rect, z_order: subtree_max_z(*block) },
            )
        } else {
            old(anchor_layouts)@
        },
{
    broadcast use vstd::std_specs::hash::group_hash_axioms;

    if record_anchors {
        let z_order = subtree_max_materialized_z(block);
        anchor_layouts.insert(node_id.value(), AnchorPlacement { rect, z_order });
    }
}

/// The resolution of an overlay target: `None` targets the viewport, which the overlay
/// stays fixed to; a key targets the flow block that carries it, when that block's
/// placement was recorded, and the overlay then follows the content and draws above it.
pub open spec fn resolved_target<R>(
    target: Option<Seq<char>>,
    index: Map<Seq<char>, u64>,
    layouts: Map<u64, AnchorPlacement<R>>,
) -> Option<ResolvedOverlayTarget<R>> {
    match target {
        None => Some(
            ResolvedOverlayTarget {
                anchor_rect: None,
                anchor_z_order: None,
                scroll_anchor: ScrollAnchor::FixedToViewport,
            },
        ),
        Some(key) => if index.contains_key(key) && layouts.contains_key(index[key]) {
            Some(
                ResolvedOverlayTarget {
                    anchor_rect: Some(layouts[index[key]].rect),
                    anchor_z_order: layouts[index[key]].z_order,
                    scroll_anchor: ScrollAnchor::FollowsContent,
                },
            )
        } else {
            None
        },
    }
}

pub open spec fn target_view(target: Option<&AnchorKey>) -> Option<Seq<char>> {
    match target {
        Some(key) => Some(key@),
        None => None,
    }
}

/// Resolves an overlay's target against the flow anchor index and the recorded placements.
pub fn resolve_overlay_target<R: Copy>(
    target: Option<&AnchorKey>,
    anchor_index: &AnchorIndex,
    anchor_layouts: &HashMap<u64, AnchorPlacement<R>>,
) -> (resolved: Option<ResolvedOverlayTarget<R>>)
    requires
        anchor_index.wf(),
    ensures
        resolved == resolved_target(target_view(target), anchor_index@, anchor_layouts@),
{
    broadcast use vstd::std_specs::hash::group_hash_axioms;

    match target {
        None => Some(
            ResolvedOverlayTarget {
                anchor_rect: None,
                anchor_z_order: None,
                scroll_anchor: ScrollAnchor::FixedToViewport,
            },
        ),
        Some(key) => match anchor_index.get(key) {
            Some(node_id) => {
                let id = node_id.value();
                match anchor_layouts.get(&id) {
                    Some(placement) => Some(
                        ResolvedOverlayTarget {
                            anchor_rect: Some(placement.rect),
                            anchor_z_order: placement.z_order,
                            scroll_anchor: ScrollAnchor::FollowsContent,
                        },
                    ),
                    None => None,
                }
            },
            None => None,
        },
    }
}

/// An overlay anchored to a flow block draws above everything that block draws: record
/// the block's placement, resolve the overlay's key to it, and stack the overlay for the
/// resolved target; then, unless the block already draws at the top z-order, the lowest
/// z-order the overlay draws at is above the highest one the block draws at, and the
/// overlay follows the content.
pub proof fn lemma_overlay_draws_above_anchor<R>(
    layouts_before: Map<u64, AnchorPlacement<R>>,
    index: Map<Seq<char>, u64>,
    key: Seq<char>,
    anchor: ZBlock,
    rect: R,
    overlay_before: ZBlock,
    overlay_after: ZBlock,
)
    requires
        index.contains_key(key),
        subtree_max_z(anchor) matches Some(z) && z < u32::MAX,
        subtree_min_z(overlay_before) is Some,
        ({
            let layouts = layouts_before.insert(
                index[key],
                AnchorPlacement { rect, z_order: subtree_max_z(anchor) },
            );
            let resolved = resolved_target(Some(key), index, layouts)->0;
            mapped_subtree(
                overlay_after,
                overlay_before,
                offset_by(overlay_lift(subtree_min_z(overlay_before), resolved.anchor_z_order)),
                anchor_to(resolved.scroll_anchor),
            )
        }),
    ensures
        subtree_min_z(overlay_after) matches Some(m) && m > subtree_max_z(anchor)->0,
        resolved_target(
            Some(key),
            index,
            layouts_before.insert(index[key], AnchorPlacement { rect, z_order: subtree_max_z(anchor) }),
        ) matches Some(t) && t.scroll_anchor == ScrollAnchor::FollowsContent && t.anchor_z_order
            == subtree_max_z(anchor),
{
    let layouts = layouts_before.insert(
        index[key],
        AnchorPlacement { rect, z_order: subtree_max_z(anchor) },
    );
    let resolved = resolved_target(Some(key), index, layouts)->0;
    assert(layouts.contains_key(index[key]));
    assert(resolved.anchor_z_order == subtree_max_z(anchor));
    let lift = overlay_lift(subtree_min_z(overlay_before), resolved.anchor_z_order);
    lemma_offset_moves_extremes(overlay_after, overlay_before, lift, anchor_to(resolved.scroll_anchor));
    let m = subtree_min_z(overlay_before)->0;
    let z = subtree_max_z(anchor)->0;
    assert(sat_add(z, 1) == z + 1);
    if m < z + 1 {
        assert(sat_add(m, lift) == z + 1);
    } else {
        assert(lift == 0);
        assert(sat_add(m, lift) == m);
    }
}

} // verus!
