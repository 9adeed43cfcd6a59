//! Stacking order of laid-out block subtrees.
//!
//! A laid-out block is summarized by its z-order, whether it paints a background, its
//! scroll anchoring, and what its content would draw. Only blocks that draw something
//! count when the lowest or highest z-order of a subtree is taken.
use vstd::prelude::*;

verus! {

broadcast use vstd::seq_lib::group_seq_properties;

/// How a block moves when the document scrolls.
#[derive(Clone, Copy, Debug, PartialEq, Eq, Structural)]
pub enum ScrollAnchor {
    FollowsContent,
    FixedToViewport,
}

/// What an inline atom's payload draws.
#[derive(Clone, Copy, Debug, PartialEq, Eq, Structural)]
pub enum AtomPayloadSummary {
    Chip { glyph_count: usize },
    Icon,
    Image,
    Custom { paint_count: usize },
}

/// What one run of a laid-out line draws.
#[derive(Clone, Copy, Debug, PartialEq, Eq, Structural)]
pub enum RunSummary {
    Text { glyph_count: usize, decoration_count: usize },
    Atom { has_background: bool, has_border: bool, payload: AtomPayloadSummary },
}

/// What a block embed draws.
#[derive(Clone, Copy, Debug, PartialEq, Eq, Structural)]
pub enum EmbedSummary {
    Image,
    Path,
    Custom { paint_count: usize },
}

/// The content of a laid-out block.
#[derive(Debug)]
pub enum ZContent {
    Stack { children: Vec<ZBlock> },
    Paragraph { lines: Vec<Vec<RunSummary>> },
    Embed { kind: EmbedSummary },
}

/// A laid-out block as stacking reads it.
#[derive(Debug)]
pub struct ZBlock {
    pub z_order: u32,
    pub has_background: bool,
    pub scroll_anchor: ScrollAnchor,
    pub content: ZContent,
}

pub open spec fn run_draws(run: RunSummary) -> bool {
    match run {
        RunSummary::Text { glyph_count, decoration_count } => glyph_count > 0 || decoration_count > 0,
        RunSummary::Atom { has_background, has_border, payload } => has_background || has_border
            || match payload {
            AtomPayloadSummary::Chip { glyph_count } => glyph_count > 0,
            AtomPayloadSummary::Icon => true,
            AtomPayloadSummary::Image => true,
            AtomPayloadSummary::Custom { paint_count } => paint_count > 0,
        },
    }
}

/// Whether the block itself draws something to the scene.
pub open spec fn materializes(block: ZBlock) -> bool {
    match block.content {
        ZContent::Stack { .. } => block.has_background,
        ZContent::Paragraph { lines } => block.has_background || exists|i: int, j: int|
            0 <= i < lines@.len() && 0 <= j < lines@[i]@.len() && run_draws(#[trigger] lines@[i]@[j]),
        ZContent::Embed { kind } => block.has_background || match kind {
            EmbedSummary::Custom { paint_count } => paint_count > 0,
            _ => true,
        },
    }
}

pub open spec fn min_opt(a: Option<u32>, b: Option<u32>) -> Option<u32> {
    match (a, b) {
        (Some(x), Some(y)) => Some(if x <= y { x } else { y }),
        (Some(x), None) => Some(x),
        (None, Some(y)) => Some(y),
        (None, None) => None,
    }
}

pub open spec fn max_opt(a: Option<u32>, b: Option<u32>) -> Option<u32> {
    match (a, b) {
        (Some(x), Some(y)) => Some(if x >= y { x } else { y }),
        (Some(x), None) => Some(x),
        (None, Some(y)) => Some(y),
        (None, None) => None,
    }
}

pub open spec fn own_z(block: ZBlock) -> Option<u32> {
    if materializes(block) {
        Some(block.z_order)
    } else {
        None
    }
}

/// The lowest z-order among the blocks of the subtree that draw something.
pub open spec fn subtree_min_z(block: ZBlock) -> Option<u32>
    decreases block,
{
    match block.content {
        ZContent::Stack { children } => min_opt(own_z(block), list_min_z(children@)),
        _ => own_z(block),
    }
}

pub open spec fn list_min_z(blocks: Seq<ZBlock>) -> Option<u32>
    decreases blocks,
{
    if blocks.len() == 0 {
        None
    } else {
        min_opt(list_min_z(blocks.drop_last()), subtree_min_z(blocks.last()))
    }
}

/// The highest z-order among the blocks of the subtree that draw something.
pub open spec fn subtree_max_z(block: ZBlock) -> Option<u32>
    decreases block,
{
    match block.content {
        ZContent::Stack { children } => max_opt(own_z(block), list_max_z(children@)),
        _ => own_z(block),
    }
}

pub open spec fn list_max_z(blocks: Seq<ZBlock>) -> Option<u32>
    decreases blocks,
{
    if blocks.len() == 0 {
        None
    } else {
        max_opt(list_max_z(blocks.drop_last()), subtree_max_z(blocks.last()))
    }
}

/// Whether any run of the lines draws something.
fn lines_draw(lines: &Vec<Vec<RunSummary>>) -> (draws: bool)
    ensures
        draws == exists|i: int, j: int|
            0 <= i < lines@.len() && 0 <= j < lines@[i]@.len() && run_draws(#[trigger] lines@[i]@[j]),
{
    let mut i: usize = 0;
    while i < lines.len()
        invariant
            i <= lines@.len(),
            forall|a: int, b: int|
                0 <= a < i && 0 <= b < lines@[a]@.len() ==> !run_draws(#[trigger] lines@[a]@[b]),
        decreases lines.len() - i,
    {
        let line = &lines[i];
        let mut j: usize = 0;
        while j < line.len()
            invariant
                i < lines@.len(),
                *line == lines@[i as int],
                j <= line@.len(),
                forall|a: int, b: int|
                    0 <= a < i && 0 <= b < lines@[a]@.len() ==> !run_draws(#[trigger] lines@[a]@[b]),
                forall|b: int| 0 <= b < j ==> !run_draws(#[trigger] lines@[i as int]@[b]),
            decreases line.len() - j,
        {
            let draws = match line[j] {
                RunSummary::Text { glyph_count, decoration_count } => glyph_count > 0 || decoration_count
                    > 0,
                RunSummary::Atom { has_background, has_border, payload } => has_background || has_border
                    || match payload {
                    AtomPayloadSummary::Chip { glyph_count } => glyph_count > 0,
                    AtomPayloadSummary::Icon => true,
                    AtomPayloadSummary::Image => true,
                    AtomPayloadSummary::Custom { paint_count } => paint_count > 0,
                },
            };
            if draws {
                assert(run_draws(lines@[i as int]@[j as int]));
                return true;
            }
            j += 1;
        }
        i += 1;
    }
    false
}

/// Whether the block itself draws something to the scene.
pub fn block_materializes(block: &ZBlock) -> (draws: bool)
    ensures
        draws == materializes(*block),
        block.has_background ==> draws,
        block.content matches ZContent::Embed { kind } ==> (kind is Custom || draws),
{
    proof {
        lemma_backgrounds_and_plain_embeds_draw(*block);
    }
    match &block.content {
        ZContent::Stack { .. } => block.has_background,
        ZContent::Paragraph { lines } => block.has_background || lines_draw(lines),
        ZContent::Embed { kind } => block.has_background || match kind {
            EmbedSummary::Custom { paint_count } => *paint_count > 0,
            EmbedSummary::Image => true,
            EmbedSummary::Path => true,
        },
    }
}

fn combine_min(a: Option<u32>, b: Option<u32>) -> (m: Option<u32>)
    ensures
        m == min_opt(a, b),
{
    match (a, b) {
        (Some(x), Some(y)) => Some(if x <= y { x } else { y }),
        (Some(x), None) => Some(x),
        (None, Some(y)) => Some(y),
        (None, None) => None,
    }
}

fn combine_max(a: Option<u32>, b: Option<u32>) -> (m: Option<u32>)
    ensures
        m == max_opt(a, b),
{
    match (a, b) {
        (Some(x), Some(y)) => Some(if x >= y { x } else { y }),
        (Some(x), None) => Some(x),
        (None, Some(y)) => Some(y),
        (None, None) => None,
    }
}

/// The lowest z-order among the blocks of the subtree that draw something.
pub fn subtree_min_materialized_z(block: &ZBlock) -> (z: Option<u32>)
    ensures
        z == subtree_min_z(*block),
    decreases *block,
{
    let self_z = if block_materializes(block) {
        Some(block.z_order)
    } else {
        None
    };
    match &block.content {
        ZContent::Stack { children } => {
            let mut current = self_z;
            let mut i: usize = 0;
            while i < children.len()
                invariant
                    i <= children@.len(),
                    block.content matches ZContent::Stack { children: c } && c == *children,
                    current == min_opt(self_z, list_min_z(children@.take(i as int))),
                decreases children.len() - i,
            {
                proof {
                    assert(decreases_to!(*children => children@));
                    assert(decreases_to!(children@ => children@[i as int]));
                    assert(children@.take(i + 1).drop_last() =~= children@.take(i as int));
                }
                let child = subtree_min_materialized_z(&children[i]);
                current = combine_min(current, child);
                i += 1;
            }
            assert(children@.take(children@.len() as int) =~= children@);
            current
        },
        _ => self_z,
    }
}

/// The highest z-order among the blocks of the subtree that draw something.
pub fn subtree_max_materialized_z(block: &ZBlock) -> (z: Option<u32>)
    ensures
        z == subtree_max_z(*block),
    decreases *block,
{
    let self_z = if block_materializes(block) {
        Some(block.z_order)
    } else {
        None
    };
    match &block.content {
        ZContent::Stack { children } => {
            let mut current = self_z;
            let mut i: usize = 0;
            while i < children.len()
                invariant
                    i <= children@.len(),
                    block.content matches ZContent::Stack { children: c } && c == *children,
                    current == max_opt(self_z, list_max_z(children@.take(i as int))),
                decreases children.len() - i,
            {
                proof {
                    assert(decreases_to!(*children => children@));
                    assert(decreases_to!(children@ => children@[i as int]));
                    assert(children@.take(i + 1).drop_last() =~= children@.take(i as int));
                }
                let child = subtree_max_materialized_z(&children[i]);
                current = combine_max(current, child);
                i += 1;
            }
            assert(children@.take(children@.len() as int) =~= children@);
            current
        },
        _ => self_z,
    }
}

/// `z + delta`, saturating at `u32::MAX`.
pub open spec fn sat_add(z: u32, delta: u32) -> u32 {
    if z + delta > u32::MAX {
        u32::MAX
    } else {
        (z + delta) as u32
    }
}

/// `out` is `inp` with `zf` applied to every z-order and `af` to every scroll anchor of the
/// subtree; everything else is unchanged.
pub open spec fn mapped_subtree(
    out: ZBlock,
    inp: ZBlock,
    zf: spec_fn(u32) -> u32,
    af: spec_fn(ScrollAnchor) -> ScrollAnchor,
) -> bool
    decreases inp,
{
    &&& out.z_order == zf(inp.z_order)
    &&& out.has_background == inp.has_background
    &&& out.scroll_anchor == af(inp.scroll_anchor)
    &&& match inp.content {
        ZContent::Stack { children } => {
            &&& out.content matches ZContent::Stack { children: c }
            &&& mapped_list(c@, children@, zf, af)
        },
        _ => out.content == inp.content,
    }
}

pub open spec fn mapped_list(
    out: Seq<ZBlock>,
    inp: Seq<ZBlock>,
    zf: spec_fn(u32) -> u32,
    af: spec_fn(ScrollAnchor) -> ScrollAnchor,
) -> bool
    decreases inp,
{
    &&& out.len() == inp.len()
    &&& inp.len() > 0 ==> {
        &&& mapped_list(out.drop_last(), inp.drop_last(), zf, af)
        &&& mapped_subtree(out.last(), inp.last(), zf, af)
    }
}

pub open spec fn offset_by(delta: u32) -> spec_fn(u32) -> u32 {
    |z: u32| sat_add(z, delta)
}

pub open spec fn same_z() -> spec_fn(u32) -> u32 {
    |z: u32| z
}

pub open spec fn same_anchor() -> spec_fn(ScrollAnchor) -> ScrollAnchor {
    |a: ScrollAnchor| a
}

pub open spec fn anchor_to(anchor: ScrollAnchor) -> spec_fn(ScrollAnchor) -> ScrollAnchor {
    |a: ScrollAnchor| anchor
}

/// Takes the children out of a stack, leaving an empty embed behind.
fn take_content(block: &mut ZBlock) -> (content: ZContent)
    ensures
        content == old(block).content,
        final(block).z_order == old(block).z_order,
        final(block).has_background == old(block).has_background,
        final(block).scroll_anchor == old(block).scroll_anchor,
{
    let mut content = ZContent::Embed { kind: EmbedSummary::Image };
    std::mem::swap(&mut content, &mut block.content);
    content
}

/// Applies a stamp to every block of a subtree: adds `delta` to each z-order (saturating),
/// and sets each scroll anchor to `anchor` when one is given.
fn stamp_subtree(block: &mut ZBlock, delta: u32, anchor: Option<ScrollAnchor>)
    ensures
        mapped_subtree(
            *final(block),
            *old(block),
            offset_by(delta),
            match anchor {
                Some(a) => anchor_to(a),
                None => same_anchor(),
            },
        ),
    decreases *old(block),
{
    let ghost af = match anchor {
        Some(a) => anchor_to(a),
        None => same_anchor(),
    };
    block.z_order = block.z_order.saturating_add(delta);
    if let Some(a) = anchor {
        block.scroll_anchor = a;
    }
    let content = take_content(block);
    match content {
        ZContent::Stack { mut children } => {
            let ghost old_vec = children;
            let ghost old_children = children@;
            proof {
                assert(decreases_to!(*old(block) => old(block).content));
                assert(decreases_to!(old(block).content => old_vec));
                assert(decreases_to!(old_vec => old_vec@));
            }
            let mut i: usize = 0;
            while i < children.len()
                invariant
                    i <= children@.len(),
                    children@.len() == old_children.len(),
                    old_vec@ == old_children,
                    decreases_to!(*old(block) => old_vec@),
                    mapped_list(children@.take(i as int), old_children.take(i as int), offset_by(delta), af),
                    forall|k: int| i <= k < children@.len() ==> children@[k] == old_children[k],
                    af == match anchor {
                        Some(a) => anchor_to(a),
                        None => same_anchor(),
                    },
                decreases children.len() - i,
            {
                proof {
                    assert(decreases_to!(old_vec@ => old_vec@[i as int]));
                }
                let ghost before = children@;
                stamp_subtree(&mut children[i], delta, anchor);
                proof {
                    assert(children@.take(i + 1).drop_last() =~= children@.take(i as int));
                    assert(old_children.take(i + 1).drop_last() =~= old_children.take(i as int));
                    assert(children@.take(i as int) =~= before.take(i as int));
                }
                i += 1;
            }
            proof {
                assert(children@.take(children@.len() as int) =~= children@);
                assert(old_children.take(old_children.len() as int) =~= old_children);
            }
            block.content = ZContent::Stack { children };
        },
        other => {
            block.content = other;
        },
    }
}

/// Adds `delta` to the z-order of every block of the subtree, saturating.
pub fn offset_subtree_z(block: &mut ZBlock, delta: u32)
    ensures
        mapped_subtree(*final(block), *old(block), offset_by(delta), same_anchor()),
{
    stamp_subtree(block, delta, None);
}

/// Sets the scroll anchor of every block of the subtree.
pub fn set_subtree_scroll_anchor(block: &mut ZBlock, scroll_anchor: ScrollAnchor)
    ensures
        mapped_subtree(*final(block), *old(block), offset_by(0), anchor_to(scroll_anchor)),
{
    stamp_subtree(block, 0, Some(scroll_anchor));
}

pub open spec fn opt_sat(z: Option<u32>, delta: u32) -> Option<u32> {
    match z {
        Some(z) => Some(sat_add(z, delta)),
        None => None,
    }
}

/// Offsetting a subtree keeps which blocks draw, and moves its lowest and highest drawn
/// z-orders by the same saturating offset.
pub proof fn lemma_offset_moves_extremes(
    out: ZBlock,
    inp: ZBlock,
    delta: u32,
    af: spec_fn(ScrollAnchor) -> ScrollAnchor,
)
    requires
        mapped_subtree(out, inp, offset_by(delta), af),
    ensures
        materializes(out) == materializes(inp),
        subtree_min_z(out) == opt_sat(subtree_min_z(inp), delta),
        subtree_max_z(out) == opt_sat(subtree_max_z(inp), delta),
    decreases inp,
{
    match inp.content {
        ZContent::Stack { children } => {
            if let ZContent::Stack { children: c } = out.content {
                lemma_offset_list_extremes(c@, children@, delta, af);
            }
        },
        _ => {},
    }
}

proof fn lemma_offset_list_extremes(
    out: Seq<ZBlock>,
    inp: Seq<ZBlock>,
    delta: u32,
    af: spec_fn(ScrollAnchor) -> ScrollAnchor,
)
    requires
        mapped_list(out, inp, offset_by(delta), af),
    ensures
        list_min_z(out) == opt_sat(list_min_z(inp), delta),
        list_max_z(out) == opt_sat(list_max_z(inp), delta),
    decreases inp,
{
    if inp.len() > 0 {
        lemma_offset_list_extremes(out.drop_last(), inp.drop_last(), delta, af);
        lemma_offset_moves_extremes(out.last(), inp.last(), delta, af);
    }
}

/// Raises a subtree so that its lowest drawn z-order is at least `min_z_order`; a subtree
/// that draws nothing, or already sits high enough, is left as it is.
pub fn lift_subtree_above_z(block: &mut ZBlock, min_z_order: u32)
    ensures
        match subtree_min_z(*old(block)) {
            None => *final(block) == *old(block),
            Some(m) => if m >= min_z_order {
                *final(block) == *old(block)
            } else {
                &&& mapped_subtree(
                    *final(block),
                    *old(block),
                    offset_by((min_z_order - m) as u32),
                    same_anchor(),
                )
                &&& subtree_min_z(*final(block)) == Some(min_z_order)
            },
        },
{
    let current_min_z = match subtree_min_materialized_z(block) {
        Some(z) => z,
        None => {
            return;
        },
    };
    let delta = min_z_order.saturating_sub(current_min_z);
    if delta == 0 {
        return;
    }
    offset_subtree_z(block, delta);
    proof {
        lemma_offset_moves_extremes(*block, *old(block), delta, same_anchor());
    }
}

/// Every block of the subtree has the scroll anchor `anchor`.
pub open spec fn subtree_anchored(block: ZBlock, anchor: ScrollAnchor) -> bool
    decreases block,
{
    &&& block.scroll_anchor == anchor
    &&& match block.content {
        ZContent::Stack { children } => list_anchored(children@, anchor),
        _ => true,
    }
}

pub open spec fn list_anchored(blocks: Seq<ZBlock>, anchor: ScrollAnchor) -> bool
    decreases blocks,
{
    blocks.len() > 0 ==> {
        &&& list_anchored(blocks.drop_last(), anchor)
        &&& subtree_anchored(blocks.last(), anchor)
    }
}

proof fn lemma_mapped_anchored(
    out: ZBlock,
    inp: ZBlock,
    zf: spec_fn(u32) -> u32,
    anchor: ScrollAnchor,
)
    requires
        mapped_subtree(out, inp, zf, anchor_to(anchor)),
    ensures
        subtree_anchored(out, anchor),
    decreases inp,
{
    match inp.content {
        ZContent::Stack { children } => {
            if let ZContent::Stack { children: c } = out.content {
                lemma_mapped_list_anchored(c@, children@, zf, anchor);
            }
        },
        _ => {},
    }
}

proof fn lemma_mapped_list_anchored(
    out: Seq<ZBlock>,
    inp: Seq<ZBlock>,
    zf: spec_fn(u32) -> u32,
    anchor: ScrollAnchor,
)
    requires
        mapped_list(out, inp, zf, anchor_to(anchor)),
    ensures
        list_anchored(out, anchor),
    decreases inp,
{
    if inp.len() > 0 {
        lemma_mapped_list_anchored(out.drop_last(), inp.drop_last(), zf, anchor);
        lemma_mapped_anchored(out.last(), inp.last(), zf, anchor);
    }
}

proof fn lemma_compose_stamps(
    out: ZBlock,
    mid: ZBlock,
    inp: ZBlock,
    delta: u32,
    anchor: ScrollAnchor,
)
    requires
        mapped_subtree(mid, inp, offset_by(0), anchor_to(anchor)),
        mapped_subtree(out, mid, offset_by(delta), same_anchor()),
    ensures
        mapped_subtree(out, inp, offset_by(delta), anchor_to(anchor)),
    decreases inp,
{
    match inp.content {
        ZContent::Stack { children } => {
            if let ZContent::Stack { children: m } = mid.content {
                if let ZContent::Stack { children: c } = out.content {
                    lemma_compose_list_stamps(c@, m@, children@, delta, anchor);
                }
            }
        },
        _ => {},
    }
}

proof fn lemma_compose_list_stamps(
    out: Seq<ZBlock>,
    mid: Seq<ZBlock>,
    inp: Seq<ZBlock>,
    delta: u32,
    anchor: ScrollAnchor,
)
    requires
        mapped_list(mid, inp, offset_by(0), anchor_to(anchor)),
        mapped_list(out, mid, offset_by(delta), same_anchor()),
    ensures
        mapped_list(out, inp, offset_by(delta), anchor_to(anchor)),
    decreases inp,
{
    if inp.len() > 0 {
        lemma_compose_list_stamps(out.drop_last(), mid.drop_last(), inp.drop_last(), delta, anchor);
        lemma_compose_stamps(out.last(), mid.last(), inp.last(), delta, anchor);
    }
}

/// How far an overlay whose lowest drawn z-order is `min_z` is raised to draw above a
/// target whose highest drawn z-order is `anchor_z`.
pub open spec fn overlay_lift(min_z: Option<u32>, anchor_z: Option<u32>) -> u32 {
    match (min_z, anchor_z) {
        (Some(m), Some(z)) => if m >= sat_add(z, 1) {
            0
        } else {
            (sat_add(z, 1) - m) as u32
        },
        _ => 0,
    }
}

/// Stacks a laid-out overlay subtree for its resolved target: every block of it takes the
/// target's scroll anchor, and when the target draws at some highest z-order, the overlay
/// is raised so that its lowest drawn z-order is at least one above it (saturating).
pub fn place_overlay(block: &mut ZBlock, scroll_anchor: ScrollAnchor, anchor_z_order: Option<u32>)
    ensures
        mapped_subtree(
            *final(block),
            *old(block),
            offset_by(overlay_lift(subtree_min_z(*old(block)), anchor_z_order)),
            anchor_to(scroll_anchor),
        ),
        subtree_anchored(*final(block), scroll_anchor),
        subtree_min_z(*final(block)) == match (subtree_min_z(*old(block)), anchor_z_order) {
            (Some(m), Some(z)) => Some(if m >= sat_add(z, 1) { m } else { sat_add(z, 1) }),
            (m, _) => m,
        },
        match (subtree_min_z(*final(block)), anchor_z_order) {
            (Some(m), Some(z)) => z < u32::MAX ==> m > z,
            _ => true,
        },
{
    let ghost original = *block;
    set_subtree_scroll_anchor(block, scroll_anchor);
    let ghost anchored = *block;
    proof {
        lemma_offset_moves_extremes(anchored, original, 0, anchor_to(scroll_anchor));
        assert(opt_sat(subtree_min_z(original), 0) == subtree_min_z(original));
    }
    if let Some(anchor_z) = anchor_z_order {
        lift_subtree_above_z(block, anchor_z.saturating_add(1));
        proof {
            if *block == anchored {
                assert(overlay_lift(subtree_min_z(original), anchor_z_order) == 0);
            } else {
                lemma_compose_stamps(
                    *block,
                    anchored,
                    original,
                    overlay_lift(subtree_min_z(original), anchor_z_order),
                    scroll_anchor,
                );
            }
        }
    }
    proof {
        lemma_mapped_anchored(
            *block,
            original,
            offset_by(overlay_lift(subtree_min_z(original), anchor_z_order)),
            scroll_anchor,
        );
    }
}

/// A block with a background always draws, and so does a block embed of an image or a
/// path whatever its background: such an embed's own z-order is then both the lowest and
/// the highest z-order its subtree draws at.
pub proof fn lemma_backgrounds_and_plain_embeds_draw(block: ZBlock)
    ensures
        block.has_background ==> materializes(block),
        block.content matches ZContent::Embed { kind } ==> (kind is Custom || {
            &&& materializes(block)
            &&& subtree_min_z(block) == Some(block.z_order)
            &&& subtree_max_z(block) == Some(block.z_order)
        }),
{
}

/// Which runs draw: a text run draws when it has a glyph or a decoration and not otherwise;
/// an atom run draws when it has a background or a border, or when its payload is an icon,
/// an image, a chip with a glyph, or custom paint with a command; an atom run with none of
/// these draws nothing.
pub proof fn lemma_which_runs_draw(run: RunSummary)
    ensures
        run matches RunSummary::Text { glyph_count, decoration_count } ==> (run_draws(run) <==> (
        glyph_count != 0 || decoration_count != 0)),
        run matches RunSummary::Atom { has_background, has_border, .. } ==> ((has_background
            || has_border) ==> run_draws(run)),
        run matches RunSummary::Atom { payload: AtomPayloadSummary::Icon, .. } ==> run_draws(run),
        run matches RunSummary::Atom { payload: AtomPayloadSummary::Image, .. } ==> run_draws(run),
        run matches RunSummary::Atom { payload: AtomPayloadSummary::Chip { glyph_count }, .. } ==> (
        glyph_count != 0 ==> run_draws(run)),
        run matches RunSummary::Atom { payload: AtomPayloadSummary::Custom { paint_count }, .. } ==> (
        paint_count != 0 ==> run_draws(run)),
        run matches RunSummary::Atom {
            has_background: false,
            has_border: false,
            payload: AtomPayloadSummary::Chip { glyph_count: 0 },
        } ==> !run_draws(run),
        run matches RunSummary::Atom {
            has_background: false,
            has_border: false,
            payload: AtomPayloadSummary::Custom { paint_count: 0 },
        } ==> !run_draws(run),
{
}

/// Which blocks draw by themselves: a stack draws exactly when it has a background (its
/// children count for the subtree, not for it); a paragraph draws when it has a background
/// or one of its runs draws, and not when it has neither; a custom embed draws exactly when
/// it has a background or a paint command.
pub proof fn lemma_which_blocks_draw(block: ZBlock)
    ensures
        block.content is Stack ==> (materializes(block) <==> block.has_background),
        block.content matches ZContent::Embed { kind: EmbedSummary::Custom { paint_count } } ==> (
        materializes(block) <==> (block.has_background || paint_count != 0)),
        block.content matches ZContent::Paragraph { lines } ==> (forall|i: int, j: int|
            0 <= i < lines@.len() && 0 <= j < lines@[i]@.len() && run_draws(#[trigger] lines@[i]@[j])
                ==> materializes(block)),
        block.content matches ZContent::Paragraph { lines } ==> ((!block.has_background && forall|
            i: int,
            j: int,
        | 0 <= i < lines@.len() && 0 <= j < lines@[i]@.len() ==> !run_draws(#[trigger] lines@[i]@[j]))
            ==> !materializes(block)),
{
}

} // verus!
