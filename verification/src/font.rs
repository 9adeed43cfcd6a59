//! Font selection outcomes reported by the prepare stage.
use vstd::prelude::*;

verus! {

/// The font requested by a style and the font that the rasterizer resolved for it.
#[derive(Clone, Copy, Debug, PartialEq, Eq, Structural)]
pub struct FontSelection {
    pub requested_font_id: u32,
    pub resolved_font_id: u32,
}

/// Whether a font fallback warning is due for this selection: it is when the resolved
/// font differs from the requested one.
pub fn log_font_fallback(selection: FontSelection) -> (warn: bool)
    ensures
        warn == (selection.requested_font_id != selection.resolved_font_id),
{
    selection.requested_font_id != selection.resolved_font_id
}

} // verus!
