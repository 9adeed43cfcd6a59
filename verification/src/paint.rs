//! Paint primitives that layout hands to the renderer, and the checks on local paint input.
use crate::error::DocumentError;
use vstd::prelude::*;

verus! {

/// Layer a primitive is drawn on within its block: backgrounds, then content, then
/// foreground decorations.
#[derive(Clone, Copy, Debug, PartialEq, Eq, Structural)]
pub enum RenderLayer {
    Background,
    Content,
    Foreground,
}

/// A filled rectangle: origin, size, color and layer. `N` is the coordinate type and `C`
/// the color type.
#[derive(Debug)]
pub struct RectCmd<N, C> {
    pub pos: (N, N),
    pub size: (N, N),
    pub color: C,
    pub layer: RenderLayer,
}

/// The background rectangle of a block: the block's own rectangle in its background
/// color, on the background layer; none when the block has no background color.
pub fn block_background_rect<N: Copy, C: Copy>(
    pos: (N, N),
    size: (N, N),
    background_color: Option<C>,
) -> (rect: Option<RectCmd<N, C>>)
    ensures
        rect is Some <==> background_color is Some,
        rect is Some ==> rect->0 == (RectCmd {
            pos,
            size,
            color: background_color->0,
            layer: RenderLayer::Background,
        }),
{
    match background_color {
        Some(color) => Some(RectCmd { pos, size, color, layer: RenderLayer::Background }),
        None => None,
    }
}

/// One decoration rectangle of a text run.
#[derive(Clone, Copy, Debug, PartialEq, Eq, Structural)]
pub enum Decoration {
    Background,
    Underline,
    Strikethrough,
}

impl Decoration {
    /// The layer a decoration is drawn on: backgrounds behind the glyphs, lines over them.
    pub fn layer(self) -> (layer: RenderLayer)
        ensures
            layer == (if self == Decoration::Background {
                RenderLayer::Background
            } else {
                RenderLayer::Foreground
            }),
    {
        match self {
            Decoration::Background => RenderLayer::Background,
            Decoration::Underline => RenderLayer::Foreground,
            Decoration::Strikethrough => RenderLayer::Foreground,
        }
    }
}

/// The decorations of a run, in drawing order.
pub open spec fn run_decoration_seq(
    has_width: bool,
    has_background: bool,
    underline: bool,
    strikethrough: bool,
) -> Seq<Decoration> {
    if !has_width {
        Seq::empty()
    } else {
        (if has_background { seq![Decoration::Background] } else { Seq::empty() })
            + (if underline { seq![Decoration::Underline] } else { Seq::empty() })
            + (if strikethrough { seq![Decoration::Strikethrough] } else { Seq::empty() })
    }
}

/// Which decoration rectangles a finished run emits, in order: a run of no width emits
/// none; otherwise its background (when it has a background color), then its underline,
/// then its strikethrough, each when the run's style asks for it.
pub fn run_decorations(
    has_width: bool,
    has_background: bool,
    underline: bool,
    strikethrough: bool,
) -> (decorations: Vec<Decoration>)
    ensures
        decorations@ == run_decoration_seq(has_width, has_background, underline, strikethrough),
        decorations_follow_flags(decorations@, has_width, has_background, underline, strikethrough),
{
    proof {
        lemma_decorations_follow_flags(has_width, has_background, underline, strikethrough);
    }
    let mut decorations: Vec<Decoration> = Vec::new();
    if has_width {
        if has_background {
            decorations.push(Decoration::Background);
        }
        if underline {
            decorations.push(Decoration::Underline);
        }
        if strikethrough {
            decorations.push(Decoration::Strikethrough);
        }
    }
    proof {
        assert(decorations@ =~= run_decoration_seq(
            has_width,
            has_background,
            underline,
            strikethrough,
        ));
    }
    decorations
}

/// Drawing rank of a decoration: background first, then underline, then strikethrough.
pub open spec fn decoration_rank(decoration: Decoration) -> int {
    match decoration {
        Decoration::Background => 0,
        Decoration::Underline => 1,
        Decoration::Strikethrough => 2,
    }
}

/// Each decoration appears exactly when the run has width and its own flag is set, at most
/// once, and in drawing rank order.
pub open spec fn decorations_follow_flags(
    decorations: Seq<Decoration>,
    has_width: bool,
    has_background: bool,
    underline: bool,
    strikethrough: bool,
) -> bool {
    &&& decorations.contains(Decoration::Background) <==> (has_width && has_background)
    &&& decorations.contains(Decoration::Underline) <==> (has_width && underline)
    &&& decorations.contains(Decoration::Strikethrough) <==> (has_width && strikethrough)
    &&& forall|i: int, j: int|
        0 <= i < j < decorations.len() ==> decoration_rank(#[trigger] decorations[i])
            < decoration_rank(#[trigger] decorations[j])
}

/// A run's decorations depend each on its own style flag alone: the background on the
/// background color, the underline on the underline flag, the strikethrough on the
/// strikethrough flag (and all on the run having width); none repeats, and they come in
/// drawing order.
pub proof fn lemma_decorations_follow_flags(
    has_width: bool,
    has_background: bool,
    underline: bool,
    strikethrough: bool,
)
    ensures
        decorations_follow_flags(
            run_decoration_seq(has_width, has_background, underline, strikethrough),
            has_width,
            has_background,
            underline,
            strikethrough,
        ),
{
    let d = run_decoration_seq(has_width, has_background, underline, strikethrough);
    let bg: Seq<Decoration> = if has_width && has_background { seq![Decoration::Background] } else { Seq::empty() };
    let ul: Seq<Decoration> = if has_width && underline { seq![Decoration::Underline] } else { Seq::empty() };
    let st: Seq<Decoration> = if has_width && strikethrough { seq![Decoration::Strikethrough] } else { Seq::empty() };
    assert(d =~= bg + ul + st);
    assert forall|x: Decoration| d.contains(x) <==> (bg.contains(x) || ul.contains(x) || st.contains(x)) by {
        if d.contains(x) {
            let i = choose|i: int| 0 <= i < d.len() && d[i] == x;
            if i < bg.len() {
                assert(bg[i] == x);
            } else if i < bg.len() + ul.len() {
                assert(ul[i - bg.len()] == x);
            } else {
                assert(st[i - bg.len() - ul.len()] == x);
            }
        }
        if bg.contains(x) {
            let i = choose|i: int| 0 <= i < bg.len() && bg[i] == x;
            assert(d[i] == x);
        }
        if ul.contains(x) {
            let i = choose|i: int| 0 <= i < ul.len() && ul[i] == x;
            assert(d[bg.len() + i] == x);
        }
        if st.contains(x) {
            let i = choose|i: int| 0 <= i < st.len() && st[i] == x;
            assert(d[bg.len() + ul.len() + i] == x);
        }
    }
    if has_width && has_background {
        assert(bg[0] == Decoration::Background);
    }
    if has_width && underline {
        assert(ul[0] == Decoration::Underline);
    }
    if has_width && strikethrough {
        assert(st[0] == Decoration::Strikethrough);
    }
    assert forall|i: int, j: int| 0 <= i < j < d.len() implies decoration_rank(#[trigger] d[i])
        < decoration_rank(#[trigger] d[j]) by {
        assert(forall|k: int| 0 <= k < bg.len() ==> decoration_rank(#[trigger] d[k]) == 0);
        assert(forall|k: int| bg.len() <= k < bg.len() + ul.len() ==> decoration_rank(#[trigger] d[k]) == 1);
        assert(forall|k: int| bg.len() + ul.len() <= k < d.len() ==> decoration_rank(#[trigger] d[k]) == 2);
    }
}

/// One verb of a vector path. `P` is what the path holds for each point.
#[derive(Clone, Copy, Debug, PartialEq, Eq, Structural)]
pub enum PathVerb<P> {
    MoveTo { to: P },
    LineTo { to: P },
    QuadTo { ctrl: P, to: P },
    CubicTo { ctrl1: P, ctrl2: P, to: P },
    Close,
}

/// Whether every point of a verb is usable, given for each point whether it is.
pub open spec fn verb_points_valid(verb: PathVerb<bool>) -> bool {
    match verb {
        PathVerb::MoveTo { to } => to,
        PathVerb::LineTo { to } => to,
        PathVerb::QuadTo { ctrl, to } => ctrl && to,
        PathVerb::CubicTo { ctrl1, ctrl2, to } => ctrl1 && ctrl2 && to,
        PathVerb::Close => true,
    }
}

/// The points a verb holds, in order, each given by whether it is usable.
pub open spec fn verb_points(verb: PathVerb<bool>) -> Seq<bool> {
    match verb {
        PathVerb::MoveTo { to } => seq![to],
        PathVerb::LineTo { to } => seq![to],
        PathVerb::QuadTo { ctrl, to } => seq![ctrl, to],
        PathVerb::CubicTo { ctrl1, ctrl2, to } => seq![ctrl1, ctrl2, to],
        PathVerb::Close => Seq::empty(),
    }
}

/// A verb is valid exactly when every point it holds is usable; a verb without points is
/// always valid.
pub proof fn lemma_verb_valid_iff_all_points(verb: PathVerb<bool>)
    ensures
        verb_points_valid(verb) <==> forall|i: int| 0 <= i < verb_points(verb).len() ==> #[trigger] verb_points(verb)[i],
{
    let pts = verb_points(verb);
    if verb_points_valid(verb) {
        assert forall|i: int| 0 <= i < pts.len() implies #[trigger] pts[i] by {}
    } else {
        match verb {
            PathVerb::MoveTo { to } => { assert(!pts[0]); },
            PathVerb::LineTo { to } => { assert(!pts[0]); },
            PathVerb::QuadTo { ctrl, to } => { if !ctrl { assert(!pts[0]); } else { assert(!pts[1]); } },
            PathVerb::CubicTo { ctrl1, ctrl2, to } => {
                if !ctrl1 { assert(!pts[0]); } else if !ctrl2 { assert(!pts[1]); } else { assert(!pts[2]); }
            },
            PathVerb::Close => {},
        }
    }
}

/// Checks one path verb whose points are given by whether each has finite coordinates:
/// the verb is accepted when all of its points are, and refused as invalid local paint
/// otherwise.
pub fn validate_path_verb(verb: &PathVerb<bool>) -> (result: Result<(), DocumentError>)
    ensures
        result is Ok <==> verb_points_valid(*verb),
        result is Ok <==> forall|i: int|
            0 <= i < verb_points(*verb).len() ==> #[trigger] verb_points(*verb)[i],
        result is Err ==> result->Err_0 == DocumentError::InvalidLocalPaint,
{
    proof {
        lemma_verb_valid_iff_all_points(*verb);
    }
    let valid = match *verb {
        PathVerb::MoveTo { to } => to,
        PathVerb::LineTo { to } => to,
        PathVerb::QuadTo { ctrl, to } => ctrl && to,
        PathVerb::CubicTo { ctrl1, ctrl2, to } => ctrl1 && ctrl2 && to,
        PathVerb::Close => true,
    };
    if valid {
        Ok(())
    } else {
        Err(DocumentError::InvalidLocalPaint)
    }
}

} // verus!
