//! Width modes of stacked children.
use vstd::prelude::*;

verus! {

/// Direction in which a stack places its children.
#[derive(Clone, Copy, Debug, Default, PartialEq, Eq, Structural)]
pub enum FlowDirection {
    #[default]
    Vertical,
    Horizontal,
}

/// Cross-axis alignment of a block inside its stack.
#[derive(Clone, Copy, Debug, Default, PartialEq, Eq, Structural)]
pub enum Align {
    Start,
    Center,
    End,
    #[default]
    Stretch,
}

/// How a stacked child's width is resolved.
#[derive(Clone, Copy, Debug, PartialEq, Eq, Structural)]
pub enum ChildWidthMode {
    Default,
    VerticalFitContent,
    VerticalStretch,
}

/// Children of vertical stacks stretch across the stack, or fit their content when they
/// align otherwise; children of horizontal stacks keep the default mode.
pub fn child_width_mode(direction: FlowDirection, align_self: Align) -> (mode: ChildWidthMode)
    ensures
        mode == match direction {
            FlowDirection::Vertical => if align_self == Align::Stretch {
                ChildWidthMode::VerticalStretch
            } else {
                ChildWidthMode::VerticalFitContent
            },
            FlowDirection::Horizontal => ChildWidthMode::Default,
        },
{
    match direction {
        FlowDirection::Vertical => {
            if align_self == Align::Stretch {
                ChildWidthMode::VerticalStretch
            } else {
                ChildWidthMode::VerticalFitContent
            }
        },
        FlowDirection::Horizontal => ChildWidthMode::Default,
    }
}

} // verus!
