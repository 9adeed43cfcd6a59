//! Verified core of the stele rich-text layout pipeline.
use vstd::prelude::*;

pub mod bridge;
pub mod document;
pub mod error;
pub mod font;
pub mod line_break;
pub mod line_breaker;
pub mod overlay;
pub mod paint;
pub mod runs;
pub mod solve;
pub mod staging;
pub mod text;
pub mod tree;
pub mod zorder;

verus! {

} // verus!
