//! Turning traces into text for the terminal.
pub mod colors;
pub mod tree;
pub mod laws;

use vstd::prelude::*;

use crate::model::trace::Trace;

verus! {

/// Renders traces as text appended to `out`.
pub trait Renderer {
    fn render(&self, trace: &Trace, out: &mut String);
}

} // verus!
