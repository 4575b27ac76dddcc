//! Immediate-mode GUI scaffolding.
//!
//! A minimal sketch of an immediate-mode widget pass: the context tracks
//! which widget is hot (under the pointer) and which is active (pressed).
//! Event handling is not wired up, so widgets never report interaction.

use vstd::prelude::*;

verus! {

/// Bookkeeping for one immediate-mode GUI pass.
#[derive(Debug, Default)]
pub struct Context {
    hot: usize,
    active: usize,
}

/// Begin an immediate-mode GUI pass.
pub fn begin() {
}

/// End an immediate-mode GUI pass.
pub fn end() {
}

/// Draw a button with the given caption and report whether it was clicked
/// during this pass.  Events are not routed yet, so no click is ever
/// reported and the context is left as it was.
#[allow(unused_variables)]
pub fn button(ctx: &mut Context, caption: &str) -> (r: bool)
    ensures
        !r,
        *final(ctx) == *old(ctx),
{
    false
}

/// Draw a text label.
#[allow(unused_variables)]
pub fn text(text: &str) {
}

} // verus!
