//! Keyword-valued style properties.
use vstd::prelude::*;

verus! {

/// CSS overflow mode of one axis.
#[derive(Debug, Clone, Copy, PartialEq, Eq)]
pub enum OverflowMode {
    Visible,
    Hidden,
    Scroll,
    Auto,
}

impl Default for OverflowMode {
    fn default() -> (m: Self)
        ensures
            m is Visible,
    {
        OverflowMode::Visible
    }
}

/// CSS background-size: stretch to fill (the default), cover, or contain.
#[derive(Debug, Clone, Copy, PartialEq, Eq)]
pub enum BackgroundSize {
    Stretch,
    Cover,
    Contain,
}

impl Default for BackgroundSize {
    fn default() -> (m: Self)
        ensures
            m is Stretch,
    {
        BackgroundSize::Stretch
    }
}

/// Horizontal text alignment.
#[derive(Debug, Clone, Copy, PartialEq, Eq)]
pub enum TextAlign {
    Left,
    Center,
    Right,
}

/// The axis may scroll: overflow is `scroll` or `auto`.
pub fn capable(ovf: OverflowMode) -> (b: bool)
    ensures
        b == (ovf is Scroll || ovf is Auto),
{
    match ovf {
        OverflowMode::Scroll | OverflowMode::Auto => true,
        _ => false,
    }
}

} // verus!
