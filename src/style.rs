//! Text styles: the colour attributes a run carries.

use vstd::prelude::*;

verus! {

/// The named colours that the standard and bright palette codes select.
#[derive(Clone, Copy, Debug, PartialEq, Eq, Structural)]
pub enum NamedColor {
    Black,
    Red,
    Green,
    Yellow,
    Blue,
    Magenta,
    Cyan,
    White,
    Gray,
    LightCoral,
    LightGreen,
    LightYellow,
    LightSkyBlue,
    Violet,
    LightCyan,
}

/// Value of a colour attribute.
#[derive(Clone, Copy, Debug, PartialEq, Eq, Structural)]
pub enum Color {
    /// Explicitly reset to the renderer's default.
    Unset,
    Named(NamedColor),
    Rgb(u8, u8, u8),
}

/// A mapping from attribute name to value. Each attribute has its own
/// slot, so names are unique; `None` means the attribute is absent.
#[derive(Clone, Copy, Debug, PartialEq, Eq, Structural)]
pub struct Style {
    /// The `color` attribute (foreground).
    pub color: Option<Color>,
    /// The `background-color` attribute.
    pub background: Option<Color>,
}

/// The style with no attribute.
pub open spec fn no_style() -> Style {
    Style { color: None, background: None }
}

/// The style `over` laid on `base`: attributes present in `over` win.
pub open spec fn merged(base: Style, over: Style) -> Style {
    Style {
        color: if over.color is Some { over.color } else { base.color },
        background: if over.background is Some { over.background } else { base.background },
    }
}

impl Style {
    /// The style with no attribute.
    pub fn neutral() -> (s: Style)
        ensures
            s == no_style(),
    {
        Style { color: None, background: None }
    }

    /// Lays `over` on this style.
    pub fn merge(&self, over: &Style) -> (s: Style)
        ensures
            s == merged(*self, *over),
    {
        Style {
            color: if over.color.is_some() { over.color } else { self.color },
            background: if over.background.is_some() { over.background } else { self.background },
        }
    }
}

} // verus!
