//! Plot-side data: display colors, viewport bounds, and the gating of
//! pointer gestures.

use vstd::prelude::*;

verus! {

/// An RGBA display color.
#[derive(Clone, Copy, PartialEq, Eq, Structural, Debug)]
pub struct Color {
    pub r: u8,
    pub g: u8,
    pub b: u8,
    pub a: u8,
}

/// The fully transparent color, which marks an entry that has not yet
/// been assigned a display color.
pub open spec fn transparent_color() -> Color {
    Color { r: 0, g: 0, b: 0, a: 0 }
}

impl Color {
    /// The fully transparent color.
    pub fn transparent() -> (c: Color)
        ensures
            c == transparent_color(),
    {
        Color { r: 0, g: 0, b: 0, a: 0 }
    }

    /// Whether this entry still awaits its display color.
    pub fn is_unassigned(&self) -> (r: bool)
        ensures
            r == (*self == transparent_color()),
    {
        self.r == 0 && self.g == 0 && self.b == 0 && self.a == 0
    }
}

/// The plot viewport bounds, each the bit pattern of a binary32 value
/// as the rendering side reports it. Spans and projections are computed
/// where the numeric values live; the session only carries the bounds.
#[derive(Clone, Copy, PartialEq, Eq, Structural, Debug)]
pub struct PlotDimensions {
    pub x0: u32,
    pub x1: u32,
    pub y0: u32,
    pub y1: u32,
}

impl Default for PlotDimensions {
    /// All bounds zero.
    fn default() -> (r: Self)
        ensures
            r == (PlotDimensions { x0: 0u32, x1: 0u32, y0: 0u32, y1: 0u32 }),
    {
        PlotDimensions { x0: 0, x1: 0, y0: 0, y1: 0 }
    }
}

/// One input sample of the modifier keys and pointer, as read once per
/// frame while the primary button is down.
#[derive(Clone, Copy, PartialEq, Eq, Structural, Debug)]
pub struct GestureInput {
    /// The y-offset modifier is held together with the primary button.
    pub d_down: bool,
    /// The scale modifier is held together with the primary button.
    pub f_down: bool,
    /// The x-offset modifier is held together with the primary button.
    pub g_down: bool,
    /// The pointer moved horizontally.
    pub dx_nonzero: bool,
    /// The pointer moved vertically.
    pub dy_nonzero: bool,
}

/// The scale gesture applies: scale modifier without the y-offset
/// modifier, and vertical movement.
pub open spec fn scale_gesture_spec(i: GestureInput) -> bool {
    !i.d_down && i.f_down && i.dy_nonzero
}

/// The y-offset gesture applies: y-offset modifier without the scale
/// modifier, and vertical movement.
pub open spec fn yoffset_gesture_spec(i: GestureInput) -> bool {
    i.d_down && !i.f_down && i.dy_nonzero
}

/// The x-offset gesture applies: x-offset modifier and horizontal
/// movement.
pub open spec fn xoffset_gesture_spec(i: GestureInput) -> bool {
    i.g_down && i.dx_nonzero
}

/// The toolkit's native plot drag stays enabled only while no gesture
/// modifier is held.
pub open spec fn native_drag_allowed_spec(i: GestureInput) -> bool {
    !(i.f_down || i.d_down || i.g_down)
}

impl GestureInput {
    /// Decides `scale_gesture_spec`.
    pub fn scale_gesture(&self) -> (r: bool)
        ensures
            r == scale_gesture_spec(*self),
    {
        !self.d_down && self.f_down && self.dy_nonzero
    }

    /// Decides `yoffset_gesture_spec`.
    pub fn yoffset_gesture(&self) -> (r: bool)
        ensures
            r == yoffset_gesture_spec(*self),
    {
        self.d_down && !self.f_down && self.dy_nonzero
    }

    /// Decides `xoffset_gesture_spec`.
    pub fn xoffset_gesture(&self) -> (r: bool)
        ensures
            r == xoffset_gesture_spec(*self),
    {
        self.g_down && self.dx_nonzero
    }

    /// Decides `native_drag_allowed_spec`.
    pub fn native_drag_allowed(&self) -> (r: bool)
        ensures
            r == native_drag_allowed_spec(*self),
    {
        !(self.f_down || self.d_down || self.g_down)
    }
}

} // verus!
