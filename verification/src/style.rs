//! Plain style data: the closed sets of values that element styles choose
//! from.  Parsing style sheets into these values is a host concern.

use vstd::prelude::*;

verus! {

/// How a background image moves when the element scrolls.
#[derive(Copy, Clone, Eq, PartialEq, Structural, Debug)]
pub enum BackgroundAttachment {
    Scroll,
    Fixed,
    Local,
}

/// How a background layer blends into the layers below it.
#[derive(Copy, Clone, Eq, PartialEq, Structural, Debug)]
pub enum BackgroundBlendMode {
    Normal,
    Multiply,
    Screen,
    Overlay,
    Darken,
    Lighten,
    ColorDodge,
    ColorBurn,
    HardLight,
    SoftLight,
    Difference,
    Exclusion,
    Hue,
    Saturation,
    Color,
    Luminosity,
}

/// How a background image repeats along one axis.
#[derive(Copy, Clone, Eq, PartialEq, Structural, Debug)]
pub enum BackgroundRepeat {
    Repeat,
    Space,
    Round,
    NoRepeat,
}

/// The box that a background paints or positions against.
#[derive(Copy, Clone, Eq, PartialEq, Structural, Debug)]
pub enum BackgroundBox {
    BorderBox,
    PaddingBox,
    ContentBox,
}

/// How the middle parts of a border image fill their sides.
#[derive(Copy, Clone, Eq, PartialEq, Structural, Debug)]
pub enum BorderImageRepeat {
    Stretch,
    Repeat,
    Round,
    Space,
}

/// The line style of one border side.
#[derive(Copy, Clone, Eq, PartialEq, Structural, Debug)]
pub enum BorderStyle {
    /// No border is drawn (the `none` keyword).
    NoBorder,
    Hidden,
    Dotted,
    Dashed,
    Solid,
    Double,
    Groove,
    Ridge,
    Inset,
    Outset,
}

/// Where a radial gradient's ending shape stops.
#[derive(Copy, Clone, Eq, PartialEq, Structural, Debug)]
pub enum RadialGradientExtent {
    ClosestCorner,
    ClosestSide,
    FarthestCorner,
    FarthestSide,
}

/// What happens to content that leaves the element's box.
#[derive(Copy, Clone, Eq, PartialEq, Structural, Debug)]
pub enum Overflow {
    Visible,
    Hidden,
    Scroll,
    Auto,
}

} // verus!
