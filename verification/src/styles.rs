//! Style building blocks that carry no measurements.

use vstd::prelude::*;

verus! {

/// A style value together with whether it changed since it was last applied.
pub struct StyleComponent<S> {
    pub(crate) style: S,
    pub(crate) dirty: bool,
}

impl<S> StyleComponent<S> {
    /// The style value.
    pub closed spec fn value(&self) -> S {
        self.style
    }

    /// The value changed since it was last applied.
    pub closed spec fn is_dirty(&self) -> bool {
        self.dirty
    }

    /// A new component is marked as changed.
    pub fn new(c: S) -> (r: Self)
        ensures
            r.value() == c,
            r.is_dirty(),
    {
        StyleComponent { style: c, dirty: true }
    }

    /// The style value.
    pub fn get(&self) -> (r: &S)
        ensures
            *r == self.value(),
    {
        &self.style
    }

    /// The style value, for changing it in place; the component is marked as changed.
    pub fn get_mut(&mut self) -> (r: &mut S)
        ensures
            *r == old(self).value(),
            final(self).value() == *final(r),
            final(self).is_dirty(),
    {
        self.dirty = true;
        &mut self.style
    }

    /// Replaces the style value; the component is marked as changed.
    pub fn set(&mut self, style: S)
        ensures
            final(self).value() == style,
            final(self).is_dirty(),
    {
        self.dirty = true;
        self.style = style;
    }

    /// Whether the value changed since it was last applied.
    pub fn dirty(&self) -> (r: bool)
        ensures
            r == self.is_dirty(),
    {
        self.dirty
    }

    /// Marks the value as applied.
    pub fn clear_dirty(&mut self)
        ensures
            final(self).value() == old(self).value(),
            !final(self).is_dirty(),
    {
        self.dirty = false;
    }
}

/// Where inside its parent an element is placed.
#[derive(Debug, Clone, Copy, PartialEq, Eq, Structural)]
pub enum PositionValues {
    Top,
    TopLeft,
    TopRight,
    Center,
    Left,
    Right,
    Bottom,
    BottomLeft,
    BottomRight,
}

/// What a position is measured against.
#[derive(Debug, Clone, Copy, PartialEq, Eq, Structural)]
pub enum Parent {
    ViewPort,
    Container,
}

/// Returns size of a specified side/equation of the measured unit.
#[derive(Debug, Clone, Copy, PartialEq, Eq, Structural)]
pub enum Side {
    /// Returns width of the measured unit
    Width,
    /// Returns height of the measured unit
    Height,
    /// Returns the diameter of the measured unit
    Diameter,
    /// Returns result of `max(Width, Height)`
    Max,
    /// Returns result of `min(Width, Height)`
    Min,
    /// Returns result of `Width + Height`
    Sum,
    /// Returns result of `Width - Height`
    Distance,
    /// Returns result of `(Width + Height) / 2`
    Midpoint,
}

/// An operation on two measurements.
#[derive(Debug, Clone, Copy, PartialEq, Eq, Structural)]
pub enum Op {
    Add,
    Sub,
    Mul,
    Div,
    Mod,
    Min,
    Max,
    Pow,
}

/// A function of one measurement.
#[derive(Debug, Clone, Copy, PartialEq, Eq, Structural)]
pub enum Functions {
    Round,
    Floor,
    Ceil,
    Sqrt,
    Abs,
}

} // verus!
