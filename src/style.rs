//! The computed style values that flow construction reads.

use vstd::prelude::*;

verus! {

/// The computed value of `display`.
#[derive(Clone, Copy, Debug, PartialEq, Eq, Structural)]
pub enum Display {
    Inline,
    Block,
    ListItem,
    InlineBlock,
    Table,
    InlineTable,
    TableRowGroup,
    TableHeaderGroup,
    TableFooterGroup,
    TableRow,
    TableColumnGroup,
    TableColumn,
    TableCell,
    TableCaption,
    DisplayNone,
}

/// The computed value of `float`.
#[derive(Clone, Copy, Debug, PartialEq, Eq, Structural)]
pub enum Float {
    FloatNone,
    Left,
    Right,
}

/// The computed value of `position`.
#[derive(Clone, Copy, Debug, PartialEq, Eq, Structural)]
pub enum Position {
    Static,
    Relative,
    Absolute,
    Fixed,
}

/// The computed value of `white-space`.
#[derive(Clone, Copy, Debug, PartialEq, Eq, Structural)]
pub enum WhiteSpace {
    Normal,
    Pre,
    Nowrap,
}

/// The side a floated box is pushed to.
#[derive(Clone, Copy, Debug, PartialEq, Eq, Structural)]
pub enum FloatKind {
    Left,
    Right,
}

/// The part of a node's computed style that flow construction consults.
#[derive(Clone, Copy, Debug, PartialEq, Eq, Structural)]
pub struct Style {
    pub display: Display,
    pub float: Float,
    pub position: Position,
    pub white_space: WhiteSpace,
}

/// A box with any `position` but `static` establishes a containing block for
/// its absolutely positioned descendants.
pub open spec fn spec_is_positioned(p: Position) -> bool {
    p != Position::Static
}

/// A box that leaves normal flow and looks for its containing block above.
pub open spec fn spec_is_out_of_flow(p: Position) -> bool {
    p == Position::Absolute || p == Position::Fixed
}

impl Position {
    pub fn is_positioned(&self) -> (r: bool)
        ensures
            r == spec_is_positioned(*self),
    {
        !matches!(self, Position::Static)
    }

    pub fn is_out_of_flow(&self) -> (r: bool)
        ensures
            r == spec_is_out_of_flow(*self),
    {
        matches!(self, Position::Absolute | Position::Fixed)
    }
}

/// The float kind a non-`none` `float` value gives.
pub open spec fn spec_float_kind(f: Float) -> FloatKind {
    match f {
        Float::Right => FloatKind::Right,
        _ => FloatKind::Left,
    }
}

impl FloatKind {
    /// The float kind of a floated box.
    pub fn from_property(f: Float) -> (r: FloatKind)
        requires
            f != Float::FloatNone,
        ensures
            r == spec_float_kind(f),
    {
        match f {
            Float::Right => FloatKind::Right,
            _ => FloatKind::Left,
        }
    }
}

} // verus!
