//! The rectangular layout region and the layout modes.

use vstd::prelude::*;
use crate::MAX_DIM;

verus! {

/// Writing direction of a region. Only horizontal lines are laid out;
/// the direction is handed through to the shaping and rendering stages.
#[derive(Clone, Copy, Debug, PartialEq, Eq, Structural)]
pub enum Direction {
    Ltr,
    Rtl,
    Ttb,
    Btt,
}

/// How inter-word slack is treated.
#[derive(Clone, Copy, Debug, PartialEq, Eq, Structural)]
pub enum JustifyMode {
    /// Natural line ends; separators keep the base separator width.
    Ragged,
    /// Non-last lines are filled to the right edge by widening the
    /// separators evenly.
    Unragged,
}

/// A layout region. Origin, sizes and line advance are in 26.6 units
/// measured from the top left of the page.
#[derive(Debug)]
pub struct Region {
    pub x: i64,
    pub y: i64,
    pub width: i64,
    pub height: i64,
    /// Baseline-to-baseline distance.
    pub lineskip: i64,
    /// BCP-47 short language tag, handed through to the shaping stage.
    pub language: Vec<char>,
    pub direction: Direction,
    /// Fill color as a `#RRGGBB` text.
    pub color: Vec<char>,
}

/// The mathematical value of a region.
pub ghost struct RegionModel {
    pub x: int,
    pub y: int,
    pub width: int,
    pub height: int,
    pub lineskip: int,
    pub language: Seq<char>,
    pub direction: Direction,
    pub color: Seq<char>,
}

impl View for Region {
    type V = RegionModel;

    open spec fn view(&self) -> RegionModel {
        RegionModel {
            x: self.x as int,
            y: self.y as int,
            width: self.width as int,
            height: self.height as int,
            lineskip: self.lineskip as int,
            language: self.language@,
            direction: self.direction,
            color: self.color@,
        }
    }
}

impl RegionModel {
    /// Geometry bounds under which all position arithmetic stays exact.
    pub open spec fn wf(self) -> bool {
        0 <= self.x <= MAX_DIM && 0 <= self.y <= MAX_DIM && 0 <= self.width <= MAX_DIM
            && 0 <= self.height <= MAX_DIM && 0 <= self.lineskip <= MAX_DIM
    }

    /// The x-coordinate of the region's right edge.
    pub open spec fn right(self) -> int {
        self.x + self.width
    }

    /// The y-coordinate of the region's bottom edge.
    pub open spec fn bottom(self) -> int {
        self.y + self.height
    }
}

} // verus!
