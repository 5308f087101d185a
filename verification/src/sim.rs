//! Plain data types shared with the simulation harness around the core:
//! drive commands, occupancy-grid dimensions, and grid cell coordinates.

use vstd::prelude::*;

verus! {

/// A drive command for the simulated differential-drive robot.
#[derive(Clone, Copy, Debug, PartialEq, Eq, Structural)]
pub enum RobotCommand {
    TurnLeft,
    TurnRight,
    Forward,
    Back,
    Stop,
}

/// Size of an occupancy grid, in cells.
#[derive(Clone, Copy, Debug, PartialEq, Eq, Structural)]
pub struct Dimension {
    pub width: usize,
    pub height: usize,
}

/// A cell coordinate within an occupancy grid.
#[derive(Clone, Copy, Debug, PartialEq, Eq, Structural)]
pub struct PixelCoord {
    pub x: usize,
    pub y: usize,
}

impl Dimension {
    /// Whether a cell coordinate addresses a cell of a grid of this size.
    pub fn contains(&self, p: &PixelCoord) -> (b: bool)
        ensures
            b == (p.x < self.width && p.y < self.height),
    {
        p.x < self.width && p.y < self.height
    }
}

} // verus!
