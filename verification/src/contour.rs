//! Integer geometry for detected map regions: a labelled connected
//! region summarised by its bounding box and pixel count, as handed to
//! the engine by the detection front end.

use vstd::prelude::*;

verus! {

/// An axis-aligned pixel rectangle.
#[derive(Debug, Clone, Copy, PartialEq, Eq, Structural)]
pub struct BoundingBox {
    pub x: u32,
    pub y: u32,
    pub width: u32,
    pub height: u32,
}

/// A labelled connected region of a bitmap, summarised by its bounding
/// box and the number of pixels it covers.
#[derive(Debug, Clone, Copy, PartialEq, Eq, Structural)]
pub struct Contour {
    pub label: u32,
    pub min_x: u32,
    pub min_y: u32,
    pub max_x: u32,
    pub max_y: u32,
    pub pixel_count: u32,
}

impl Contour {
    /// A region's box is non-degenerate and small enough that widths
    /// and centers stay within the pixel coordinate range.
    pub open spec fn wf(self) -> bool {
        &&& self.min_x <= self.max_x < u32::MAX
        &&& self.min_y <= self.max_y < u32::MAX
        &&& self.min_x + self.max_x <= u32::MAX
        &&& self.min_y + self.max_y <= u32::MAX
    }

    /// The width of the bounding box, in pixels (inclusive bounds).
    pub fn width(&self) -> (r: u32)
        requires
            self.wf(),
        ensures
            r == self.max_x - self.min_x + 1,
    {
        self.max_x - self.min_x + 1
    }

    /// The height of the bounding box, in pixels (inclusive bounds).
    pub fn height(&self) -> (r: u32)
        requires
            self.wf(),
        ensures
            r == self.max_y - self.min_y + 1,
    {
        self.max_y - self.min_y + 1
    }

    /// The number of pixels the region covers.
    pub fn area(&self) -> (r: u32)
        ensures
            r == self.pixel_count,
    {
        self.pixel_count
    }

    /// The center of the bounding box.
    pub fn center(&self) -> (r: (u32, u32))
        requires
            self.wf(),
        ensures
            r.0 == (self.min_x + self.max_x) / 2,
            r.1 == (self.min_y + self.max_y) / 2,
    {
        ((self.min_x + self.max_x) / 2, (self.min_y + self.max_y) / 2)
    }

    /// The bounding box as a rectangle.
    pub fn bounding_box(&self) -> (r: BoundingBox)
        requires
            self.wf(),
        ensures
            r == (BoundingBox {
                x: self.min_x,
                y: self.min_y,
                width: (self.max_x - self.min_x + 1) as u32,
                height: (self.max_y - self.min_y + 1) as u32,
            }),
    {
        BoundingBox {
            x: self.min_x,
            y: self.min_y,
            width: self.max_x - self.min_x + 1,
            height: self.max_y - self.min_y + 1,
        }
    }
}

} // verus!
