//! Rectangles on a sample grid.

use vstd::prelude::*;

verus! {

/// A rectangle of samples.
#[derive(Clone, Copy, Debug, PartialEq, Eq, Structural)]
pub struct Area {
    pub x: usize,
    pub y: usize,
    pub width: usize,
    pub height: usize,
}

impl Area {
    /// The rectangle whose top left sample is at `(x, y)`.
    pub fn new(x: usize, y: usize, width: usize, height: usize) -> (a: Self)
        ensures
            a == (Area { x, y, width, height }),
    {
        Area { x, y, width, height }
    }

    /// Whether a sample lies in the rectangle.
    pub open spec fn holds(self, x: int, y: int) -> bool {
        &&& self.x <= x < self.x + self.width
        &&& self.y <= y < self.y + self.height
    }

    /// The part of the rectangle that lies on a grid of `height x width` samples.
    pub open spec fn clipped(self, height: int, width: int) -> Area {
        Area {
            height: clipped_len(self.y as int, self.height as int, height) as usize,
            width: clipped_len(self.x as int, self.width as int, width) as usize,
            ..self
        }
    }

    /// The part of the rectangle that lies on a grid of `height x width` samples.
    pub fn clip(&self, height: usize, width: usize) -> (a: Area)
        ensures
            a == self.clipped(height as int, width as int),
            a.height > 0 ==> a.y + a.height <= height,
            a.width > 0 ==> a.x + a.width <= width,
    {
        Area {
            x: self.x,
            y: self.y,
            width: clip_len(self.x, self.width, width),
            height: clip_len(self.y, self.height, height),
        }
    }
}

/// How much of `[at, at + len)` lies below `size`.
pub open spec fn clipped_len(at: int, len: int, size: int) -> int {
    if at >= size {
        0
    } else if at + len <= size {
        len
    } else {
        size - at
    }
}

fn clip_len(at: usize, len: usize, size: usize) -> (n: usize)
    ensures
        n == clipped_len(at as int, len as int, size as int),
{
    if at >= size {
        0
    } else if len <= size - at {
        len
    } else {
        size - at
    }
}

} // verus!
