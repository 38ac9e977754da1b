//! Pairs of numbers and rectangles of pixels.

use vstd::prelude::*;
use crate::error::{Error, Value, Required};
use crate::file::attributes::I32Box2;

verus! {

/// A pair of an x and a y value: a position, a size or a pair of level indices.
#[derive(Debug, Clone, Copy, PartialEq, Eq)]
pub struct Vec2<T>(pub T, pub T);

impl<T: Copy> Vec2<T> {
    /// The first value.
    pub fn x(self) -> (r: T)
        ensures
            r == self.0,
    {
        self.0
    }

    /// The second value.
    pub fn y(self) -> (r: T)
        ensures
            r == self.1,
    {
        self.1
    }
}

impl Vec2<usize> {
    /// The number of pixels in a rectangle of this width and height.
    pub open spec fn spec_area(self) -> nat {
        (self.0 * self.1) as nat
    }

    /// The number of pixels in a rectangle of this width and height,
    /// or `None` if it is more than `usize` can hold.
    pub fn checked_area(self) -> (r: Option<usize>)
        ensures
            r == if self.spec_area() <= usize::MAX {
                Some(self.spec_area() as usize)
            } else {
                None
            },
    {
        self.0.checked_mul(self.1)
    }

    /// The number of pixels in a rectangle of this width and height.
    pub fn area(self) -> (r: usize)
        requires
            self.spec_area() <= usize::MAX,
        ensures
            r == self.spec_area(),
    {
        self.0 * self.1
    }
}

/// A rectangle of pixels in the plane: the position of its top left pixel
/// and its width and height.
#[derive(Debug, Clone, Copy, PartialEq, Eq)]
pub struct IntRect {
    pub position: Vec2<i32>,
    pub size: Vec2<usize>,
}

impl IntRect {
    /// The empty rectangle at the origin.
    pub fn zero() -> (r: IntRect)
        ensures
            r == (IntRect { position: Vec2(0i32, 0i32), size: Vec2(0usize, 0usize) }),
    {
        IntRect { position: Vec2(0, 0), size: Vec2(0, 0) }
    }

    /// The rectangle of the given position and size.
    pub fn new(position: Vec2<i32>, size: Vec2<usize>) -> (r: IntRect)
        ensures
            r == (IntRect { position, size }),
    {
        IntRect { position, size }
    }

    /// Whether the rectangle holds a pixel and the coordinates of all its
    /// pixels are signed 32-bit numbers, so that it can stand in a file.
    pub open spec fn fits_box(self) -> bool {
        &&& self.size.0 >= 1
        &&& self.size.1 >= 1
        &&& self.position.0 + self.size.0 - 1 <= i32::MAX
        &&& self.position.1 + self.size.1 - 1 <= i32::MAX
    }

    /// The box between the first and the last pixel of the rectangle.
    pub open spec fn spec_to_box(self) -> I32Box2 {
        I32Box2 {
            x_min: self.position.0,
            y_min: self.position.1,
            x_max: (self.position.0 + self.size.0 - 1) as i32,
            y_max: (self.position.1 + self.size.1 - 1) as i32,
        }
    }

    /// The rectangle of the pixels of a box, both corners included.
    pub open spec fn spec_from_box(bounds: I32Box2) -> IntRect {
        IntRect {
            position: Vec2(bounds.x_min, bounds.y_min),
            size: Vec2(
                (bounds.x_max - bounds.x_min + 1) as usize,
                (bounds.y_max - bounds.y_min + 1) as usize,
            ),
        }
    }

    /// Whether the box is that of a rectangle that holds a pixel and
    /// whose size is not more than `usize` can hold.
    pub open spec fn is_box_of_rect(bounds: I32Box2) -> bool {
        &&& bounds.is_valid()
        &&& bounds.x_max - bounds.x_min < usize::MAX
        &&& bounds.y_max - bounds.y_min < usize::MAX
    }

    /// The error for a rectangle that cannot stand in a file.
    pub open spec fn box_error() -> Error {
        Error::InvalidContent {
            what: Value::Attribute("box2i"),
            required: Required::Exact("at least one pixel and coordinates of 32 bits"),
        }
    }

    /// The box between the first and the last pixel of the rectangle, if
    /// the rectangle can stand in a file.
    pub fn to_box(&self) -> (r: Result<I32Box2, Error>)
        ensures
            r == if self.fits_box() {
                Ok::<I32Box2, Error>(self.spec_to_box())
            } else {
                Err::<I32Box2, Error>(IntRect::box_error())
            },
    {
        if self.size.0 < 1 || self.size.1 < 1 || self.size.0 as u64 > 0x1_0000_0000
            || self.size.1 as u64 > 0x1_0000_0000 {
            return Err(
                Error::InvalidContent {
                    what: Value::Attribute("box2i"),
                    required: Required::Exact("at least one pixel and coordinates of 32 bits"),
                },
            );
        }
        let x_max = self.position.0 as i64 + self.size.0 as i64 - 1;
        let y_max = self.position.1 as i64 + self.size.1 as i64 - 1;
        if x_max > i32::MAX as i64 || y_max > i32::MAX as i64 {
            return Err(
                Error::InvalidContent {
                    what: Value::Attribute("box2i"),
                    required: Required::Exact("at least one pixel and coordinates of 32 bits"),
                },
            );
        }
        Ok(
            I32Box2 {
                x_min: self.position.0,
                y_min: self.position.1,
                x_max: x_max as i32,
                y_max: y_max as i32,
            },
        )
    }

    /// The rectangle of the pixels of a box, if the box is valid and the
    /// size of the rectangle is not more than `usize` can hold.
    pub fn from_box(bounds: I32Box2) -> (r: Result<IntRect, Error>)
        ensures
            r == if IntRect::is_box_of_rect(bounds) {
                Ok::<IntRect, Error>(IntRect::spec_from_box(bounds))
            } else {
                Err::<IntRect, Error>(IntRect::box_error())
            },
    {
        if bounds.x_min > bounds.x_max || bounds.y_min > bounds.y_max {
            return Err(
                Error::InvalidContent {
                    what: Value::Attribute("box2i"),
                    required: Required::Exact("at least one pixel and coordinates of 32 bits"),
                },
            );
        }
        let width = bounds.x_max as i64 - bounds.x_min as i64 + 1;
        let height = bounds.y_max as i64 - bounds.y_min as i64 + 1;
        if width as u64 > usize::MAX as u64 || height as u64 > usize::MAX as u64 {
            return Err(
                Error::InvalidContent {
                    what: Value::Attribute("box2i"),
                    required: Required::Exact("at least one pixel and coordinates of 32 bits"),
                },
            );
        }
        Ok(
            IntRect {
                position: Vec2(bounds.x_min, bounds.y_min),
                size: Vec2(width as usize, height as usize),
            },
        )
    }

    /// A rectangle that can stand in a file is the rectangle of its box.
    pub proof fn lemma_box_round_trip(self)
        requires
            self.fits_box(),
        ensures
            self.spec_to_box().is_valid(),
            IntRect::spec_from_box(self.spec_to_box()) == self,
    {
    }
}

} // verus!
