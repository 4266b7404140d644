//! Integer points and axis-aligned rectangles, and the two ways of halving a
//! rectangle.
//!
//! Halving uses integer division: both halves get `extent / 2` units on the
//! split axis, so a rectangle with an odd extent loses its last row or column.
//! The halves are adjacent, start where the rectangle starts, and keep its
//! whole footprint on the other axis.

use vstd::prelude::*;

verus! {

/// A position on the screen, in whole units.
#[derive(Debug, Clone, Copy, PartialEq, Eq, Structural)]
pub struct Point {
    pub x: i32,
    pub y: i32,
}

impl Point {
    /// The point `(x, y)`.
    pub fn new(x: i32, y: i32) -> (point: Point)
        ensures
            point == (Point { x, y }),
    {
        Point { x, y }
    }
}

/// The direction of the cut that halves a rectangle.
#[derive(Debug, Clone, Copy, PartialEq, Eq, Structural)]
pub enum SplitAxis {
    /// A horizontal cut: a top half above a bottom half.
    Horizontal,
    /// A vertical cut: a left half beside a right half.
    Vertical,
}

impl SplitAxis {
    /// Children at an odd depth lie side by side, children at an even depth
    /// are stacked.
    pub open spec fn spec_for_depth(depth: int) -> SplitAxis {
        if depth % 2 != 0 {
            SplitAxis::Vertical
        } else {
            SplitAxis::Horizontal
        }
    }

    /// The cut that produces children at `depth`.  Cuts alternate from one
    /// level to the next, so that tiles do not degenerate into slivers.
    pub fn for_depth(depth: usize) -> (axis: SplitAxis)
        ensures
            axis == SplitAxis::spec_for_depth(depth as int),
    {
        if depth % 2 != 0 {
            SplitAxis::Vertical
        } else {
            SplitAxis::Horizontal
        }
    }
}

/// Why a rectangle could not be constructed.
#[derive(Debug, Clone, Copy, PartialEq, Eq, Structural)]
pub enum RectError {
    /// The width or the height is negative.
    NegativeExtent,
    /// The bottom right corner does not fit in `i32` coordinates.
    OutOfRange,
}

/// An axis-aligned rectangle, given by its top left and bottom right corners.
///
/// A point belongs to the rectangle when it lies at or after the top left
/// corner and strictly before the bottom right corner, on both axes.
#[derive(Debug, Clone, Copy, PartialEq, Eq, Structural)]
pub struct Rect {
    pub top_left: Point,
    pub bottom_right: Point,
}

impl Rect {
    /// The corners are in order and both extents fit in an `i32`.
    pub open spec fn wf(&self) -> bool {
        &&& 0 <= self.bottom_right.x - self.top_left.x <= i32::MAX
        &&& 0 <= self.bottom_right.y - self.top_left.y <= i32::MAX
    }

    /// The extent from the left edge to the right edge.
    pub open spec fn spec_width(&self) -> int {
        self.bottom_right.x - self.top_left.x
    }

    /// The extent from the top edge to the bottom edge.
    pub open spec fn spec_height(&self) -> int {
        self.bottom_right.y - self.top_left.y
    }

    /// The rectangle with its top left corner at `(x, y)` and the given
    /// extents.
    pub open spec fn spec_new(x: int, y: int, width: int, height: int) -> Rect {
        Rect {
            top_left: Point { x: x as i32, y: y as i32 },
            bottom_right: Point { x: (x + width) as i32, y: (y + height) as i32 },
        }
    }

    /// Whether `point` lies inside the rectangle.
    pub open spec fn spec_contains(&self, point: Point) -> bool {
        &&& self.top_left.x <= point.x < self.bottom_right.x
        &&& self.top_left.y <= point.y < self.bottom_right.y
    }

    /// Whether the rectangle lies inside `outer`, edges included.
    pub open spec fn spec_within(&self, outer: Rect) -> bool {
        &&& outer.top_left.x <= self.top_left.x
        &&& outer.top_left.y <= self.top_left.y
        &&& self.bottom_right.x <= outer.bottom_right.x
        &&& self.bottom_right.y <= outer.bottom_right.y
    }

    /// Whether the rectangle comes before `other` in reading order: it ends
    /// where `other` begins or earlier, from left to right or from top to
    /// bottom.
    pub open spec fn spec_precedes(&self, other: Rect) -> bool {
        ||| self.bottom_right.x <= other.top_left.x
        ||| self.bottom_right.y <= other.top_left.y
    }

    /// The top and the bottom half.
    pub open spec fn spec_split_horizontally(&self) -> (Rect, Rect) {
        let half = self.spec_height() / 2;
        (
            Rect::spec_new(self.top_left.x as int, self.top_left.y as int, self.spec_width(), half),
            Rect::spec_new(self.top_left.x as int, self.top_left.y + half, self.spec_width(), half),
        )
    }

    /// The left and the right half.
    pub open spec fn spec_split_vertically(&self) -> (Rect, Rect) {
        let half = self.spec_width() / 2;
        (
            Rect::spec_new(self.top_left.x as int, self.top_left.y as int, half, self.spec_height()),
            Rect::spec_new(self.top_left.x + half, self.top_left.y as int, half, self.spec_height()),
        )
    }

    /// The two halves that a cut along `axis` gives, the left or top one
    /// first.
    pub open spec fn spec_split(&self, axis: SplitAxis) -> (Rect, Rect) {
        match axis {
            SplitAxis::Horizontal => self.spec_split_horizontally(),
            SplitAxis::Vertical => self.spec_split_vertically(),
        }
    }

    /// What halving along `axis` leaves out: one unit if the extent on the
    /// split axis is odd, nothing otherwise.
    pub open spec fn spec_split_remainder(&self, axis: SplitAxis) -> int {
        match axis {
            SplitAxis::Horizontal => self.spec_height() % 2,
            SplitAxis::Vertical => self.spec_width() % 2,
        }
    }

    /// The part of the rectangle that its two halves along `axis` cover.
    pub open spec fn spec_split_footprint(&self, axis: SplitAxis) -> Rect {
        match axis {
            SplitAxis::Horizontal => Rect::spec_new(
                self.top_left.x as int,
                self.top_left.y as int,
                self.spec_width(),
                self.spec_height() - self.spec_height() % 2,
            ),
            SplitAxis::Vertical => Rect::spec_new(
                self.top_left.x as int,
                self.top_left.y as int,
                self.spec_width() - self.spec_width() % 2,
                self.spec_height(),
            ),
        }
    }

    /// Builds a rectangle from its origin and its extents.  The extents must
    /// not be negative and the far corner must be representable; use
    /// [`Rect::try_new`] where that is not known.
    pub fn new(x: i32, y: i32, width: i32, height: i32) -> (rect: Rect)
        requires
            0 <= width,
            0 <= height,
            x + width <= i32::MAX,
            y + height <= i32::MAX,
        ensures
            rect == Rect::spec_new(x as int, y as int, width as int, height as int),
            rect.wf(),
            rect.top_left == (Point { x, y }),
            rect.spec_width() == width,
            rect.spec_height() == height,
    {
        Rect { top_left: Point { x, y }, bottom_right: Point { x: x + width, y: y + height } }
    }

    /// Builds a rectangle from its origin and its extents, or says why there is
    /// no such rectangle.
    pub fn try_new(x: i32, y: i32, width: i32, height: i32) -> (result: Result<Rect, RectError>)
        ensures
            width < 0 || height < 0 ==> result == Err::<Rect, RectError>(RectError::NegativeExtent),
            0 <= width && 0 <= height && (x + width > i32::MAX || y + height > i32::MAX) ==> result
                == Err::<Rect, RectError>(RectError::OutOfRange),
            0 <= width && 0 <= height && x + width <= i32::MAX && y + height <= i32::MAX
                ==> result == Ok::<Rect, RectError>(
                Rect::spec_new(x as int, y as int, width as int, height as int),
            ),
            result is Ok ==> result->Ok_0.wf(),
    {
        if width < 0 || height < 0 {
            return Err(RectError::NegativeExtent);
        }
        match (x.checked_add(width), y.checked_add(height)) {
            (Some(right), Some(bottom)) => Ok(
                Rect { top_left: Point { x, y }, bottom_right: Point { x: right, y: bottom } },
            ),
            _ => Err(RectError::OutOfRange),
        }
    }

    /// The rectangle of the given extents whose top left corner is the origin.
    pub fn from_dimensions(width: i32, height: i32) -> (rect: Rect)
        requires
            0 <= width,
            0 <= height,
        ensures
            rect == Rect::spec_new(0, 0, width as int, height as int),
            rect.wf(),
            rect.top_left == (Point { x: 0, y: 0 }),
            rect.spec_width() == width,
            rect.spec_height() == height,
    {
        Rect::new(0, 0, width, height)
    }

    /// The extent from the left edge to the right edge.
    pub fn width(&self) -> (width: i32)
        requires
            self.wf(),
        ensures
            width == self.spec_width(),
    {
        self.bottom_right.x - self.top_left.x
    }

    /// The extent from the top edge to the bottom edge.
    pub fn height(&self) -> (height: i32)
        requires
            self.wf(),
        ensures
            height == self.spec_height(),
    {
        self.bottom_right.y - self.top_left.y
    }

    /// Cuts the rectangle into a top and a bottom half of `height / 2` units
    /// each.  The rectangle itself is left as it is.
    pub fn split_horizontally(&self) -> (halves: (Rect, Rect))
        requires
            self.wf(),
        ensures
            halves == self.spec_split_horizontally(),
            halves.0.wf(),
            halves.1.wf(),
    {
        let half_height: i32 = self.height() / 2;
        (
            Rect::new(self.top_left.x, self.top_left.y, self.width(), half_height),
            Rect::new(self.top_left.x, self.top_left.y + half_height, self.width(), half_height),
        )
    }

    /// Cuts the rectangle into a left and a right half of `width / 2` units
    /// each.  The rectangle itself is left as it is.
    pub fn split_vertically(&self) -> (halves: (Rect, Rect))
        requires
            self.wf(),
        ensures
            halves == self.spec_split_vertically(),
            halves.0.wf(),
            halves.1.wf(),
    {
        let half_width: i32 = self.width() / 2;
        (
            Rect::new(self.top_left.x, self.top_left.y, half_width, self.height()),
            Rect::new(self.top_left.x + half_width, self.top_left.y, half_width, self.height()),
        )
    }

    /// Cuts the rectangle in two along `axis`.
    pub fn split(&self, axis: SplitAxis) -> (halves: (Rect, Rect))
        requires
            self.wf(),
        ensures
            halves == self.spec_split(axis),
            halves.0.wf(),
            halves.1.wf(),
    {
        match axis {
            SplitAxis::Horizontal => self.split_horizontally(),
            SplitAxis::Vertical => self.split_vertically(),
        }
    }
}

/// The halves of a horizontal cut keep the rectangle's columns, are
/// `height / 2` units tall each, and lie one directly below the other from the
/// rectangle's top edge on.  Their heights add up to the rectangle's height
/// less the unit that an odd height leaves over.
pub proof fn lemma_split_horizontally_extents(rect: Rect)
    requires
        rect.wf(),
    ensures
        ({
            let (top, bottom) = rect.spec_split_horizontally();
            &&& top.wf() && bottom.wf()
            &&& top.top_left.x == rect.top_left.x && top.bottom_right.x == rect.bottom_right.x
            &&& bottom.top_left.x == rect.top_left.x && bottom.bottom_right.x
                == rect.bottom_right.x
            &&& top.top_left.y == rect.top_left.y
            &&& bottom.top_left.y == top.bottom_right.y
            &&& top.spec_height() == rect.spec_height() / 2
            &&& bottom.spec_height() == rect.spec_height() / 2
            &&& top.spec_height() + bottom.spec_height() == rect.spec_height() - rect.spec_height()
                % 2
            &&& rect.spec_height() % 2 == 0 ==> bottom.bottom_right.y == rect.bottom_right.y
        }),
{
}

/// The halves of a vertical cut keep the rectangle's rows, are `width / 2`
/// units wide each, and lie side by side from the rectangle's left edge on.
/// Their widths add up to the rectangle's width less the unit that an odd
/// width leaves over.
pub proof fn lemma_split_vertically_extents(rect: Rect)
    requires
        rect.wf(),
    ensures
        ({
            let (left, right) = rect.spec_split_vertically();
            &&& left.wf() && right.wf()
            &&& left.top_left.y == rect.top_left.y && left.bottom_right.y == rect.bottom_right.y
            &&& right.top_left.y == rect.top_left.y && right.bottom_right.y == rect.bottom_right.y
            &&& left.top_left.x == rect.top_left.x
            &&& right.top_left.x == left.bottom_right.x
            &&& left.spec_width() == rect.spec_width() / 2
            &&& right.spec_width() == rect.spec_width() / 2
            &&& left.spec_width() + right.spec_width() == rect.spec_width() - rect.spec_width() % 2
            &&& rect.spec_width() % 2 == 0 ==> right.bottom_right.x == rect.bottom_right.x
        }),
{
}

/// The two halves of a rectangle share no point, and together they hold
/// exactly the points of the rectangle's footprint along that axis: all of the
/// rectangle if the extent that is halved is even, all but its last row or
/// column if it is odd.
pub proof fn lemma_split_partitions(rect: Rect, axis: SplitAxis, point: Point)
    requires
        rect.wf(),
    ensures
        ({
            let (first, second) = rect.spec_split(axis);
            &&& !(first.spec_contains(point) && second.spec_contains(point))
            &&& (first.spec_contains(point) || second.spec_contains(point))
                <==> rect.spec_split_footprint(axis).spec_contains(point)
            &&& rect.spec_split_footprint(axis).spec_contains(point) ==> rect.spec_contains(point)
            &&& rect.spec_split_remainder(axis) == 0 ==> rect.spec_split_footprint(axis) == rect
        }),
{
}

/// Both halves of a rectangle lie inside it, and the first comes before the
/// second.
pub proof fn lemma_split_ordered(rect: Rect, axis: SplitAxis)
    requires
        rect.wf(),
    ensures
        ({
            let (first, second) = rect.spec_split(axis);
            &&& first.wf() && second.wf()
            &&& first.spec_within(rect)
            &&& second.spec_within(rect)
            &&& first.spec_precedes(second)
        }),
{
}

/// A rectangle that comes before another shares no point with it, and a
/// rectangle inside another holds none but the other's points.
pub proof fn lemma_precedes_within_points(first: Rect, second: Rect, point: Point)
    ensures
        first.spec_precedes(second) ==> !(first.spec_contains(point) && second.spec_contains(
            point,
        )),
        first.spec_within(second) && first.spec_contains(point) ==> second.spec_contains(point),
{
}

} // verus!
