//! A board coordinate pair (`x` = file 0..8, `y` = row 0..8 from the top).
use vstd::prelude::*;

verus! {

#[derive(Copy, Clone, Debug, PartialEq, Eq, Structural)]
pub struct Point {
    pub x: i8,
    pub y: i8,
}

impl Point {
    pub fn new(x: i8, y: i8) -> (r: Point)
        ensures
            r.x == x,
            r.y == y,
    {
        Point { x, y }
    }

    /// File and row of a square index; rows beyond the `i8` range are held at 127.
    pub fn from_index(index: usize) -> (r: Point)
        ensures
            r.x == index % 8,
            r.y == if index / 8 > 127 { 127 } else { index / 8 },
    {
        let x = (index % 8) as i8;
        let row = index / 8;
        let y: i8 = if row > 127 { 127 } else { row as i8 };
        Point::new(x, y)
    }

    /// The offset from `self` to `other`.
    pub fn difference(&self, other: Point) -> (r: Point)
        requires
            i8::MIN <= other.x - self.x <= i8::MAX,
            i8::MIN <= other.y - self.y <= i8::MAX,
        ensures
            r.x == other.x - self.x,
            r.y == other.y - self.y,
    {
        Point::new(other.x - self.x, other.y - self.y)
    }

    /// The componentwise distance between `self` and `other`.
    pub fn abs_difference(&self, other: Point) -> (r: Point)
        requires
            i8::MIN < other.x - self.x <= i8::MAX,
            i8::MIN < other.y - self.y <= i8::MAX,
        ensures
            r.x == if other.x >= self.x { other.x - self.x } else { self.x - other.x },
            r.y == if other.y >= self.y { other.y - self.y } else { self.y - other.y },
    {
        let dx = other.x - self.x;
        let dy = other.y - self.y;
        Point::new(if dx < 0 { -dx } else { dx }, if dy < 0 { -dy } else { dy })
    }

    /// Whether `b` lies in the rectangle spanned from corner `a` to corner `c`
    /// (both included).
    pub fn point_inbetween(a: Point, b: Point, c: Point) -> (r: bool)
        ensures
            r == (a.x <= b.x <= c.x && a.y <= b.y <= c.y),
    {
        let mut x: i16 = a.x as i16;
        while x <= c.x as i16
            invariant
                a.x <= x <= 128,
                x <= c.x + 1 || x == a.x,
                !(a.x <= b.x < x && a.y <= b.y <= c.y),
            decreases 128 - x,
        {
            let mut y: i16 = a.y as i16;
            while y <= c.y as i16
                invariant
                    a.x <= x <= c.x,
                    a.y <= y <= 128,
                    !(a.x <= b.x < x && a.y <= b.y <= c.y),
                    !(b.x == x && a.y <= b.y < y),
                decreases 128 - y,
            {
                if b.x as i16 == x && b.y as i16 == y {
                    return true;
                }
                y = y + 1;
            }
            x = x + 1;
        }
        false
    }
}

} // verus!
