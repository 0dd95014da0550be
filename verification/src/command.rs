//! Player input: the geometry commands are given in.
use vstd::prelude::*;
use crate::{IVec, max_int, min_int};

verus! {

/// `p` lies in the rectangle with corners `a` and `b`, edges included.
pub open spec fn in_rect_spec(p: IVec, a: IVec, b: IVec) -> bool {
    &&& min_int(a.x as int, b.x as int) <= p.x <= max_int(a.x as int, b.x as int)
    &&& min_int(a.y as int, b.y as int) <= p.y <= max_int(a.y as int, b.y as int)
}

/// Whether `p` lies in the rectangle a command was given over, whichever
/// corners it was dragged between.
pub fn in_rect(p: IVec, a: IVec, b: IVec) -> (r: bool)
    ensures
        r == in_rect_spec(p, a, b),
{
    let (x0, x1) = if a.x < b.x { (a.x, b.x) } else { (b.x, a.x) };
    let (y0, y1) = if a.y < b.y { (a.y, b.y) } else { (b.y, a.y) };
    x0 <= p.x && p.x <= x1 && y0 <= p.y && p.y <= y1
}

} // verus!
