//! Boxes of the layout tree, in whole layout units.
use vstd::prelude::*;

verus! {

/// An opaque, stable handle naming one node of a [`crate::layout::LayoutTree`].
#[derive(Clone, Copy, Debug, PartialEq, Eq, Hash, Structural)]
pub struct NodeKey {
    pub id: u64,
}

/// A position: relative to a parent, or to the root.
#[derive(Clone, Copy, Debug, PartialEq, Eq, Structural)]
pub struct Point {
    pub x: i64,
    pub y: i64,
}

/// A width and a height.
#[derive(Clone, Copy, Debug, PartialEq, Eq, Structural)]
pub struct Extent {
    pub width: i64,
    pub height: i64,
}

/// The box of one node: its paint order, its size and its location.
#[derive(Clone, Copy, Debug, PartialEq, Eq, Structural)]
pub struct LayoutBox {
    pub order: u32,
    pub size: Extent,
    pub location: Point,
}

/// `rel` moved by the location of `origin`: the box in the space in which `origin` is given.
pub open spec fn translated(rel: LayoutBox, origin: LayoutBox) -> LayoutBox {
    LayoutBox {
        order: rel.order,
        size: rel.size,
        location: Point {
            x: (rel.location.x + origin.location.x) as i64,
            y: (rel.location.y + origin.location.y) as i64,
        },
    }
}

/// Whether `translated(rel, origin)` is exact, with no coordinate out of `i64`.
pub open spec fn fits_translated(rel: LayoutBox, origin: LayoutBox) -> bool {
    i64::MIN <= rel.location.x + origin.location.x <= i64::MAX
        && i64::MIN <= rel.location.y + origin.location.y <= i64::MAX
}

/// Moves `rel` by the location of `origin`, or gives `None` where a coordinate leaves `i64`.
pub fn translate(rel: LayoutBox, origin: LayoutBox) -> (r: Option<LayoutBox>)
    ensures
        match r {
            Some(b) => fits_translated(rel, origin) && b == translated(rel, origin),
            None => !fits_translated(rel, origin),
        },
{
    match (rel.location.x.checked_add(origin.location.x), rel.location.y.checked_add(origin.location.y)) {
        (Some(x), Some(y)) => Some(LayoutBox { order: rel.order, size: rel.size, location: Point { x, y } }),
        _ => None,
    }
}

} // verus!
