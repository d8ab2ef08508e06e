use vstd::prelude::*;

verus! {

/// A rectangular room footprint in grid coordinates: origin corner `(x, y)`
/// plus extents `(w, h)`, and whether the room is designated safe
/// (spawn-eligible).  Rooms never touch the outer border of the grid.
#[derive(Clone, Copy, PartialEq, Eq, Structural, Debug)]
pub struct Room {
    pub x: usize,
    pub y: usize,
    pub w: usize,
    pub h: usize,
    pub safe: bool,
}

/// The cell `(x, y)` lies inside the room's footprint.
pub open spec fn room_contains(r: Room, x: int, y: int) -> bool {
    &&& r.x <= x < r.x + r.w
    &&& r.y <= y < r.y + r.h
}

/// Two rooms overlap iff their rectangles intersect as open intervals on both
/// axes; edge-touching rectangles do not count as overlapping.
pub open spec fn rooms_overlap(a: Room, b: Room) -> bool {
    &&& vstd::math::max(a.x as int, b.x as int) < vstd::math::min(a.x + a.w, b.x + b.w)
    &&& vstd::math::max(a.y as int, b.y as int) < vstd::math::min(a.y + a.h, b.y + b.h)
}

/// The room keeps a one-cell margin from every edge of a `width` by `height`
/// grid.
pub open spec fn room_margin_ok(r: Room, width: int, height: int) -> bool {
    &&& 1 <= r.x
    &&& 1 <= r.y
    &&& r.x + r.w <= width - 1
    &&& r.y + r.h <= height - 1
}

/// A cell lying in both rooms witnesses that they overlap.
pub proof fn lemma_shared_cell_overlap(a: Room, b: Room, x: int, y: int)
    requires
        room_contains(a, x, y),
        room_contains(b, x, y),
    ensures
        rooms_overlap(a, b),
{
}

/// Overlap is symmetric in its two rooms.
pub proof fn lemma_overlap_symmetric(a: Room, b: Room)
    ensures
        rooms_overlap(a, b) == rooms_overlap(b, a),
{
}

/// Decides the overlap predicate on two rooms.
pub fn overlaps(a: &Room, b: &Room) -> (r: bool)
    requires
        a.x + a.w <= usize::MAX,
        a.y + a.h <= usize::MAX,
        b.x + b.w <= usize::MAX,
        b.y + b.h <= usize::MAX,
    ensures
        r == rooms_overlap(*a, *b),
{
    let ax2 = a.x + a.w;
    let bx2 = b.x + b.w;
    let ay2 = a.y + a.h;
    let by2 = b.y + b.h;
    let lox = if a.x > b.x { a.x } else { b.x };
    let hix = if ax2 < bx2 { ax2 } else { bx2 };
    let loy = if a.y > b.y { a.y } else { b.y };
    let hiy = if ay2 < by2 { ay2 } else { by2 };
    lox < hix && loy < hiy
}

} // verus!
