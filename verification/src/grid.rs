use vstd::prelude::*;

use crate::room::{Room, room_contains};

verus! {

/// One grid cell, classified by how it may be traversed.
///
/// Overwrite desirability is `Safe > Open > Blocked`: a `Safe` cell is never
/// downgraded by later carving, a `Blocked` cell may be upgraded, and an
/// `Open` cell is never downgraded.
#[derive(Clone, Copy, PartialEq, Eq, Structural, Debug)]
pub enum Cell {
    Open,
    Blocked,
    Safe,
}

/// A flat buffer of `width * height` cells stands for the two-dimensional
/// grid; the cell `(x, y)` lives at index `x * height + y`.
pub open spec fn grid_wf(cells: Seq<Cell>, width: int, height: int) -> bool {
    cells.len() == width * height
}

/// The cell of the flat buffer at grid position `(x, y)`.
pub open spec fn cell_at(cells: Seq<Cell>, height: int, x: int, y: int) -> Cell {
    cells[x * height + y]
}

/// Flat indices of in-bounds positions stay inside the buffer.
pub proof fn lemma_grid_index_bounds(width: int, height: int, x: int, y: int)
    requires
        0 <= x < width,
        0 <= y < height,
    ensures
        0 <= x * height + y < width * height,
{
    assert(0 <= x * height + y < width * height) by (nonlinear_arith)
        requires
            0 <= x < width,
            0 <= y < height,
    ;
}

/// Distinct in-bounds positions have distinct flat indices.
pub proof fn lemma_grid_index_injective(height: int, x1: int, y1: int, x2: int, y2: int)
    requires
        0 <= x1,
        0 <= x2,
        0 <= y1 < height,
        0 <= y2 < height,
        x1 * height + y1 == x2 * height + y2,
    ensures
        x1 == x2 && y1 == y2,
{
    assert(x1 == x2 && y1 == y2) by (nonlinear_arith)
        requires
            0 <= x1,
            0 <= x2,
            0 <= y1 < height,
            0 <= y2 < height,
            x1 * height + y1 == x2 * height + y2,
    ;
}

/// Every flat index of the buffer decomposes into an in-bounds position.
pub proof fn lemma_grid_index_decompose(width: int, height: int, k: int)
    requires
        height >= 1,
        0 <= k < width * height,
    ensures
        0 <= k / height < width,
        0 <= k % height < height,
        (k / height) * height + (k % height) == k,
{
    vstd::arithmetic::div_mod::lemma_fundamental_div_mod(k, height);
    vstd::arithmetic::div_mod::lemma_mod_division_less_than_divisor(k, height);
    vstd::arithmetic::div_mod::lemma_div_pos_is_pos(k, height);
    assert((k / height) * height == height * (k / height)) by (nonlinear_arith);
    if k / height >= width {
        vstd::arithmetic::mul::lemma_mul_inequality(width, k / height, height);
        assert(width * height <= (k / height) * height);
        assert(false);
    }
}

/// A fresh grid: every cell `Blocked`.
pub fn blocked_grid(width: usize, height: usize) -> (cells: Vec<Cell>)
    requires
        width * height <= usize::MAX,
    ensures
        grid_wf(cells@, width as int, height as int),
        forall|x: int, y: int|
            0 <= x < width && 0 <= y < height ==> cell_at(cells@, height as int, x, y)
                == Cell::Blocked,
{
    let n = width * height;
    let cells = vec![Cell::Blocked; n];
    proof {
        assert forall|x: int, y: int|
            0 <= x < width && 0 <= y < height implies cell_at(cells@, height as int, x, y)
            == Cell::Blocked by {
            lemma_grid_index_bounds(width as int, height as int, x, y);
        }
    }
    cells
}

/// How carving one room rewrites one cell: inside a safe room every cell
/// becomes `Safe`; inside a normal room only `Blocked` cells are upgraded to
/// `Open`; cells outside the footprint keep their value.
pub open spec fn carved_cell(r: Room, x: int, y: int, c: Cell) -> Cell {
    if room_contains(r, x, y) {
        if r.safe {
            Cell::Safe
        } else if c == Cell::Blocked {
            Cell::Open
        } else {
            c
        }
    } else {
        c
    }
}

/// Stamps a room's footprint into the grid.
///
/// A cell that was `Safe` before carving is still `Safe` afterwards: carving
/// never downgrades a safe cell.
#[verifier::loop_isolation(false)]
pub fn carve_room(cells: &mut Vec<Cell>, width: usize, height: usize, room: &Room)
    requires
        grid_wf(old(cells)@, width as int, height as int),
        room.x + room.w <= width,
        room.y + room.h <= height,
    ensures
        grid_wf(final(cells)@, width as int, height as int),
        forall|x: int, y: int|
            0 <= x < width && 0 <= y < height ==> cell_at(final(cells)@, height as int, x, y)
                == carved_cell(*room, x, y, cell_at(old(cells)@, height as int, x, y)),
        forall|x: int, y: int|
            0 <= x < width && 0 <= y < height && cell_at(old(cells)@, height as int, x, y)
                == Cell::Safe ==> cell_at(final(cells)@, height as int, x, y) == Cell::Safe,
{
    let mut i = room.x;
    while i < room.x + room.w
        invariant
            room.x <= i <= room.x + room.w,
            cells@.len() == old(cells)@.len(),
            forall|x: int, y: int|
                0 <= x < width && 0 <= y < height ==> cell_at(cells@, height as int, x, y) == (
                if room_contains(*room, x, y) && x < i {
                    carved_cell(*room, x, y, cell_at(old(cells)@, height as int, x, y))
                } else {
                    cell_at(old(cells)@, height as int, x, y)
                }),
        decreases room.x + room.w - i,
    {
        let mut j = room.y;
        while j < room.y + room.h
            invariant
                room.x <= i < room.x + room.w,
                room.y <= j <= room.y + room.h,
                cells@.len() == old(cells)@.len(),
                forall|x: int, y: int|
                    0 <= x < width && 0 <= y < height ==> cell_at(cells@, height as int, x, y)
                        == (if room_contains(*room, x, y) && (x < i || (x == i && y < j)) {
                        carved_cell(*room, x, y, cell_at(old(cells)@, height as int, x, y))
                    } else {
                        cell_at(old(cells)@, height as int, x, y)
                    }),
            decreases room.y + room.h - j,
        {
            proof {
                lemma_grid_index_bounds(width as int, height as int, i as int, j as int);
                assert(old(cells)@.len() == width * height);
                assert(old(cells).len() == old(cells)@.len());
            }
            let idx = i * height + j;
            let ghost pre = cells@;
            if room.safe {
                cells[idx] = Cell::Safe;
            } else if cells[idx] == Cell::Blocked {
                cells[idx] = Cell::Open;
            }
            proof {
                assert forall|x: int, y: int| 0 <= x < width && 0 <= y < height implies cell_at(
                    cells@,
                    height as int,
                    x,
                    y,
                ) == (if room_contains(*room, x, y) && (x < i || (x == i && y < j + 1)) {
                    carved_cell(*room, x, y, cell_at(old(cells)@, height as int, x, y))
                } else {
                    cell_at(old(cells)@, height as int, x, y)
                }) by {
                    lemma_grid_index_bounds(width as int, height as int, x, y);
                    if x * height + y != idx {
                        assert(cell_at(cells@, height as int, x, y) == cell_at(
                            pre,
                            height as int,
                            x,
                            y,
                        ));
                    } else {
                        lemma_grid_index_injective(height as int, x, y, i as int, j as int);
                    }
                }
            }
            j = j + 1;
        }
        i = i + 1;
    }
    proof {
        assert forall|x: int, y: int|
            0 <= x < width && 0 <= y < height && cell_at(old(cells)@, height as int, x, y)
                == Cell::Safe implies cell_at(cells@, height as int, x, y) == Cell::Safe by {
            assert(cell_at(cells@, height as int, x, y) == (if room_contains(*room, x, y) && x
                < i {
                carved_cell(*room, x, y, cell_at(old(cells)@, height as int, x, y))
            } else {
                cell_at(old(cells)@, height as int, x, y)
            }));
        }
    }
}

/// The horizontal leg of the L-shaped corridor between `p1` and `p2`: the
/// row of the endpoint with the smaller x coordinate, spanning both x
/// coordinates.
pub open spec fn on_h_leg(p1: (usize, usize), p2: (usize, usize), x: int, y: int) -> bool {
    &&& y == (if p1.0 <= p2.0 {
        p1.1 as int
    } else {
        p2.1 as int
    })
    &&& vstd::math::min(p1.0 as int, p2.0 as int) <= x <= vstd::math::max(p1.0 as int, p2.0 as int)
}

/// The vertical leg of the L-shaped corridor between `p1` and `p2`: the
/// column of the endpoint with the larger x coordinate, spanning both y
/// coordinates.
pub open spec fn on_v_leg(p1: (usize, usize), p2: (usize, usize), x: int, y: int) -> bool {
    &&& x == vstd::math::max(p1.0 as int, p2.0 as int)
    &&& vstd::math::min(p1.1 as int, p2.1 as int) <= y <= vstd::math::max(p1.1 as int, p2.1 as int)
}

/// The L-shaped corridor between `p1` and `p2`.
pub open spec fn on_l_path(p1: (usize, usize), p2: (usize, usize), x: int, y: int) -> bool {
    on_h_leg(p1, p2, x, y) || on_v_leg(p1, p2, x, y)
}

/// Carving a corridor upgrades a `Blocked` cell to `Open` and leaves every
/// other cell alone.
pub open spec fn opened_cell(c: Cell) -> Cell {
    if c == Cell::Blocked {
        Cell::Open
    } else {
        c
    }
}

/// How carving the corridor between `p1` and `p2` rewrites one cell.
pub open spec fn l_path_cell(p1: (usize, usize), p2: (usize, usize), x: int, y: int, c: Cell) -> Cell {
    if on_l_path(p1, p2, x, y) {
        opened_cell(c)
    } else {
        c
    }
}

/// Every cell of the L-shaped corridor between `p1` and `p2` is passable:
/// none of them is `Blocked`.
pub open spec fn corridor_open(
    cells: Seq<Cell>,
    width: int,
    height: int,
    p1: (usize, usize),
    p2: (usize, usize),
) -> bool {
    forall|x: int, y: int|
        0 <= x < width && 0 <= y < height && on_l_path(p1, p2, x, y) ==> #[trigger] cell_at(
            cells,
            height,
            x,
            y,
        ) != Cell::Blocked
}

/// Carves an L-shaped corridor between `p1` and `p2`: first the horizontal
/// run at the row of the smaller-x endpoint, then the vertical run at the
/// column of the larger-x endpoint.  Only `Blocked` cells change, each to
/// `Open`; in particular a `Safe` cell is never downgraded.
#[verifier::loop_isolation(false)]
pub fn connect_rooms(
    cells: &mut Vec<Cell>,
    width: usize,
    height: usize,
    p1: (usize, usize),
    p2: (usize, usize),
)
    requires
        grid_wf(old(cells)@, width as int, height as int),
        p1.0 < width,
        p1.1 < height,
        p2.0 < width,
        p2.1 < height,
    ensures
        grid_wf(final(cells)@, width as int, height as int),
        forall|x: int, y: int|
            0 <= x < width && 0 <= y < height ==> cell_at(final(cells)@, height as int, x, y)
                == l_path_cell(p1, p2, x, y, cell_at(old(cells)@, height as int, x, y)),
        forall|x: int, y: int|
            0 <= x < width && 0 <= y < height && cell_at(old(cells)@, height as int, x, y)
                != Cell::Blocked ==> cell_at(final(cells)@, height as int, x, y) == cell_at(
                old(cells)@,
                height as int,
                x,
                y,
            ),
{
    let (a, b) = if p1.0 > p2.0 {
        (p2, p1)
    } else {
        (p1, p2)
    };
    let mut x = a.0;
    while x <= b.0
        invariant
            a.0 <= x <= b.0 + 1,
            cells@.len() == old(cells)@.len(),
            forall|cx: int, cy: int|
                #![trigger cell_at(cells@, height as int, cx, cy)]
                0 <= cx < width && 0 <= cy < height ==> cell_at(cells@, height as int, cx, cy)
                    == (if on_h_leg(p1, p2, cx, cy) && cx < x {
                    opened_cell(cell_at(old(cells)@, height as int, cx, cy))
                } else {
                    cell_at(old(cells)@, height as int, cx, cy)
                }),
        decreases b.0 + 1 - x,
    {
        proof {
            lemma_grid_index_bounds(width as int, height as int, x as int, a.1 as int);
            assert(old(cells)@.len() == width * height);
            assert(old(cells).len() == old(cells)@.len());
        }
        let idx = x * height + a.1;
        let ghost pre = cells@;
        if cells[idx] == Cell::Blocked {
            cells[idx] = Cell::Open;
        }
        proof {
            assert forall|cx: int, cy: int|
                #![trigger cell_at(cells@, height as int, cx, cy)]
                0 <= cx < width && 0 <= cy < height implies cell_at(
                cells@,
                height as int,
                cx,
                cy,
            ) == (if on_h_leg(p1, p2, cx, cy) && cx < x + 1 {
                opened_cell(cell_at(old(cells)@, height as int, cx, cy))
            } else {
                cell_at(old(cells)@, height as int, cx, cy)
            }) by {
                lemma_grid_index_bounds(width as int, height as int, cx, cy);
                if cx * height + cy != idx {
                    assert(cell_at(cells@, height as int, cx, cy) == cell_at(
                        pre,
                        height as int,
                        cx,
                        cy,
                    ));
                } else {
                    lemma_grid_index_injective(height as int, cx, cy, x as int, a.1 as int);
                    assert(cx == x as int && cy == a.1 as int);
                    assert(on_h_leg(p1, p2, cx, cy));
                    assert(cell_at(pre, height as int, cx, cy) == cell_at(
                        old(cells)@,
                        height as int,
                        cx,
                        cy,
                    ));
                }
            }
        }
        x = x + 1;
    }
    let ghost mid = cells@;
    let (ylo, yhi) = if a.1 > b.1 {
        (b.1, a.1)
    } else {
        (a.1, b.1)
    };
    let mut y = ylo;
    while y <= yhi
        invariant
            ylo <= y <= yhi + 1,
            cells@.len() == old(cells)@.len(),
            forall|cx: int, cy: int|
                #![trigger cell_at(cells@, height as int, cx, cy)]
                0 <= cx < width && 0 <= cy < height ==> cell_at(cells@, height as int, cx, cy)
                    == (if on_v_leg(p1, p2, cx, cy) && cy < y {
                    opened_cell(cell_at(mid, height as int, cx, cy))
                } else {
                    cell_at(mid, height as int, cx, cy)
                }),
        decreases yhi + 1 - y,
    {
        proof {
            lemma_grid_index_bounds(width as int, height as int, b.0 as int, y as int);
            assert(old(cells)@.len() == width * height);
            assert(old(cells).len() == old(cells)@.len());
        }
        let idx = b.0 * height + y;
        let ghost pre = cells@;
        if cells[idx] == Cell::Blocked {
            cells[idx] = Cell::Open;
        }
        proof {
            assert forall|cx: int, cy: int|
                #![trigger cell_at(cells@, height as int, cx, cy)]
                0 <= cx < width && 0 <= cy < height implies cell_at(
                cells@,
                height as int,
                cx,
                cy,
            ) == (if on_v_leg(p1, p2, cx, cy) && cy < y + 1 {
                opened_cell(cell_at(mid, height as int, cx, cy))
            } else {
                cell_at(mid, height as int, cx, cy)
            }) by {
                lemma_grid_index_bounds(width as int, height as int, cx, cy);
                if cx * height + cy != idx {
                    assert(cell_at(cells@, height as int, cx, cy) == cell_at(
                        pre,
                        height as int,
                        cx,
                        cy,
                    ));
                } else {
                    lemma_grid_index_injective(height as int, cx, cy, b.0 as int, y as int);
                    assert(cx == b.0 as int && cy == y as int);
                    assert(on_v_leg(p1, p2, cx, cy));
                    assert(cell_at(pre, height as int, cx, cy) == cell_at(
                        mid,
                        height as int,
                        cx,
                        cy,
                    ));
                }
            }
        }
        y = y + 1;
    }
    proof {
        assert forall|cx: int, cy: int| 0 <= cx < width && 0 <= cy < height implies cell_at(
            cells@,
            height as int,
            cx,
            cy,
        ) == l_path_cell(p1, p2, cx, cy, cell_at(old(cells)@, height as int, cx, cy)) by {
            assert(cell_at(mid, height as int, cx, cy) == (if on_h_leg(p1, p2, cx, cy) {
                opened_cell(cell_at(old(cells)@, height as int, cx, cy))
            } else {
                cell_at(old(cells)@, height as int, cx, cy)
            }));
            assert(cell_at(cells@, height as int, cx, cy) == (if on_v_leg(p1, p2, cx, cy) {
                opened_cell(cell_at(mid, height as int, cx, cy))
            } else {
                cell_at(mid, height as int, cx, cy)
            }));
        }
    }
}

/// Room carving is idempotent: re-stamping the same room onto an
/// already-carved grid changes nothing, and in particular never downgrades a
/// `Safe` cell.
pub proof fn lemma_carve_idempotent(
    g0: Seq<Cell>,
    g1: Seq<Cell>,
    g2: Seq<Cell>,
    width: int,
    height: int,
    r: Room,
)
    requires
        height >= 1,
        grid_wf(g0, width, height),
        g1.len() == g0.len(),
        g2.len() == g1.len(),
        forall|x: int, y: int|
            0 <= x < width && 0 <= y < height ==> cell_at(g1, height, x, y) == carved_cell(
                r,
                x,
                y,
                cell_at(g0, height, x, y),
            ),
        forall|x: int, y: int|
            0 <= x < width && 0 <= y < height ==> cell_at(g2, height, x, y) == carved_cell(
                r,
                x,
                y,
                cell_at(g1, height, x, y),
            ),
    ensures
        g2 == g1,
{
    assert forall|k: int| 0 <= k < g1.len() implies g2[k] == g1[k] by {
        lemma_grid_index_decompose(width, height, k);
        let x = k / height;
        let y = k % height;
        assert(cell_at(g1, height, x, y) == carved_cell(r, x, y, cell_at(g0, height, x, y)));
        assert(cell_at(g2, height, x, y) == carved_cell(r, x, y, cell_at(g1, height, x, y)));
    }
    assert(g2 =~= g1);
}

/// Connection carving is idempotent: re-carving the corridor between the same
/// two points on an already-carved grid changes nothing, because the
/// `Blocked` to `Open` transition is one-way and saturating.
pub proof fn lemma_connect_idempotent(
    g0: Seq<Cell>,
    g1: Seq<Cell>,
    g2: Seq<Cell>,
    width: int,
    height: int,
    p1: (usize, usize),
    p2: (usize, usize),
)
    requires
        height >= 1,
        grid_wf(g0, width, height),
        g1.len() == g0.len(),
        g2.len() == g1.len(),
        forall|x: int, y: int|
            0 <= x < width && 0 <= y < height ==> cell_at(g1, height, x, y) == l_path_cell(
                p1,
                p2,
                x,
                y,
                cell_at(g0, height, x, y),
            ),
        forall|x: int, y: int|
            0 <= x < width && 0 <= y < height ==> cell_at(g2, height, x, y) == l_path_cell(
                p1,
                p2,
                x,
                y,
                cell_at(g1, height, x, y),
            ),
    ensures
        g2 == g1,
{
    assert forall|k: int| 0 <= k < g1.len() implies g2[k] == g1[k] by {
        lemma_grid_index_decompose(width, height, k);
        let x = k / height;
        let y = k % height;
        assert(cell_at(g1, height, x, y) == l_path_cell(p1, p2, x, y, cell_at(g0, height, x, y)));
        assert(cell_at(g2, height, x, y) == l_path_cell(p1, p2, x, y, cell_at(g1, height, x, y)));
    }
    assert(g2 =~= g1);
}

} // verus!
