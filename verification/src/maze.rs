use vstd::prelude::*;

use crate::config::MazeConfig;
use crate::grid::{Cell, carved_cell, cell_at, grid_wf, lemma_grid_index_bounds};
use crate::room::{Room, lemma_shared_cell_overlap, room_contains, room_margin_ok, rooms_overlap};

verus! {

/// A typed generation failure: rejection sampling for the room with the
/// given placement index exhausted its retry cap.
#[derive(Clone, Copy, PartialEq, Eq, Structural, Debug)]
pub enum MazeError {
    GenerationFailed { room_index: usize },
}

/// Retry cap per room for the rejection sampling of room placement: beyond
/// it, generation fails fast instead of hanging on an infeasible config.
pub const ROOM_PLACEMENT_ATTEMPTS: usize = 1000;

/// How many of the flags are set.
pub open spec fn count_true(s: Seq<bool>) -> int
    decreases s.len(),
{
    if s.len() == 0 {
        0
    } else {
        count_true(s.drop_last()) + (if s.last() {
            1int
        } else {
            0int
        })
    }
}

/// How many of the rooms are flagged safe.
pub open spec fn safe_count(rooms: Seq<Room>) -> int
    decreases rooms.len(),
{
    if rooms.len() == 0 {
        0
    } else {
        safe_count(rooms.drop_last()) + (if rooms.last().safe {
            1int
        } else {
            0int
        })
    }
}

/// The count of set flags equals the multiplicity of `true` in the
/// multiset of the sequence, so it is invariant under permutation.
proof fn lemma_count_true_multiset(s: Seq<bool>)
    ensures
        count_true(s) == s.to_multiset().count(true),
    decreases s.len(),
{
    broadcast use vstd::seq_lib::group_to_multiset_ensures;
    broadcast use vstd::multiset::group_multiset_axioms;

    if s.len() == 0 {
        assert(!s.contains(true));
    } else {
        lemma_count_true_multiset(s.drop_last());
        assert(s =~= s.drop_last().push(s.last()));
        assert(s.to_multiset() =~= s.drop_last().to_multiset().insert(s.last()));
    }
}

/// The safe-room count follows the flag sequence the rooms were built from.
proof fn lemma_safe_count_matches(rooms: Seq<Room>, flags: Seq<bool>)
    requires
        rooms.len() == flags.len(),
        forall|j: int| 0 <= j < rooms.len() ==> rooms[j].safe == flags[j],
    ensures
        safe_count(rooms) == count_true(flags),
    decreases rooms.len(),
{
    if rooms.len() > 0 {
        assert(forall|j: int|
            0 <= j < rooms.drop_last().len() ==> rooms.drop_last()[j].safe == flags.drop_last()[j]);
        lemma_safe_count_matches(rooms.drop_last(), flags.drop_last());
    }
}

/// If no room is flagged safe, the safe count is zero — contrapositively, a
/// positive safe count yields a flagged room.
proof fn lemma_safe_count_all_false(rooms: Seq<Room>)
    requires
        forall|j: int| 0 <= j < rooms.len() ==> !rooms[j].safe,
    ensures
        safe_count(rooms) == 0,
    decreases rooms.len(),
{
    if rooms.len() > 0 {
        lemma_safe_count_all_false(rooms.drop_last());
    }
}

/// The cell `(x, y)` lies inside some room flagged safe.
pub open spec fn covered_by_safe(rooms: Seq<Room>, x: int, y: int) -> bool {
    exists|i: int| 0 <= i < rooms.len() && rooms[i].safe && room_contains(rooms[i], x, y)
}

/// The cell `(x, y)` lies inside some room.
pub open spec fn covered(rooms: Seq<Room>, x: int, y: int) -> bool {
    exists|i: int| 0 <= i < rooms.len() && room_contains(rooms[i], x, y)
}

/// No two distinct rooms of the sequence overlap.
pub open spec fn no_overlap(rooms: Seq<Room>) -> bool {
    forall|i: int, j: int|
        0 <= i < rooms.len() && 0 <= j < rooms.len() && i != j ==> !rooms_overlap(
            rooms[i],
            rooms[j],
        )
}

/// The cell value produced by carving the rooms in order onto an
/// all-`Blocked` grid: the last room containing the cell decides it.
pub open spec fn rooms_cell(rooms: Seq<Room>, x: int, y: int) -> Cell
    decreases rooms.len(),
{
    if rooms.len() == 0 {
        Cell::Blocked
    } else if room_contains(rooms.last(), x, y) {
        if rooms.last().safe {
            Cell::Safe
        } else {
            Cell::Open
        }
    } else {
        rooms_cell(rooms.drop_last(), x, y)
    }
}

/// A cell inside none of the rooms is still `Blocked`.
proof fn lemma_rooms_cell_uncovered(rooms: Seq<Room>, x: int, y: int)
    requires
        forall|j: int| 0 <= j < rooms.len() ==> !room_contains(rooms[j], x, y),
    ensures
        rooms_cell(rooms, x, y) == Cell::Blocked,
    decreases rooms.len(),
{
    if rooms.len() > 0 {
        lemma_rooms_cell_uncovered(rooms.drop_last(), x, y);
    }
}

/// Carving one more room that overlaps none of the earlier ones rewrites the
/// room-carved grid cell for cell as `carved_cell` says.
proof fn lemma_rooms_cell_push(rooms: Seq<Room>, r: Room, x: int, y: int)
    requires
        forall|j: int| 0 <= j < rooms.len() ==> !rooms_overlap(rooms[j], r),
    ensures
        rooms_cell(rooms.push(r), x, y) == carved_cell(r, x, y, rooms_cell(rooms, x, y)),
{
    assert(rooms.push(r).drop_last() =~= rooms);
    if room_contains(r, x, y) {
        assert forall|j: int| 0 <= j < rooms.len() implies !room_contains(rooms[j], x, y) by {
            if room_contains(rooms[j], x, y) {
                lemma_shared_cell_overlap(rooms[j], r, x, y);
            }
        }
        lemma_rooms_cell_uncovered(rooms, x, y);
    }
}

/// Under pairwise non-overlap, the room-carved grid holds `Safe` exactly on
/// cells of safe rooms, and a non-`Blocked` value exactly on cells of rooms.
proof fn lemma_rooms_cell_characterize(rooms: Seq<Room>, x: int, y: int)
    requires
        no_overlap(rooms),
    ensures
        (rooms_cell(rooms, x, y) == Cell::Safe) == covered_by_safe(rooms, x, y),
        (rooms_cell(rooms, x, y) != Cell::Blocked) == covered(rooms, x, y),
    decreases rooms.len(),
{
    if rooms.len() > 0 {
        let prefix = rooms.drop_last();
        let r = rooms.last();
        let n = rooms.len() - 1;
        assert(forall|j: int| 0 <= j < n ==> rooms[j] == prefix[j]);
        lemma_rooms_cell_characterize(prefix, x, y);
        if room_contains(r, x, y) {
            assert forall|j: int| 0 <= j < n implies !room_contains(prefix[j], x, y) by {
                if room_contains(prefix[j], x, y) {
                    lemma_shared_cell_overlap(rooms[j], r, x, y);
                    assert(rooms_overlap(rooms[j], rooms[n as int]));
                }
            }
            lemma_rooms_cell_uncovered(prefix, x, y);
            assert(room_contains(rooms[n as int], x, y));
            assert(covered(rooms, x, y));
            if r.safe {
                assert(rooms[n as int].safe);
                assert(covered_by_safe(rooms, x, y));
            } else {
                if covered_by_safe(rooms, x, y) {
                    let i = choose|i: int|
                        0 <= i < rooms.len() && rooms[i].safe && room_contains(rooms[i], x, y);
                    assert(i == n);
                    assert(false);
                }
            }
        } else {
            if covered_by_safe(prefix, x, y) {
                let i = choose|i: int|
                    0 <= i < prefix.len() && prefix[i].safe && room_contains(prefix[i], x, y);
                assert(rooms[i].safe && room_contains(rooms[i], x, y));
            }
            if covered_by_safe(rooms, x, y) {
                let i = choose|i: int|
                    0 <= i < rooms.len() && rooms[i].safe && room_contains(rooms[i], x, y);
                assert(i < n);
                assert(prefix[i].safe && room_contains(prefix[i], x, y));
            }
            if covered(prefix, x, y) {
                let i = choose|i: int| 0 <= i < prefix.len() && room_contains(prefix[i], x, y);
                assert(room_contains(rooms[i], x, y));
            }
            if covered(rooms, x, y) {
                let i = choose|i: int| 0 <= i < rooms.len() && room_contains(rooms[i], x, y);
                assert(i < n);
                assert(room_contains(prefix[i], x, y));
            }
        }
    }
}

/// Does the candidate overlap any already-placed room?
#[verifier::loop_isolation(false)]
fn overlaps_any(rooms: &Vec<Room>, cand: &Room) -> (b: bool)
    requires
        forall|j: int|
            0 <= j < rooms@.len() ==> rooms@[j].x + rooms@[j].w <= usize::MAX && rooms@[j].y
                + rooms@[j].h <= usize::MAX,
        cand.x + cand.w <= usize::MAX,
        cand.y + cand.h <= usize::MAX,
    ensures
        b == exists|j: int| 0 <= j < rooms@.len() && rooms_overlap(rooms@[j], *cand),
{
    let mut j: usize = 0;
    while j < rooms.len()
        invariant
            j <= rooms@.len(),
            forall|k: int| 0 <= k < j ==> !rooms_overlap(rooms@[k], *cand),
        decreases rooms@.len() - j,
    {
        if crate::room::overlaps(&rooms[j], cand) {
            return true;
        }
        j = j + 1;
    }
    false
}

/// Pushing one flag extends the count by exactly that flag.
proof fn lemma_count_true_push(s: Seq<bool>, b: bool)
    ensures
        count_true(s.push(b)) == count_true(s) + (if b {
            1int
        } else {
            0int
        }),
{
    assert(s.push(b).drop_last() =~= s);
    assert(s.push(b).last() == b);
}

/// The generated level: a `width` by `height` grid of cells, the spawn
/// origin, the coin positions, and the rooms in placement order.
///
/// The value is constructed once per generation request and read-only
/// afterwards.
pub struct Maze {
    pub width: usize,
    pub height: usize,
    pub origin: (usize, usize),
    pub cells: Vec<Cell>,
    pub coins: Vec<(usize, usize)>,
    pub rooms: Vec<Room>,
}

impl Maze {
    /// The cell of the maze at grid position `(x, y)`, as a spec value.
    pub open spec fn cell(self, x: int, y: int) -> Cell {
        cell_at(self.cells@, self.height as int, x, y)
    }

    /// The grid buffer holds exactly `width * height` cells.
    pub open spec fn wf(self) -> bool {
        grid_wf(self.cells@, self.width as int, self.height as int)
    }

    /// Whether some room is flagged safe — when none is, the origin was the
    /// `(0, 0)` fallback and may sit on a blocked cell, a condition callers
    /// may want to warn about.
    #[verifier::loop_isolation(false)]
    pub fn has_safe_room(&self) -> (b: bool)
        ensures
            b == exists|i: int| 0 <= i < self.rooms@.len() && (#[trigger] self.rooms@[i]).safe,
    {
        let mut i: usize = 0;
        while i < self.rooms.len()
            invariant
                i <= self.rooms@.len(),
                forall|j: int| 0 <= j < i ==> !(#[trigger] self.rooms@[j]).safe,
            decreases self.rooms@.len() - i,
        {
            if self.rooms[i].safe {
                return true;
            }
            i = i + 1;
        }
        false
    }

    /// Reads the cell at `(x, y)`, with bounds enforced by contract.
    pub fn get_cell(&self, x: usize, y: usize) -> (c: Cell)
        requires
            self.wf(),
            x < self.width,
            y < self.height,
        ensures
            c == self.cell(x as int, y as int),
    {
        proof {
            lemma_grid_index_bounds(self.width as int, self.height as int, x as int, y as int);
            assert(self.cells@.len() == self.width * self.height);
            assert(self.cells.len() == self.cells@.len());
        }
        self.cells[x * self.height + y]
    }
}

/// A uniformly random interior point of the room.
fn room_random_position(room: &Room, rng: &mut rand::rngs::StdRng) -> (p: (usize, usize))
    requires
        1 <= room.w,
        1 <= room.h,
        room.x + room.w <= usize::MAX,
        room.y + room.h <= usize::MAX,
    ensures
        room_contains(*room, p.0 as int, p.1 as int),
{
    let px = crate::rng::rand_range(rng, room.x, room.x + room.w);
    let py = crate::rng::rand_range(rng, room.y, room.y + room.h);
    (px, py)
}

/// The index of the next room in the closed connection ring over placement
/// order.
pub open spec fn ring_next(n: int, i: int) -> int {
    if i + 1 < n {
        i + 1
    } else {
        0
    }
}

/// Some L-shaped corridor joins an interior point of room `a` to an
/// interior point of room `b`, and every cell of it is passable in the
/// grid.
pub open spec fn ring_edge_open(
    cells: Seq<Cell>,
    width: int,
    height: int,
    a: Room,
    b: Room,
) -> bool {
    exists|p1: (usize, usize), p2: (usize, usize)|
        room_contains(a, p1.0 as int, p1.1 as int) && room_contains(b, p2.0 as int, p2.1 as int)
            && #[trigger] crate::grid::corridor_open(cells, width, height, p1, p2)
}

/// Everything the generator promises of a maze it returns for `config`:
/// the grid has the configured dimensions; there are exactly `room_count`
/// rooms, exactly `safe_room_count` of them safe, pairwise non-overlapping,
/// inside the border margin, with side lengths between `room_size_min` and
/// `room_size_max`; a cell is `Safe` exactly when a safe room covers it, and
/// every room cell is non-`Blocked`; the origin lies inside the first safe
/// room (and on a `Safe` cell) when a safe room exists, else at the grid
/// corner; each room is joined to the next in placement order (cyclically)
/// by a passable L-shaped corridor; and the coins are pairwise distinct,
/// with none on the origin or on a `Blocked` cell.
pub open spec fn maze_matches_config(config: MazeConfig, m: Maze) -> bool {
    &&& m.width == config.width
    &&& m.height == config.height
    &&& m.wf()
    &&& m.rooms@.len() == config.room_count
    &&& safe_count(m.rooms@) == config.safe_room_count
    &&& no_overlap(m.rooms@)
    &&& forall|j: int|
        0 <= j < m.rooms@.len() ==> room_margin_ok(
            #[trigger] m.rooms@[j],
            m.width as int,
            m.height as int,
        ) && config.room_size_min <= m.rooms@[j].w <= config.room_size_max
            && config.room_size_min <= m.rooms@[j].h <= config.room_size_max
    &&& forall|x: int, y: int|
        0 <= x < m.width && 0 <= y < m.height ==> ((#[trigger] m.cell(x, y) == Cell::Safe)
            == covered_by_safe(m.rooms@, x, y))
    &&& forall|x: int, y: int|
        0 <= x < m.width && 0 <= y < m.height && covered(m.rooms@, x, y) ==> #[trigger] m.cell(
            x,
            y,
        ) != Cell::Blocked
    &&& forall|i: int|
        0 <= i < m.rooms@.len() ==> #[trigger] ring_edge_open(
            m.cells@,
            m.width as int,
            m.height as int,
            m.rooms@[i],
            m.rooms@[ring_next(m.rooms@.len() as int, i)],
        )
    &&& m.origin.0 < m.width && m.origin.1 < m.height
    &&& config.safe_room_count > 0 ==> m.cell(m.origin.0 as int, m.origin.1 as int) == Cell::Safe
    &&& config.safe_room_count > 0 ==> exists|i: int|
        0 <= i < m.rooms@.len() && (#[trigger] m.rooms@[i]).safe && room_contains(
            m.rooms@[i],
            m.origin.0 as int,
            m.origin.1 as int,
        ) && (forall|j: int| 0 <= j < i ==> !m.rooms@[j].safe)
    &&& config.safe_room_count == 0 ==> m.origin == (0usize, 0usize)
    &&& forall|k: int|
        0 <= k < m.coins@.len() ==> (#[trigger] m.coins@[k]).0 < m.width && m.coins@[k].1
            < m.height && m.cell(m.coins@[k].0 as int, m.coins@[k].1 as int) != Cell::Blocked
            && m.coins@[k] != m.origin
    &&& forall|k1: int, k2: int|
        0 <= k1 < k2 < m.coins@.len() ==> #[trigger] m.coins@[k1] != #[trigger] m.coins@[k2]
}


/// The safe count is never negative.
proof fn lemma_safe_count_nonneg(rooms: Seq<Room>)
    ensures
        safe_count(rooms) >= 0,
    decreases rooms.len(),
{
    if rooms.len() > 0 {
        lemma_safe_count_nonneg(rooms.drop_last());
    }
}

/// A room flagged safe witnesses a positive safe count.
proof fn lemma_safe_count_positive(rooms: Seq<Room>, i: int)
    requires
        0 <= i < rooms.len(),
        rooms[i].safe,
    ensures
        safe_count(rooms) >= 1,
    decreases rooms.len(),
{
    lemma_safe_count_nonneg(rooms.drop_last());
    if i < rooms.len() - 1 {
        lemma_safe_count_positive(rooms.drop_last(), i);
    }
}

/// Builds the safe-room flags: exactly `safe_room_count` of `room_count`
/// flags set, then shuffled so that which rooms end up safe is decoupled
/// from placement order.
#[verifier::loop_isolation(false)]
fn build_safe_flags(config: &MazeConfig, rng: &mut rand::rngs::StdRng) -> (flags: Vec<bool>)
    requires
        config.safe_room_count <= config.room_count,
    ensures
        flags@.len() == config.room_count,
        count_true(flags@) == config.safe_room_count,
{
    let mut flags: Vec<bool> = Vec::new();
    let mut t: usize = 0;
    while t < config.safe_room_count
        invariant
            t <= config.safe_room_count,
            flags@.len() == t,
            count_true(flags@) == t,
        decreases config.safe_room_count - t,
    {
        proof {
            lemma_count_true_push(flags@, true);
        }
        flags.push(true);
        t = t + 1;
    }
    let mut f: usize = 0;
    while f < config.room_count - config.safe_room_count
        invariant
            f <= config.room_count - config.safe_room_count,
            flags@.len() == config.safe_room_count + f,
            count_true(flags@) == config.safe_room_count,
        decreases config.room_count - config.safe_room_count - f,
    {
        proof {
            lemma_count_true_push(flags@, false);
        }
        flags.push(false);
        f = f + 1;
    }
    let ghost preshuffle = flags@;
    crate::rng::shuffle_flags(rng, &mut flags);
    proof {
        broadcast use vstd::seq_lib::group_to_multiset_ensures;

        lemma_count_true_multiset(preshuffle);
        lemma_count_true_multiset(flags@);
        assert(preshuffle.to_multiset().len() == preshuffle.len());
        assert(flags@.to_multiset().len() == flags@.len());
    }
    flags
}

/// Places `room_count` rooms by bounded rejection sampling, carving each
/// accepted room into the grid as it goes; the room with index `j` takes its
/// safe flag from `flags[j]`.  Fails with the index of the first room whose
/// placement exhausts the retry cap.
#[verifier::loop_isolation(false)]
fn place_rooms(
    config: &MazeConfig,
    flags: &Vec<bool>,
    cells: &mut Vec<Cell>,
    rng: &mut rand::rngs::StdRng,
) -> (result: Result<Vec<Room>, MazeError>)
    requires
        config.generable(),
        flags@.len() == config.room_count,
        grid_wf(old(cells)@, config.width as int, config.height as int),
        forall|x: int, y: int|
            0 <= x < config.width && 0 <= y < config.height ==> #[trigger] cell_at(
                old(cells)@,
                config.height as int,
                x,
                y,
            ) == Cell::Blocked,
    ensures
        match result {
            Ok(rooms) => {
                &&& rooms@.len() == config.room_count
                &&& forall|j: int|
                    0 <= j < rooms@.len() ==> (#[trigger] rooms@[j]).safe == flags@[j]
                &&& no_overlap(rooms@)
                &&& forall|j: int|
                    0 <= j < rooms@.len() ==> room_margin_ok(
                        #[trigger] rooms@[j],
                        config.width as int,
                        config.height as int,
                    ) && config.room_size_min <= rooms@[j].w <= config.room_size_max
                        && config.room_size_min <= rooms@[j].h <= config.room_size_max
                &&& grid_wf(final(cells)@, config.width as int, config.height as int)
                &&& forall|x: int, y: int|
                    0 <= x < config.width && 0 <= y < config.height ==> #[trigger] cell_at(
                        final(cells)@,
                        config.height as int,
                        x,
                        y,
                    ) == rooms_cell(rooms@, x, y)
            },
            Err(e) => e matches MazeError::GenerationFailed { room_index } && room_index
                < config.room_count,
        },
{
    let width = config.width;
    let height = config.height;
    let mut rooms: Vec<Room> = Vec::new();
    let mut ridx: usize = 0;
    while ridx < config.room_count
        invariant
            ridx <= config.room_count,
            rooms@.len() == ridx,
            forall|j: int| 0 <= j < ridx ==> (#[trigger] rooms@[j]).safe == flags@[j],
            no_overlap(rooms@),
            forall|j: int|
                0 <= j < ridx ==> room_margin_ok(
                    #[trigger] rooms@[j],
                    width as int,
                    height as int,
                ) && config.room_size_min <= rooms@[j].w <= config.room_size_max
                    && config.room_size_min <= rooms@[j].h <= config.room_size_max,
            grid_wf(cells@, width as int, height as int),
            forall|x: int, y: int|
                0 <= x < width && 0 <= y < height ==> #[trigger] cell_at(
                    cells@,
                    height as int,
                    x,
                    y,
                ) == rooms_cell(rooms@, x, y),
        decreases config.room_count - ridx,
    {
        let is_safe = flags[ridx];
        let mut attempt: usize = 0;
        let mut placed: Option<Room> = None;
        while attempt < ROOM_PLACEMENT_ATTEMPTS && placed.is_none()
            invariant
                attempt <= ROOM_PLACEMENT_ATTEMPTS,
                match placed {
                    Some(r) => {
                        &&& r.safe == flags@[ridx as int]
                        &&& room_margin_ok(r, width as int, height as int)
                        &&& config.room_size_min <= r.w <= config.room_size_max
                        &&& config.room_size_min <= r.h <= config.room_size_max
                        &&& forall|j: int|
                            0 <= j < rooms@.len() ==> !rooms_overlap(#[trigger] rooms@[j], r)
                    },
                    None => true,
                },
            decreases ROOM_PLACEMENT_ATTEMPTS - attempt,
        {
            let rw = crate::rng::rand_range(rng, config.room_size_min, config.room_size_max + 1);
            let rh = crate::rng::rand_range(rng, config.room_size_min, config.room_size_max + 1);
            let rx = crate::rng::rand_range(rng, 1, width - rw - 1);
            let ry = crate::rng::rand_range(rng, 1, height - rh - 1);
            let cand = Room { x: rx, y: ry, w: rw, h: rh, safe: is_safe };
            if !overlaps_any(&rooms, &cand) {
                placed = Some(cand);
            }
            attempt = attempt + 1;
        }
        match placed {
            None => {
                return Err(MazeError::GenerationFailed { room_index: ridx });
            },
            Some(room) => {
                crate::grid::carve_room(cells, width, height, &room);
                proof {
                    assert forall|x: int, y: int|
                        0 <= x < width && 0 <= y < height implies #[trigger] cell_at(
                        cells@,
                        height as int,
                        x,
                        y,
                    ) == rooms_cell(rooms@.push(room), x, y) by {
                        lemma_rooms_cell_push(rooms@, room, x, y);
                    }
                    assert forall|j: int| 0 <= j < rooms@.len() implies !rooms_overlap(
                        room,
                        #[trigger] rooms@[j],
                    ) by {
                        crate::room::lemma_overlap_symmetric(room, rooms@[j]);
                    }
                }
                rooms.push(room);
            },
        }
        ridx = ridx + 1;
    }
    Ok(rooms)
}

/// Connects room `i` to room `i + 1` (cyclically) with an L-shaped corridor
/// between random interior points, so that afterwards every ring edge has a
/// fully passable corridor.  Corridors only upgrade `Blocked` cells to
/// `Open`, so safe cells stay safe, room cells stay carved, and corridors
/// carved earlier stay passable.
#[verifier::loop_isolation(false)]
fn connect_ring(
    cells: &mut Vec<Cell>,
    width: usize,
    height: usize,
    rooms: &Vec<Room>,
    rng: &mut rand::rngs::StdRng,
)
    requires
        grid_wf(old(cells)@, width as int, height as int),
        forall|j: int|
            0 <= j < rooms@.len() ==> room_margin_ok(
                #[trigger] rooms@[j],
                width as int,
                height as int,
            ) && rooms@[j].w >= 1 && rooms@[j].h >= 1,
        forall|x: int, y: int|
            0 <= x < width && 0 <= y < height ==> ((#[trigger] cell_at(
                old(cells)@,
                height as int,
                x,
                y,
            ) == Cell::Safe) == covered_by_safe(rooms@, x, y)),
        forall|x: int, y: int|
            0 <= x < width && 0 <= y < height && covered(rooms@, x, y) ==> #[trigger] cell_at(
                old(cells)@,
                height as int,
                x,
                y,
            ) != Cell::Blocked,
    ensures
        grid_wf(final(cells)@, width as int, height as int),
        forall|x: int, y: int|
            0 <= x < width && 0 <= y < height ==> ((#[trigger] cell_at(
                final(cells)@,
                height as int,
                x,
                y,
            ) == Cell::Safe) == covered_by_safe(rooms@, x, y)),
        forall|x: int, y: int|
            0 <= x < width && 0 <= y < height && covered(rooms@, x, y) ==> #[trigger] cell_at(
                final(cells)@,
                height as int,
                x,
                y,
            ) != Cell::Blocked,
        forall|i: int|
            0 <= i < rooms@.len() ==> #[trigger] ring_edge_open(
                final(cells)@,
                width as int,
                height as int,
                rooms@[i],
                rooms@[ring_next(rooms@.len() as int, i)],
            ),
{
    let mut i: usize = 0;
    while i < rooms.len()
        invariant
            i <= rooms@.len(),
            grid_wf(cells@, width as int, height as int),
            forall|x: int, y: int|
                0 <= x < width && 0 <= y < height ==> ((#[trigger] cell_at(
                    cells@,
                    height as int,
                    x,
                    y,
                ) == Cell::Safe) == covered_by_safe(rooms@, x, y)),
            forall|x: int, y: int|
                0 <= x < width && 0 <= y < height && covered(rooms@, x, y) ==> #[trigger] cell_at(
                    cells@,
                    height as int,
                    x,
                    y,
                ) != Cell::Blocked,
            forall|k: int|
                0 <= k < i ==> #[trigger] ring_edge_open(
                    cells@,
                    width as int,
                    height as int,
                    rooms@[k],
                    rooms@[ring_next(rooms@.len() as int, k)],
                ),
        decreases rooms@.len() - i,
    {
        let next = if i + 1 < rooms.len() {
            i + 1
        } else {
            0
        };
        let r1 = rooms[i];
        let r2 = rooms[next];
        let p1 = room_random_position(&r1, rng);
        let p2 = room_random_position(&r2, rng);
        let ghost before = cells@;
        crate::grid::connect_rooms(cells, width, height, p1, p2);
        proof {
            assert forall|x: int, y: int| 0 <= x < width && 0 <= y < height implies ((
            #[trigger] cell_at(cells@, height as int, x, y) == Cell::Safe) == covered_by_safe(
                rooms@,
                x,
                y,
            ) && (covered(rooms@, x, y) ==> cell_at(cells@, height as int, x, y)
                != Cell::Blocked)) by {
                assert(cell_at(cells@, height as int, x, y) == crate::grid::l_path_cell(
                    p1,
                    p2,
                    x,
                    y,
                    cell_at(before, height as int, x, y),
                ));
            }
            assert forall|k: int| 0 <= k < i + 1 implies #[trigger] ring_edge_open(
                cells@,
                width as int,
                height as int,
                rooms@[k],
                rooms@[ring_next(rooms@.len() as int, k)],
            ) by {
                if k < i {
                    assert(ring_edge_open(
                        before,
                        width as int,
                        height as int,
                        rooms@[k],
                        rooms@[ring_next(rooms@.len() as int, k)],
                    ));
                    let (q1, q2) = choose|q1: (usize, usize), q2: (usize, usize)|
                        room_contains(rooms@[k], q1.0 as int, q1.1 as int) && room_contains(
                            rooms@[ring_next(rooms@.len() as int, k)],
                            q2.0 as int,
                            q2.1 as int,
                        ) && #[trigger] crate::grid::corridor_open(
                            before,
                            width as int,
                            height as int,
                            q1,
                            q2,
                        );
                    assert forall|x: int, y: int|
                        0 <= x < width && 0 <= y < height && crate::grid::on_l_path(
                            q1,
                            q2,
                            x,
                            y,
                        ) implies #[trigger] cell_at(cells@, height as int, x, y)
                        != Cell::Blocked by {
                        assert(cell_at(before, height as int, x, y) != Cell::Blocked);
                        assert(cell_at(cells@, height as int, x, y) == crate::grid::l_path_cell(
                            p1,
                            p2,
                            x,
                            y,
                            cell_at(before, height as int, x, y),
                        ));
                    }
                    assert(crate::grid::corridor_open(
                        cells@,
                        width as int,
                        height as int,
                        q1,
                        q2,
                    ));
                } else {
                    assert forall|x: int, y: int|
                        0 <= x < width && 0 <= y < height && crate::grid::on_l_path(
                            p1,
                            p2,
                            x,
                            y,
                        ) implies #[trigger] cell_at(cells@, height as int, x, y)
                        != Cell::Blocked by {
                        assert(cell_at(cells@, height as int, x, y) == crate::grid::l_path_cell(
                            p1,
                            p2,
                            x,
                            y,
                            cell_at(before, height as int, x, y),
                        ));
                    }
                    assert(crate::grid::corridor_open(
                        cells@,
                        width as int,
                        height as int,
                        p1,
                        p2,
                    ));
                    assert(room_contains(rooms@[k], p1.0 as int, p1.1 as int));
                    assert(room_contains(
                        rooms@[ring_next(rooms@.len() as int, k)],
                        p2.0 as int,
                        p2.1 as int,
                    ));
                }
            }
        }
        i = i + 1;
    }
}

/// Scans the rooms in placement order for the first one flagged safe and
/// draws the spawn origin inside it; reports whether one was found, with the
/// grid corner as the fallback origin.
#[verifier::loop_isolation(false)]
fn pick_origin(rooms: &Vec<Room>, width: usize, height: usize, rng: &mut rand::rngs::StdRng) -> (r:
    ((usize, usize), bool))
    requires
        forall|j: int|
            0 <= j < rooms@.len() ==> room_margin_ok(
                #[trigger] rooms@[j],
                width as int,
                height as int,
            ) && rooms@[j].w >= 1 && rooms@[j].h >= 1,
    ensures
        r.1 ==> r.0.0 < width && r.0.1 < height && exists|i: int|
            0 <= i < rooms@.len() && (#[trigger] rooms@[i]).safe && room_contains(
                rooms@[i],
                r.0.0 as int,
                r.0.1 as int,
            ) && (forall|j: int| 0 <= j < i ==> !rooms@[j].safe),
        !r.1 ==> (forall|j: int| 0 <= j < rooms@.len() ==> !(#[trigger] rooms@[j]).safe) && r.0
            == (0usize, 0usize),
{
    let mut origin: (usize, usize) = (0, 0);
    let mut found = false;
    let ghost mut gi: int = 0;
    let mut oi: usize = 0;
    while oi < rooms.len() && !found
        invariant
            oi <= rooms@.len(),
            !found ==> (forall|j: int| 0 <= j < oi ==> !(#[trigger] rooms@[j]).safe) && origin
                == (0usize, 0usize),
            found ==> 0 <= gi < oi && rooms@[gi].safe && room_contains(
                rooms@[gi],
                origin.0 as int,
                origin.1 as int,
            ) && (forall|j: int| 0 <= j < gi ==> !(#[trigger] rooms@[j]).safe) && origin.0 < width
                && origin.1 < height,
        decreases rooms@.len() - oi,
    {
        let r = rooms[oi];
        if r.safe {
            origin = room_random_position(&r, rng);
            found = true;
            proof {
                gi = oi as int;
            }
        }
        oi = oi + 1;
    }
    proof {
        if found {
            assert(rooms@[gi].safe && room_contains(rooms@[gi], origin.0 as int, origin.1 as int)
                && (forall|j: int| 0 <= j < gi ==> !rooms@[j].safe));
        }
    }
    (origin, found)
}

/// Scans the grid in raster order and draws a coin for each non-blocked,
/// non-origin cell with probability `num / den`; each cell is tried once,
/// so the coins are pairwise distinct.
#[verifier::loop_isolation(false)]
fn scatter_coins(
    cells: &Vec<Cell>,
    width: usize,
    height: usize,
    origin: (usize, usize),
    num: u32,
    den: u32,
    rng: &mut rand::rngs::StdRng,
) -> (coins: Vec<(usize, usize)>)
    requires
        grid_wf(cells@, width as int, height as int),
        den >= 1,
    ensures
        forall|k: int|
            0 <= k < coins@.len() ==> (#[trigger] coins@[k]).0 < width && coins@[k].1 < height
                && cell_at(cells@, height as int, coins@[k].0 as int, coins@[k].1 as int)
                != Cell::Blocked && coins@[k] != origin,
        forall|k1: int, k2: int|
            0 <= k1 < k2 < coins@.len() ==> #[trigger] coins@[k1] != #[trigger] coins@[k2],
{
    let mut coins: Vec<(usize, usize)> = Vec::new();
    let mut cx: usize = 0;
    while cx < width
        invariant
            cx <= width,
            forall|k: int|
                0 <= k < coins@.len() ==> (#[trigger] coins@[k]).0 < width && coins@[k].1 < height
                    && cell_at(cells@, height as int, coins@[k].0 as int, coins@[k].1 as int)
                    != Cell::Blocked && coins@[k] != origin,
            forall|k: int| 0 <= k < coins@.len() ==> (#[trigger] coins@[k]).0 < cx,
            forall|k1: int, k2: int|
                0 <= k1 < k2 < coins@.len() ==> #[trigger] coins@[k1] != #[trigger] coins@[k2],
        decreases width - cx,
    {
        let mut cy: usize = 0;
        while cy < height
            invariant
                cx < width,
                cy <= height,
                forall|k: int|
                    0 <= k < coins@.len() ==> (#[trigger] coins@[k]).0 < width && coins@[k].1
                        < height && cell_at(
                        cells@,
                        height as int,
                        coins@[k].0 as int,
                        coins@[k].1 as int,
                    ) != Cell::Blocked && coins@[k] != origin,
                forall|k: int|
                    0 <= k < coins@.len() ==> (#[trigger] coins@[k]).0 < cx || (coins@[k].0 == cx
                        && coins@[k].1 < cy),
                forall|k1: int, k2: int|
                    0 <= k1 < k2 < coins@.len() ==> #[trigger] coins@[k1] != #[trigger] coins@[k2],
            decreases height - cy,
        {
            proof {
                lemma_grid_index_bounds(width as int, height as int, cx as int, cy as int);
                assert(cells@.len() == width * height);
                assert(cells.len() == cells@.len());
            }
            let c = cells[cx * height + cy];
            if c != Cell::Blocked && !(cx == origin.0 && cy == origin.1) {
                let draw = crate::rng::rand_range(rng, 0, den as usize);
                if draw < num as usize {
                    let ghost pre = coins@;
                    coins.push((cx, cy));
                    proof {
                        assert forall|k1: int, k2: int| 0 <= k1 < k2 < coins@.len() implies
                            #[trigger] coins@[k1] != #[trigger] coins@[k2] by {
                            if k2 == pre.len() {
                                assert(coins@[k1] == pre[k1]);
                                assert(pre[k1].0 < cx || (pre[k1].0 == cx && pre[k1].1 < cy));
                            } else {
                                assert(coins@[k1] == pre[k1] && coins@[k2] == pre[k2]);
                            }
                        }
                    }
                }
            }
            cy = cy + 1;
        }
        cx = cx + 1;
    }
    coins
}

impl Maze {
    /// Generates a maze from the config, drawing from the given random
    /// stream: carves `room_count` pairwise non-overlapping rooms inside the
    /// border margin (exactly `safe_room_count` of them safe), connects the
    /// rooms into a closed ring of L-shaped corridors, picks the spawn
    /// origin inside the first safe room, and scatters coins over eligible
    /// cells.  Fails fast with `GenerationFailed` when a room cannot be
    /// placed within the retry cap.
    #[verifier::loop_isolation(false)]
    pub fn random(config: &MazeConfig, rng: &mut rand::rngs::StdRng) -> (result: Result<
        Maze,
        MazeError,
    >)
        requires
            config.generable(),
        ensures
            match result {
                Ok(m) => maze_matches_config(*config, m),
                Err(e) => e matches MazeError::GenerationFailed { room_index } && room_index
                    < config.room_count,
            },
    {
        let width = config.width;
        let height = config.height;
        let mut cells = crate::grid::blocked_grid(width, height);
        let flags = build_safe_flags(config, rng);
        let rooms = match place_rooms(config, &flags, &mut cells, rng) {
            Err(e) => {
                return Err(e);
            },
            Ok(rooms) => rooms,
        };
        proof {
            lemma_safe_count_matches(rooms@, flags@);
            assert forall|x: int, y: int| 0 <= x < width && 0 <= y < height implies ((
            #[trigger] cell_at(cells@, height as int, x, y) == Cell::Safe) == covered_by_safe(
                rooms@,
                x,
                y,
            ) && (covered(rooms@, x, y) ==> cell_at(cells@, height as int, x, y)
                != Cell::Blocked)) by {
                lemma_rooms_cell_characterize(rooms@, x, y);
            }
        }
        connect_ring(&mut cells, width, height, &rooms, rng);
        let (origin, found) = pick_origin(&rooms, width, height, rng);
        proof {
            if config.safe_room_count > 0 && !found {
                lemma_safe_count_all_false(rooms@);
                assert(false);
            }
            if config.safe_room_count == 0 && found {
                let i = choose|i: int|
                    0 <= i < rooms@.len() && (#[trigger] rooms@[i]).safe && room_contains(
                        rooms@[i],
                        origin.0 as int,
                        origin.1 as int,
                    ) && (forall|j: int| 0 <= j < i ==> !rooms@[j].safe);
                lemma_safe_count_positive(rooms@, i);
                assert(false);
            }
            if found {
                assert(covered_by_safe(rooms@, origin.0 as int, origin.1 as int));
                assert(cell_at(cells@, height as int, origin.0 as int, origin.1 as int)
                    == Cell::Safe);
            }
        }
        let coins = scatter_coins(
            &cells,
            width,
            height,
            origin,
            config.coin_numerator,
            config.coin_denominator,
            rng,
        );
        Ok(Maze { width, height, origin, cells, coins, rooms })
    }
}

} // verus!
