use misty_maze::Cell;
use misty_maze::Room;
use misty_maze::grid::{carve_room, connect_rooms};

fn blocked(width: usize, height: usize) -> Vec<Cell> {
    vec![Cell::Blocked; width * height]
}

#[test]
fn connect_rooms_carves_an_l_shaped_corridor() {
    let (w, h) = (10, 10);
    let mut cells = blocked(w, h);
    connect_rooms(&mut cells, w, h, (2, 3), (7, 8));
    // Horizontal leg at the row of the smaller-x endpoint.
    for x in 2..=7 {
        assert_eq!(cells[x * h + 3], Cell::Open);
    }
    // Vertical leg at the column of the larger-x endpoint.
    for y in 3..=8 {
        assert_eq!(cells[7 * h + y], Cell::Open);
    }
    // Nothing else is touched.
    let carved: usize = cells.iter().filter(|&&c| c == Cell::Open).count();
    assert_eq!(carved, 6 + 6 - 1);
}

#[test]
fn connect_rooms_is_idempotent() {
    let (w, h) = (12, 9);
    let mut cells = blocked(w, h);
    connect_rooms(&mut cells, w, h, (8, 2), (1, 6));
    let once = cells.clone();
    connect_rooms(&mut cells, w, h, (8, 2), (1, 6));
    assert!(cells == once);
}

#[test]
fn carve_room_is_idempotent() {
    let (w, h) = (10, 10);
    let mut cells = blocked(w, h);
    let room = Room { x: 4, y: 4, w: 3, h: 3, safe: true };
    carve_room(&mut cells, w, h, &room);
    let once = cells.clone();
    carve_room(&mut cells, w, h, &room);
    assert!(cells == once);
}

#[test]
fn carving_never_downgrades_safe_cells() {
    let (w, h) = (12, 12);
    let mut cells = blocked(w, h);
    let safe = Room { x: 2, y: 2, w: 4, h: 4, safe: true };
    carve_room(&mut cells, w, h, &safe);
    // A corridor straight through the safe room leaves its cells Safe.
    connect_rooms(&mut cells, w, h, (1, 3), (10, 3));
    // A later normal room over the same footprint leaves them Safe too.
    let normal = Room { x: 3, y: 3, w: 5, h: 5, safe: false };
    carve_room(&mut cells, w, h, &normal);
    for x in 2..6 {
        for y in 2..6 {
            assert_eq!(cells[x * h + y], Cell::Safe);
        }
    }
}

#[test]
fn carve_room_opens_exactly_the_footprint() {
    let (w, h) = (8, 8);
    let mut cells = blocked(w, h);
    let room = Room { x: 1, y: 2, w: 3, h: 2, safe: false };
    carve_room(&mut cells, w, h, &room);
    for x in 0..w {
        for y in 0..h {
            let inside = room.x <= x && x < room.x + room.w && room.y <= y && y < room.y + room.h;
            if inside {
                assert_eq!(cells[x * h + y], Cell::Open);
            } else {
                assert_eq!(cells[x * h + y], Cell::Blocked);
            }
        }
    }
}
