use misty_maze::{Cell, Maze, MazeConfig, MazeError, Room};
use rand::SeedableRng;
use rand::rngs::StdRng;

fn overlap(a: &Room, b: &Room) -> bool {
    a.x.max(b.x) < (a.x + a.w).min(b.x + b.w) && a.y.max(b.y) < (a.y + a.h).min(b.y + b.h)
}

fn cell(m: &Maze, x: usize, y: usize) -> Cell {
    m.cells[x * m.height + y]
}

fn generate(width: usize, height: usize, seed: u64) -> Maze {
    let config = MazeConfig::new(width, height);
    let mut rng = StdRng::seed_from_u64(seed);
    Maze::random(&config, &mut rng).expect("generation should succeed")
}

#[test]
fn scenario_12x12() {
    let config = MazeConfig::new(12, 12);
    let mut rng = StdRng::seed_from_u64(7);
    let m = Maze::random(&config, &mut rng).expect("generation should succeed");
    assert_eq!(m.width, 12);
    assert_eq!(m.height, 12);
    assert_eq!(m.rooms.len(), 4);
    let safe_rooms: Vec<&Room> = m.rooms.iter().filter(|r| r.safe).collect();
    assert_eq!(safe_rooms.len(), 2);
    for r in &m.rooms {
        assert!(3 <= r.w && r.w <= 5);
        assert!(3 <= r.h && r.h <= 5);
    }
    // The origin lies inside the first safe room.
    let first_safe = m.rooms.iter().find(|r| r.safe).unwrap();
    let (ox, oy) = m.origin;
    assert!(first_safe.x <= ox && ox < first_safe.x + first_safe.w);
    assert!(first_safe.y <= oy && oy < first_safe.y + first_safe.h);
    assert_eq!(cell(&m, ox, oy), Cell::Safe);
}

#[test]
fn rooms_do_not_overlap() {
    let m = generate(80, 50, 11);
    for i in 0..m.rooms.len() {
        for j in 0..m.rooms.len() {
            if i != j {
                assert!(!overlap(&m.rooms[i], &m.rooms[j]));
            }
        }
    }
}

#[test]
fn rooms_keep_border_margin() {
    let m = generate(80, 50, 12);
    for r in &m.rooms {
        assert!(r.x >= 1);
        assert!(r.y >= 1);
        assert!(r.x + r.w <= m.width - 1);
        assert!(r.y + r.h <= m.height - 1);
    }
}

#[test]
fn room_cells_are_carved() {
    let m = generate(40, 30, 13);
    for r in &m.rooms {
        for x in r.x..r.x + r.w {
            for y in r.y..r.y + r.h {
                if r.safe {
                    assert_eq!(cell(&m, x, y), Cell::Safe);
                } else {
                    assert_ne!(cell(&m, x, y), Cell::Blocked);
                }
            }
        }
    }
    // Safe cells appear only inside safe rooms.
    for x in 0..m.width {
        for y in 0..m.height {
            if cell(&m, x, y) == Cell::Safe {
                assert!(m.rooms.iter().any(|r| {
                    r.safe && r.x <= x && x < r.x + r.w && r.y <= y && y < r.y + r.h
                }));
            }
        }
    }
}

#[test]
fn coins_exclude_origin_and_blocked_cells() {
    let m = generate(80, 50, 14);
    assert!(!m.coins.is_empty());
    for &(x, y) in &m.coins {
        assert!(x < m.width && y < m.height);
        assert_ne!((x, y), m.origin);
        assert_ne!(cell(&m, x, y), Cell::Blocked);
    }
}

#[test]
fn coin_probability_zero_yields_no_coins() {
    let mut config = MazeConfig::new(20, 20);
    config.coin_numerator = 0;
    let mut rng = StdRng::seed_from_u64(5);
    let m = Maze::random(&config, &mut rng).unwrap();
    assert!(m.coins.is_empty());
}

#[test]
fn coin_probability_one_fills_every_eligible_cell() {
    let mut config = MazeConfig::new(20, 20);
    config.coin_numerator = 2;
    config.coin_denominator = 2;
    let mut rng = StdRng::seed_from_u64(5);
    let m = Maze::random(&config, &mut rng).unwrap();
    let mut eligible = 0;
    for x in 0..m.width {
        for y in 0..m.height {
            if cell(&m, x, y) != Cell::Blocked && (x, y) != m.origin {
                eligible += 1;
            }
        }
    }
    assert_eq!(m.coins.len(), eligible);
}

#[test]
fn coins_are_pairwise_distinct() {
    let mut config = MazeConfig::new(40, 30);
    // Every eligible cell gets a coin, so duplicates would surface here.
    config.coin_numerator = 2;
    config.coin_denominator = 2;
    let mut rng = StdRng::seed_from_u64(17);
    let m = Maze::random(&config, &mut rng).unwrap();
    let mut seen = vec![false; m.width * m.height];
    for &(x, y) in &m.coins {
        assert!(!seen[x * m.height + y], "coin listed twice");
        seen[x * m.height + y] = true;
    }
    let m2 = generate(80, 50, 14);
    let mut seen2 = vec![false; m2.width * m2.height];
    for &(x, y) in &m2.coins {
        assert!(!seen2[x * m2.height + y], "coin listed twice");
        seen2[x * m2.height + y] = true;
    }
}

#[test]
fn count_bounds_hold() {
    let config = MazeConfig::new(64, 48);
    let mut rng = StdRng::seed_from_u64(21);
    let m = Maze::random(&config, &mut rng).unwrap();
    assert_eq!(m.rooms.len(), config.room_count);
    let safe = m.rooms.iter().filter(|r| r.safe).count();
    assert_eq!(safe, config.safe_room_count);
}

#[test]
fn deterministic_under_fixed_seed() {
    let config = MazeConfig::new(80, 50);
    let mut rng1 = StdRng::seed_from_u64(42);
    let mut rng2 = StdRng::seed_from_u64(42);
    let a = Maze::random(&config, &mut rng1).unwrap();
    let b = Maze::random(&config, &mut rng2).unwrap();
    assert!(a.width == b.width && a.height == b.height);
    assert!(a.origin == b.origin);
    assert!(a.cells == b.cells);
    assert!(a.coins == b.coins);
    assert!(a.rooms == b.rooms);
}

#[test]
fn different_seeds_differ() {
    let config = MazeConfig::new(80, 50);
    let mut rng1 = StdRng::seed_from_u64(1);
    let mut rng2 = StdRng::seed_from_u64(2);
    let a = Maze::random(&config, &mut rng1).unwrap();
    let b = Maze::random(&config, &mut rng2).unwrap();
    assert!(a.cells != b.cells || a.coins != b.coins || a.origin != b.origin);
}

#[test]
fn flood_fill_reaches_every_room() {
    let m = generate(80, 50, 33);
    let (w, h) = (m.width, m.height);
    let mut seen = vec![false; w * h];
    let mut queue = vec![m.origin];
    seen[m.origin.0 * h + m.origin.1] = true;
    while let Some((x, y)) = queue.pop() {
        let mut neighbors = Vec::new();
        if x > 0 {
            neighbors.push((x - 1, y));
        }
        if x + 1 < w {
            neighbors.push((x + 1, y));
        }
        if y > 0 {
            neighbors.push((x, y - 1));
        }
        if y + 1 < h {
            neighbors.push((x, y + 1));
        }
        for (nx, ny) in neighbors {
            if !seen[nx * h + ny] && cell(&m, nx, ny) != Cell::Blocked {
                seen[nx * h + ny] = true;
                queue.push((nx, ny));
            }
        }
    }
    for r in &m.rooms {
        for x in r.x..r.x + r.w {
            for y in r.y..r.y + r.h {
                assert!(seen[x * h + y], "room cell not reached from origin");
            }
        }
    }
}

#[test]
fn infeasible_config_fails_with_room_index() {
    let config = MazeConfig {
        width: 12,
        height: 12,
        room_size_min: 3,
        room_size_max: 5,
        room_count: 50,
        safe_room_count: 0,
        coin_numerator: 1,
        coin_denominator: 2,
    };
    let mut rng = StdRng::seed_from_u64(9);
    match Maze::random(&config, &mut rng) {
        Err(MazeError::GenerationFailed { room_index }) => {
            assert!(room_index < config.room_count);
        }
        Ok(_) => panic!("placement of 50 rooms in a 12x12 grid should fail"),
    }
}

#[test]
fn no_safe_rooms_defaults_origin_to_corner() {
    let mut config = MazeConfig::new(20, 20);
    config.safe_room_count = 0;
    let mut rng = StdRng::seed_from_u64(3);
    let m = Maze::random(&config, &mut rng).unwrap();
    assert_eq!(m.origin, (0, 0));
    assert!(!m.has_safe_room());
    assert!(m.rooms.iter().all(|r| !r.safe));
    assert!(m.cells.iter().all(|&c| c != Cell::Safe));
}

#[test]
fn get_cell_matches_buffer() {
    let m = generate(24, 18, 8);
    for x in 0..m.width {
        for y in 0..m.height {
            assert_eq!(m.get_cell(x, y), m.cells[x * m.height + y]);
        }
    }
}
