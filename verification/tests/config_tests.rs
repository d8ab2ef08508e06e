use misty_maze::MazeConfig;

#[test]
fn derive_config_12x12() {
    let c = MazeConfig::new(12, 12);
    assert_eq!(c.width, 12);
    assert_eq!(c.height, 12);
    assert_eq!(c.room_size_min, 3);
    assert_eq!(c.room_size_max, 5);
    assert_eq!(c.room_count, 4);
    assert_eq!(c.safe_room_count, 2);
    assert_eq!(c.coin_numerator, 1);
    assert_eq!(c.coin_denominator, 2);
}

#[test]
fn derive_config_80x50() {
    let c = MazeConfig::new(80, 50);
    assert_eq!(c.width, 80);
    assert_eq!(c.height, 50);
    // min dimension 50: floor(log2 50) = 5, floor(50^0.7) = 15
    assert_eq!(c.room_size_min, 5);
    assert_eq!(c.room_size_max, 15);
    // max(3, 79 * 49 / 225) = 17
    assert_eq!(c.room_count, 17);
    // floor(log2 17) = 4
    assert_eq!(c.safe_room_count, 4);
}

#[test]
fn derive_config_clamps_small_dimensions() {
    let c = MazeConfig::new(5, 100);
    assert_eq!(c.width, 12);
    assert_eq!(c.height, 100);
    assert_eq!(c.room_size_min, 3);
    assert_eq!(c.room_size_max, 5);
    // max(3, 11 * 99 / 25) = 43
    assert_eq!(c.room_count, 43);
    // floor(log2 43) = 5
    assert_eq!(c.safe_room_count, 5);
}

#[test]
fn derive_config_elongated_grid() {
    // Only the smaller dimension is bounded; a long thin grid is fine.
    let c = MazeConfig::new(1_000_000, 50);
    assert_eq!(c.width, 1_000_000);
    assert_eq!(c.height, 50);
    assert_eq!(c.room_size_min, 5);
    assert_eq!(c.room_size_max, 15);
    // max(3, 999999 * 49 / 225) = 217777
    assert_eq!(c.room_count, 217_777);
    // floor(log2(217777)) = 17
    assert_eq!(c.safe_room_count, 17);
    assert!(c.check());
}

#[test]
fn derived_config_passes_check() {
    assert!(MazeConfig::new(12, 12).check());
    assert!(MazeConfig::new(80, 50).check());
    assert!(MazeConfig::new(0, 0).check());
}

#[test]
fn check_rejects_degenerate_config() {
    let mut c = MazeConfig::new(12, 12);
    c.room_size_min = 0;
    assert!(!c.check());
    let mut c2 = MazeConfig::new(12, 12);
    c2.room_size_max = 2;
    assert!(!c2.check());
    let mut c3 = MazeConfig::new(12, 12);
    c3.safe_room_count = c3.room_count + 1;
    assert!(!c3.check());
}
