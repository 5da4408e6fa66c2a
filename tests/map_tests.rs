use dungeon::map::{distance, DungeonMap, MapError, Rect, FLOOR, MAX_ROOMS, WALL};

fn room_cells_are_floor(m: &DungeonMap, r: &Rect) -> bool {
    for y in r.y1..r.y2 {
        for x in r.x1..r.x2 {
            if m.get_tile(x, y) != FLOOR {
                return false;
            }
        }
    }
    true
}

fn row_is_floor(m: &DungeonMap, y: usize, a: usize, b: usize) -> bool {
    (a.min(b)..=a.max(b)).all(|x| m.get_tile(x, y) == FLOOR)
}

fn column_is_floor(m: &DungeonMap, x: usize, a: usize, b: usize) -> bool {
    (a.min(b)..=a.max(b)).all(|y| m.get_tile(x, y) == FLOOR)
}

fn joined(m: &DungeonMap, from: (usize, usize), to: (usize, usize)) -> bool {
    let horizontal_first =
        row_is_floor(m, from.1, from.0, to.0) && column_is_floor(m, to.0, from.1, to.1);
    let vertical_first =
        column_is_floor(m, from.0, from.1, to.1) && row_is_floor(m, to.1, from.0, to.0);
    horizontal_first || vertical_first
}

#[test]
fn rect_new_sets_bounds() {
    let r = Rect::new(3, 4, 5, 6);
    assert_eq!((r.x1, r.y1, r.x2, r.y2), (3, 4, 8, 10));
}

#[test]
fn rect_center_rounds_down() {
    assert_eq!(Rect::new(3, 4, 5, 6).center(), (5, 7));
    assert_eq!(Rect::new(0, 0, 4, 4).center(), (2, 2));
    assert_eq!(Rect::new(1, 1, 5, 5).center(), (3, 3));
    assert_eq!(Rect::new(2, 2, 5, 6).center(), (4, 5));
}

#[test]
fn rect_touching_edges_do_not_intersect() {
    let a = Rect::new(1, 1, 5, 5);
    let right = Rect::new(6, 1, 5, 5);
    let below = Rect::new(1, 6, 5, 5);
    assert!(!a.intersects_with(&right));
    assert!(!right.intersects_with(&a));
    assert!(!a.intersects_with(&below));
    assert!(!below.intersects_with(&a));
}

#[test]
fn rect_overlapping_rooms_intersect() {
    let a = Rect::new(1, 1, 5, 5);
    let b = Rect::new(5, 5, 5, 5);
    let inner = Rect::new(2, 2, 1, 1);
    assert!(a.intersects_with(&b));
    assert!(b.intersects_with(&a));
    assert!(a.intersects_with(&inner));
    assert!(!Rect::new(20, 20, 3, 3).intersects_with(&a));
}

#[test]
fn distance_is_manhattan() {
    assert_eq!(distance(1, 5, (4, 1)), 7);
    assert_eq!(distance(4, 1, (1, 5)), 7);
    assert_eq!(distance(3, 3, (3, 3)), 0);
}

#[test]
fn blank_map_is_all_wall() {
    let m = DungeonMap::blank(6, 4);
    assert_eq!(m.tiles.len(), 24);
    assert!(m.tiles.iter().all(|t| *t == WALL));
    assert!(m.rooms.is_empty());
}

#[test]
fn generate_80_by_25() {
    let (m, x, y) = DungeonMap::new(80, 25).expect("a room always fits");
    assert_eq!(m.width, 80);
    assert_eq!(m.height, 25);
    assert!(!m.rooms.is_empty());
    assert_eq!((x, y), m.rooms[0].center());
    assert!(m.is_walkable(x, y));
}

#[test]
fn generation_never_exhausts_on_a_large_grid() {
    for _ in 0..200 {
        let r = DungeonMap::new(80, 25);
        assert!(r.is_ok());
        let (m, _, _) = r.unwrap();
        assert!(!m.rooms.is_empty());
        assert!(m.rooms.len() <= MAX_ROOMS);
    }
}

#[test]
fn grid_length_is_width_times_height() {
    for (w, h) in [(80usize, 25usize), (13, 13), (40, 60), (100, 14)] {
        let (m, _, _) = DungeonMap::new(w, h).unwrap();
        assert_eq!(m.tiles.len(), w * h);
    }
}

#[test]
fn generated_rooms_do_not_overlap() {
    for _ in 0..50 {
        let (m, _, _) = DungeonMap::new(80, 25).unwrap();
        for i in 0..m.rooms.len() {
            for j in 0..m.rooms.len() {
                if i != j {
                    assert!(!m.rooms[i].intersects_with(&m.rooms[j]));
                }
            }
        }
    }
}

#[test]
fn generated_rooms_are_floor_with_a_border() {
    for _ in 0..50 {
        let (m, _, _) = DungeonMap::new(80, 25).unwrap();
        for r in &m.rooms {
            assert!(r.x1 >= 1 && r.y1 >= 1 && r.x2 < m.width && r.y2 < m.height);
            assert!((5..=10).contains(&(r.x2 - r.x1)));
            assert!((5..=10).contains(&(r.y2 - r.y1)));
            assert!(room_cells_are_floor(&m, r));
        }
    }
}

#[test]
fn generated_rooms_are_chained_by_corridors() {
    for _ in 0..50 {
        let (m, _, _) = DungeonMap::new(80, 25).unwrap();
        for k in 1..m.rooms.len() {
            assert!(joined(&m, m.rooms[k - 1].center(), m.rooms[k].center()));
        }
    }
}

#[test]
fn generated_tiles_are_wall_or_floor() {
    let (m, _, _) = DungeonMap::new(60, 20).unwrap();
    assert!(m.tiles.iter().all(|t| *t == WALL || *t == FLOOR));
    for x in 0..m.width {
        assert_eq!(m.get_tile(x, 0), WALL);
        assert_eq!(m.get_tile(x, m.height - 1), WALL);
    }
}

#[test]
fn generation_draws_varied_rooms() {
    let mut sizes = std::collections::HashSet::new();
    let mut most_rooms = 0;
    for _ in 0..30 {
        let (m, _, _) = DungeonMap::new(80, 25).unwrap();
        most_rooms = most_rooms.max(m.rooms.len());
        for r in &m.rooms {
            sizes.insert((r.x2 - r.x1, r.y2 - r.y1));
        }
    }
    assert!(sizes.len() > 1);
    assert!(most_rooms > 1);
}

#[test]
fn too_small_grid_exhausts_placement() {
    assert!(matches!(DungeonMap::new(7, 25), Err(MapError::ExhaustedPlacement)));
    assert!(matches!(DungeonMap::new(80, 7), Err(MapError::ExhaustedPlacement)));
    assert!(matches!(DungeonMap::new(0, 0), Err(MapError::ExhaustedPlacement)));
}

#[test]
fn is_walkable_matches_tile() {
    let (m, _, _) = DungeonMap::new(80, 25).unwrap();
    for y in 0..m.height {
        for x in 0..m.width {
            assert_eq!(m.is_walkable(x, y), m.get_tile(x, y) != WALL);
        }
    }
}

#[test]
fn tile_at_is_repeatable() {
    let (m, x, y) = DungeonMap::new(80, 25).unwrap();
    assert_eq!(m.tile_at(x, y), m.tile_at(x, y));
    assert_eq!(m.tile_at(x, y), Ok(FLOOR));
    assert_eq!(m.tile_at(0, 0), m.tile_at(0, 0));
}

#[test]
fn tile_at_bounds() {
    let (m, _, _) = DungeonMap::new(80, 25).unwrap();
    assert_eq!(m.tile_at(79, 24), Ok(m.get_tile(79, 24)));
    assert_eq!(m.tile_at(80, 0), Err(MapError::OutOfBounds));
    assert_eq!(m.tile_at(0, 25), Err(MapError::OutOfBounds));
}

#[test]
fn try_add_room_stamps_and_joins() {
    let mut m = DungeonMap::blank(20, 12);
    assert!(m.try_add_room(Rect::new(1, 1, 5, 5), true));
    assert!(room_cells_are_floor(&m, &Rect::new(1, 1, 5, 5)));
    assert_eq!(m.get_tile(6, 3), WALL);
    assert!(m.try_add_room(Rect::new(12, 5, 5, 5), true));
    // from (3, 3) along row 3 to column 14, then down column 14 to row 7
    for x in 3..=14 {
        assert_eq!(m.get_tile(x, 3), FLOOR);
    }
    for y in 3..=7 {
        assert_eq!(m.get_tile(14, y), FLOOR);
    }
    assert_eq!(m.get_tile(3, 7), WALL);
    let floor = m.tiles.iter().filter(|t| **t == FLOOR).count();
    assert_eq!(floor, 25 + 25 + 9 + 1);
    assert_eq!(m.rooms.len(), 2);
}

#[test]
fn try_add_room_vertical_first() {
    let mut m = DungeonMap::blank(20, 12);
    assert!(m.try_add_room(Rect::new(1, 1, 5, 5), false));
    assert!(m.try_add_room(Rect::new(12, 5, 5, 5), false));
    // from (3, 3) down column 3 to row 7, then along row 7 to column 14
    for y in 3..=7 {
        assert_eq!(m.get_tile(3, y), FLOOR);
    }
    for x in 3..=14 {
        assert_eq!(m.get_tile(x, 7), FLOOR);
    }
    assert_eq!(m.get_tile(14, 3), WALL);
}

#[test]
fn try_add_room_rejects_overlap_and_missing_border() {
    let mut m = DungeonMap::blank(20, 12);
    assert!(m.try_add_room(Rect::new(1, 1, 5, 5), true));
    let before = m.tiles.clone();
    assert!(!m.try_add_room(Rect::new(4, 4, 5, 5), true));
    assert!(!m.try_add_room(Rect::new(0, 6, 5, 5), true));
    assert!(!m.try_add_room(Rect::new(15, 1, 5, 5), true));
    assert!(!m.try_add_room(Rect::new(8, 7, 5, 5), true));
    assert_eq!(m.tiles, before);
    assert_eq!(m.rooms.len(), 1);
    assert!(m.try_add_room(Rect::new(6, 1, 5, 5), true));
}
