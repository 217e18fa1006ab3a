use roguelike::map::{GameMap, MAP_HEIGHT, MAP_WIDTH, MAX_ROOMS, ROOM_MAX_SIZE, ROOM_MIN_SIZE};

#[test]
fn generated_map_has_rooms() {
    let m = GameMap::new();
    assert!(m.rooms.len() >= 1);
    assert!(m.rooms.len() <= MAX_ROOMS as usize);
}

#[test]
fn room_interiors_are_open() {
    let m = GameMap::new();
    for r in m.rooms.iter() {
        for x in (r.x1 + 1)..r.x2 {
            for y in (r.y1 + 1)..r.y2 {
                let t = m.tiles[x as usize][y as usize];
                assert!(!t.solid);
                assert!(t.transparent);
            }
        }
    }
}

#[test]
fn map_border_stays_solid() {
    let m = GameMap::new();
    for x in 0..MAP_WIDTH as usize {
        assert!(m.tiles[x][0].solid);
        assert!(m.tiles[x][MAP_HEIGHT as usize - 1].solid);
    }
    for y in 0..MAP_HEIGHT as usize {
        assert!(m.tiles[0][y].solid);
        assert!(m.tiles[MAP_WIDTH as usize - 1][y].solid);
    }
}

#[test]
fn open_tiles_look_like_floor_walls_like_rock() {
    // A fresh map holds exactly two tile shapes: carved floor
    // (walkable and see-through) and untouched wall.
    let m = GameMap::new();
    for x in 0..MAP_WIDTH as usize {
        for y in 0..MAP_HEIGHT as usize {
            let t = m.tiles[x][y];
            assert_eq!(t.solid, !t.transparent);
        }
    }
}

#[test]
fn rooms_have_sides_within_the_sampling_range() {
    let m = GameMap::new();
    for r in m.rooms.iter() {
        assert!(ROOM_MIN_SIZE <= r.x2 - r.x1 && r.x2 - r.x1 <= ROOM_MAX_SIZE);
        assert!(ROOM_MIN_SIZE <= r.y2 - r.y1 && r.y2 - r.y1 <= ROOM_MAX_SIZE);
    }
}

#[test]
fn rooms_do_not_overlap() {
    let m = GameMap::new();
    for i in 0..m.rooms.len() {
        for j in 0..m.rooms.len() {
            if i != j {
                assert!(!m.rooms[i].intersects_with(&m.rooms[j]));
            }
        }
    }
}

#[test]
fn generated_map_starts_unexplored_and_unseen() {
    let m = GameMap::new();
    assert!(m.last_observer.is_none());
    for x in 0..MAP_WIDTH as usize {
        for y in 0..MAP_HEIGHT as usize {
            assert!(!m.tiles[x][y].explored);
            assert!(!m.fov[x][y]);
        }
    }
}

#[test]
fn room_centers_connected_by_floor() {
    // Flood fill over walkable tiles from the first room's center must
    // reach every other room's center.
    let m = GameMap::new();
    let mut seen = vec![vec![false; MAP_HEIGHT as usize]; MAP_WIDTH as usize];
    let start = m.rooms[0].get_center();
    let mut stack = vec![(start.0 as usize, start.1 as usize)];
    assert!(!m.tiles[start.0 as usize][start.1 as usize].solid);
    seen[start.0 as usize][start.1 as usize] = true;
    while let Some((x, y)) = stack.pop() {
        let neighbors = [
            (x.wrapping_sub(1), y),
            (x + 1, y),
            (x, y.wrapping_sub(1)),
            (x, y + 1),
        ];
        for &(nx, ny) in neighbors.iter() {
            if nx < MAP_WIDTH as usize && ny < MAP_HEIGHT as usize {
                if !seen[nx][ny] && !m.tiles[nx][ny].solid {
                    seen[nx][ny] = true;
                    stack.push((nx, ny));
                }
            }
        }
    }
    for r in m.rooms.iter() {
        let c = r.get_center();
        assert!(seen[c.0 as usize][c.1 as usize]);
    }
}
