use roguelike::map::{GameMap, Tile, MAP_HEIGHT, MAP_WIDTH};
use roguelike::object::{Color, Object};

fn wall() -> Tile {
    Tile { solid: true, transparent: false, explored: false }
}

fn floor() -> Tile {
    Tile { solid: false, transparent: true, explored: false }
}

fn all_wall_map() -> GameMap {
    GameMap {
        tiles: vec![vec![wall(); MAP_HEIGHT as usize]; MAP_WIDTH as usize],
        rooms: Vec::new(),
        fov: vec![vec![false; MAP_HEIGHT as usize]; MAP_WIDTH as usize],
        last_observer: None,
    }
}

fn observer(x: i32, y: i32) -> Object {
    Object::new(x, y, '@', Color { r: 255, g: 255, b: 255 }, "Player", true)
}

#[test]
fn wall_blocks_sight_beyond_it() {
    // Observer, an opaque tile, and a tile directly behind it, all on
    // one row: the opaque tile is seen, the tile beyond is not.
    let mut m = all_wall_map();
    for x in 5..20 {
        m.tiles[x][10] = floor();
    }
    m.tiles[13][10] = wall();
    m.recaculate_fov(&observer(10, 10));
    assert!(m.fov[13][10]);
    assert!(!m.fov[16][10]);
}

#[test]
fn wall_blocks_sight_on_diagonal() {
    let mut m = all_wall_map();
    for d in 0..8 {
        m.tiles[10 + d][10 + d] = floor();
    }
    m.tiles[12][12] = wall();
    m.recaculate_fov(&observer(10, 10));
    assert!(m.fov[12][12]);
    assert!(!m.fov[14][14]);
}

#[test]
fn radius_is_a_hard_cutoff() {
    let mut m = all_wall_map();
    for x in 5..40 {
        m.tiles[x][10] = floor();
    }
    m.recaculate_fov(&observer(10, 10));
    assert!(m.fov[20][10]); // distance 10, at the radius
    assert!(!m.fov[21][10]); // distance 11, beyond it
}

#[test]
fn observer_tile_is_visible() {
    let mut m = all_wall_map();
    m.tiles[10][10] = floor();
    m.recaculate_fov(&observer(10, 10));
    assert!(m.fov[10][10]);
    assert!(m.tiles[10][10].explored);
}

#[test]
fn visible_tiles_become_explored() {
    let mut m = all_wall_map();
    for x in 5..20 {
        m.tiles[x][10] = floor();
    }
    m.recaculate_fov(&observer(10, 10));
    for x in 5..20 {
        assert_eq!(m.tiles[x][10].explored, m.fov[x][10]);
    }
}

#[test]
fn explored_flags_are_monotonic() {
    // Once explored, a tile stays explored through any sequence of
    // further visibility updates from other positions.
    let mut m = all_wall_map();
    for x in 2..78 {
        m.tiles[x][10] = floor();
    }
    m.recaculate_fov(&observer(10, 10));
    let explored_before: Vec<(usize, usize)> = (0..MAP_WIDTH as usize)
        .flat_map(|x| (0..MAP_HEIGHT as usize).map(move |y| (x, y)))
        .filter(|&(x, y)| m.tiles[x][y].explored)
        .collect();
    assert!(!explored_before.is_empty());
    m.recaculate_fov(&observer(40, 10));
    m.recaculate_fov(&observer(70, 10));
    for &(x, y) in explored_before.iter() {
        assert!(m.tiles[x][y].explored);
    }
}

#[test]
fn unchanged_position_recomputes_nothing() {
    let mut m = all_wall_map();
    for x in 5..20 {
        m.tiles[x][10] = floor();
    }
    m.tiles[13][10] = wall();
    m.recaculate_fov(&observer(10, 10));
    assert!(!m.fov[16][10]);
    // Open the blocking tile; with the observer unmoved the visible set
    // must stay what it was (the engine memoizes on the position).
    m.tiles[13][10] = floor();
    m.recaculate_fov(&observer(10, 10));
    assert!(!m.fov[16][10]);
    assert_eq!(m.last_observer, Some((10, 10)));
    // Once the observer moves, the set is recomputed.
    m.recaculate_fov(&observer(11, 10));
    assert!(m.fov[16][10]);
}
