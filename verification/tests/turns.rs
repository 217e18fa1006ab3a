use roguelike::game::{Game, PlayerAction, MAX_MONSTERS_IN_ROOM, PLAYER_INDEX};
use roguelike::map::{GameMap, Tile, MAP_HEIGHT, MAP_WIDTH};
use roguelike::object::{Ai, Color, DeathType, Object};

fn wall() -> Tile {
    Tile { solid: true, transparent: false, explored: false }
}

fn floor() -> Tile {
    Tile { solid: false, transparent: true, explored: false }
}

fn grey() -> Color {
    Color { r: 128, g: 128, b: 128 }
}

/// A hand-made arena: walls everywhere but an open square from (2, 2)
/// to (30, 30), with the player standing at (10, 10).
fn arena() -> Game {
    let mut tiles = vec![vec![wall(); MAP_HEIGHT as usize]; MAP_WIDTH as usize];
    for x in 2..=30usize {
        for y in 2..=30usize {
            tiles[x][y] = floor();
        }
    }
    let map = GameMap {
        tiles,
        rooms: Vec::new(),
        fov: vec![vec![false; MAP_HEIGHT as usize]; MAP_WIDTH as usize],
        last_observer: None,
    };
    let player = Object::new(10, 10, '@', grey(), "Player", true)
        .add_fighter(50, 2, 5, DeathType::Player);
    Game { map, objects: vec![player] }
}

fn orc_at(x: i32, y: i32) -> Object {
    Object::new(x, y, 'o', grey(), "Orc", true)
        .add_fighter(10, 2, 3, DeathType::Monster)
        .add_ai(Ai::Basic)
}

#[test]
fn moving_into_a_solid_tile_is_a_no_op() {
    let mut g = arena();
    g.map.tiles[11][10] = wall();
    let rep = g.move_obj_by(PLAYER_INDEX, 1, 0);
    assert!(rep.is_none());
    assert_eq!(g.objects[0].get_pos(), (10, 10));
}

#[test]
fn moving_into_a_blocking_non_fighter_bumps_without_attack() {
    let mut g = arena();
    g.objects.push(Object::new(11, 10, '#', grey(), "Boulder", true));
    let rep = g.move_obj_by(PLAYER_INDEX, 1, 0);
    assert!(rep.is_none());
    assert_eq!(g.objects[0].get_pos(), (10, 10));
    assert!(g.objects[1].alive);
}

#[test]
fn moving_into_an_open_tile_moves() {
    let mut g = arena();
    let rep = g.move_obj_by(PLAYER_INDEX, 1, 0);
    assert!(rep.is_none());
    assert_eq!(g.objects[0].get_pos(), (11, 10));
}

#[test]
fn moving_into_a_fighter_attacks_instead_and_never_displaces() {
    let mut g = arena();
    g.objects.push(orc_at(11, 10));
    let rep = g.move_obj_by(PLAYER_INDEX, 1, 0).expect("an attack must be reported");
    assert_eq!(rep.attacker, 0);
    assert_eq!(rep.target, 1);
    assert_eq!(rep.damage, 3); // power 5 less defense 2
    assert_eq!(g.objects[1].fighter.as_ref().unwrap().hp, 7);
    // The tick resolved as an attack: the player did not move.
    assert_eq!(g.objects[0].get_pos(), (10, 10));
}

#[test]
fn killing_blow_leaves_a_corpse_that_no_longer_blocks() {
    let mut g = arena();
    let mut weak = orc_at(11, 10);
    weak.fighter.as_mut().unwrap().hp = 3;
    g.objects.push(weak);
    assert!(g.is_blocked(11, 10));
    let rep = g.move_obj_by(PLAYER_INDEX, 1, 0).expect("an attack must be reported");
    assert_eq!(rep.damage, 3);
    assert!(!g.objects[1].alive);
    assert!(!g.is_blocked(11, 10));
    // Movement was still suppressed on the attack tick.
    assert_eq!(g.objects[0].get_pos(), (10, 10));
}

#[test]
fn dead_entities_do_not_move() {
    let mut g = arena();
    g.objects[0].alive = false;
    g.objects[0].blocks = false;
    let rep = g.move_obj_by(PLAYER_INDEX, 1, 0);
    assert!(rep.is_none());
    assert_eq!(g.objects[0].get_pos(), (10, 10));
}

#[test]
fn monster_outside_the_visible_set_is_dormant() {
    let mut g = arena();
    g.update_fov();
    g.objects.push(orc_at(28, 28)); // far outside the radius around (10, 10)
    let reports = g.update_objects();
    assert!(reports.is_empty());
    assert_eq!(g.objects[1].get_pos(), (28, 28));
}

#[test]
fn seen_monster_steps_toward_the_player() {
    let mut g = arena();
    g.update_fov();
    g.objects.push(orc_at(14, 10));
    let reports = g.update_objects();
    assert!(reports.is_empty());
    assert_eq!(g.objects[1].get_pos(), (13, 10));
}

#[test]
fn seen_monster_steps_diagonally_when_that_is_the_direction() {
    let mut g = arena();
    g.update_fov();
    g.objects.push(orc_at(14, 14));
    g.update_objects();
    assert_eq!(g.objects[1].get_pos(), (13, 13));
}

#[test]
fn adjacent_monster_attacks_the_player() {
    let mut g = arena();
    g.update_fov();
    g.objects.push(orc_at(11, 10));
    let reports = g.update_objects();
    assert_eq!(reports.len(), 1);
    assert_eq!(reports[0].attacker, 1);
    assert_eq!(reports[0].target, 0);
    assert_eq!(reports[0].damage, 1); // power 3 less defense 2
    assert_eq!(g.objects[0].fighter.as_ref().unwrap().hp, 49);
    assert_eq!(g.objects[1].get_pos(), (11, 10));
}

#[test]
fn adjacent_monster_leaves_a_dead_player_alone() {
    let mut g = arena();
    g.update_fov();
    g.objects[0].alive = false;
    g.objects[0].blocks = false;
    g.objects.push(orc_at(11, 10));
    let reports = g.update_objects();
    assert!(reports.is_empty());
    assert_eq!(g.objects[0].fighter.as_ref().unwrap().hp, 50);
}

#[test]
fn monsters_act_in_store_order() {
    let mut g = arena();
    g.update_fov();
    g.objects.push(orc_at(11, 10));
    g.objects.push(orc_at(9, 10));
    let reports = g.update_objects();
    assert_eq!(reports.len(), 2);
    assert_eq!(reports[0].attacker, 1);
    assert_eq!(reports[1].attacker, 2);
    assert_eq!(g.objects[0].fighter.as_ref().unwrap().hp, 48);
}

#[test]
fn handle_action_moves_in_all_four_directions() {
    let mut g = arena();
    g.handle_action(PlayerAction::MoveRight);
    assert_eq!(g.objects[0].get_pos(), (11, 10));
    g.handle_action(PlayerAction::MoveDown);
    assert_eq!(g.objects[0].get_pos(), (11, 11));
    g.handle_action(PlayerAction::MoveLeft);
    assert_eq!(g.objects[0].get_pos(), (10, 11));
    g.handle_action(PlayerAction::MoveUp);
    assert_eq!(g.objects[0].get_pos(), (10, 10));
}

#[test]
fn new_game_spawns_the_player_in_the_first_room() {
    let g = Game::new();
    let c = g.map.rooms[0].get_center();
    assert_eq!(g.objects[0].get_pos(), c);
    assert!(g.objects[0].alive);
    assert!(g.objects[0].blocks);
    assert_eq!(g.objects[0].glyph, '@');
    assert_eq!(g.objects[0].name, "Player");
    assert_eq!(g.objects[0].fighter.as_ref().unwrap().hp, 50);
    assert!(!g.map.tiles[c.0 as usize][c.1 as usize].solid);
}

#[test]
fn spawned_monsters_are_orcs_or_trolls() {
    let g = Game::new();
    for o in g.objects.iter().skip(1) {
        let f = o.fighter.as_ref().unwrap();
        if o.glyph == 'o' {
            assert_eq!(o.name, "Orc");
            assert_eq!((f.max_hp, f.hp, f.defense, f.power), (10, 10, 0, 3));
        } else {
            assert_eq!(o.glyph, 'T');
            assert_eq!(o.name, "Troll");
            assert_eq!((f.max_hp, f.hp, f.defense, f.power), (16, 16, 1, 4));
        }
        assert!(o.alive && o.blocks && o.ai.is_some());
    }
}

#[test]
fn spawning_is_bounded_and_never_stacks_blockers() {
    let g = Game::new();
    assert!(g.objects.len() <= 1 + g.map.rooms.len() * MAX_MONSTERS_IN_ROOM as usize);
    for j in 0..g.objects.len() {
        for k in 0..g.objects.len() {
            if j != k && g.objects[j].blocks && g.objects[k].blocks {
                assert_ne!(g.objects[j].get_pos(), g.objects[k].get_pos());
            }
        }
    }
}

#[test]
fn update_fov_explores_the_player_tile() {
    let mut g = Game::new();
    g.update_fov();
    let (x, y) = g.objects[0].get_pos();
    assert!(g.map.fov[x as usize][y as usize]);
    assert!(g.map.tiles[x as usize][y as usize].explored);
}

#[test]
fn restart_resets_explored_state() {
    // A tile explored in the previous dungeon is not explored after a
    // restart unless it is observed again.
    let mut g = Game::new();
    g.update_fov();
    g.map.tiles[3][3].explored = true;
    g.restart();
    for x in 0..MAP_WIDTH as usize {
        for y in 0..MAP_HEIGHT as usize {
            assert!(!g.map.tiles[x][y].explored);
        }
    }
    assert!(g.map.last_observer.is_none());
    assert!(g.objects[0].alive);
}
