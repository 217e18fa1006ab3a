use roguelike::object::{Color, DeathType, Object};

fn grey() -> Color {
    Color { r: 128, g: 128, b: 128 }
}

fn fighter_named(name: &str, max_hp: i32, defense: i32, power: i32, dt: DeathType) -> Object {
    Object::new(1, 1, 'x', grey(), name, true).add_fighter(max_hp, defense, power, dt)
}

#[test]
fn attack_with_power_five_against_defense_two_deals_three() {
    let attacker = fighter_named("Hero", 30, 0, 5, DeathType::Player);
    let mut defender = fighter_named("Orc", 10, 2, 0, DeathType::Monster);
    let damage = attacker.attack(&mut defender);
    assert_eq!(damage, 3);
    assert_eq!(defender.fighter.as_ref().unwrap().hp, 7);
    assert!(defender.alive);
}

#[test]
fn attack_with_power_two_against_defense_five_has_no_effect() {
    let attacker = fighter_named("Hero", 30, 0, 2, DeathType::Player);
    let mut defender = fighter_named("Orc", 10, 5, 0, DeathType::Monster);
    let damage = attacker.attack(&mut defender);
    assert!(damage <= 0);
    assert_eq!(defender.fighter.as_ref().unwrap().hp, 10);
    assert!(defender.alive);
}

#[test]
fn attack_on_fighterless_target_changes_nothing() {
    let attacker = fighter_named("Hero", 30, 0, 5, DeathType::Player);
    let mut scenery = Object::new(1, 1, '#', grey(), "Boulder", true);
    let damage = attacker.attack(&mut scenery);
    assert_eq!(damage, 5);
    assert!(scenery.fighter.is_none());
    assert!(scenery.alive);
    assert!(scenery.blocks);
}

#[test]
fn lethal_damage_kills_the_defender() {
    let attacker = fighter_named("Hero", 30, 0, 5, DeathType::Player);
    let mut defender = fighter_named("Orc", 3, 2, 0, DeathType::Monster);
    let damage = attacker.attack(&mut defender);
    assert_eq!(damage, 3);
    assert!(!defender.alive);
    assert!(!defender.blocks);
    assert!(defender.ai.is_none());
    assert!(defender.fighter.is_none());
    assert_eq!(defender.glyph, '%');
    assert_eq!(defender.name, "Remains of Orc");
    assert_eq!(defender.color, Color { r: 191, g: 0, b: 0 });
}

#[test]
fn take_damage_kills_at_exactly_zero_hit_points() {
    let mut defender = fighter_named("Orc", 3, 0, 0, DeathType::Monster);
    defender.take_damage(3);
    assert!(!defender.alive);
}

#[test]
fn take_damage_leaves_a_survivor_alive() {
    let mut defender = fighter_named("Orc", 3, 0, 0, DeathType::Monster);
    defender.take_damage(2);
    assert!(defender.alive);
    assert_eq!(defender.fighter.as_ref().unwrap().hp, 1);
}

#[test]
fn dead_player_keeps_its_stats() {
    let mut player = fighter_named("Player", 3, 0, 5, DeathType::Player);
    player.take_damage(10);
    assert!(!player.alive);
    assert!(!player.blocks);
    let f = player.fighter.as_ref().unwrap();
    assert_eq!(f.hp, -7);
    assert_eq!(f.power, 5);
    assert_eq!(player.name, "Remains of Player");
    assert_eq!(player.color, Color { r: 255, g: 0, b: 0 });
}

#[test]
fn builders_fill_every_field() {
    let o = Object::new(4, 7, 'T', Color { r: 0, g: 191, b: 0 }, "Troll", true)
        .add_fighter(16, 1, 4, DeathType::Monster)
        .add_ai(roguelike::object::Ai::Basic);
    assert_eq!(o.get_pos(), (4, 7));
    assert_eq!(o.glyph, 'T');
    assert_eq!(o.name, "Troll");
    assert!(o.blocks);
    assert!(o.alive);
    let f = o.fighter.as_ref().unwrap();
    assert_eq!((f.max_hp, f.hp, f.defense, f.power), (16, 16, 1, 4));
    assert!(o.ai.is_some());
}

#[test]
fn set_pos_moves_the_entity() {
    let mut o = Object::new(4, 7, 'x', grey(), "Thing", false);
    o.set_pos(9, 2);
    assert_eq!(o.get_pos(), (9, 2));
}

#[test]
fn distance_sq_is_squared_euclidean() {
    let a = Object::new(1, 2, 'x', grey(), "A", false);
    let b = Object::new(4, 6, 'x', grey(), "B", false);
    assert_eq!(a.distance_sq(&b), 25);
    assert_eq!(b.distance_sq(&a), 25);
    assert_eq!(a.distance_sq(&a), 0);
}
