use bracket_lib::prelude::RandomNumberGenerator;
use dungeon_crawler::grid::Point;
use dungeon_crawler::random_move::{random_move, MoveIntent, Occupant};
use dungeon_crawler::template::{EntityType, Template, Templates};
use legion::World;

fn template(name: &str, levels: Vec<usize>, frequency: i32) -> Template {
    Template {
        entity_type: EntityType::Enemy,
        levels,
        frequency,
        name: name.to_string(),
        glyph: 'g',
        provides: None,
        hp: Some(1),
        base_damage: Some(1),
    }
}

#[test]
fn random_move_moves_into_empty_tile() {
    let mut world = World::default();
    let mover = world.push((1u32,));
    let other = world.push((2u32,));
    let occ = vec![Occupant { entity: other, pos: Point::new(9, 9), is_player: false }];
    let r = random_move(mover, Point::new(5, 5), 1, &occ);
    assert_eq!(r.len(), 1);
    match r[0] {
        MoveIntent::Move(m) => {
            assert_eq!(m.entity, mover);
            assert_eq!(m.destination, Point::new(6, 5));
        }
        MoveIntent::Attack(_) => panic!("expected a move"),
    }
}

#[test]
fn random_move_attacks_player() {
    let mut world = World::default();
    let mover = world.push((1u32,));
    let player = world.push((2u32,));
    let occ = vec![Occupant { entity: player, pos: Point::new(5, 4), is_player: true }];
    let r = random_move(mover, Point::new(5, 5), 2, &occ);
    assert_eq!(r.len(), 1);
    match r[0] {
        MoveIntent::Attack(a) => {
            assert_eq!(a.attacker, mover);
            assert_eq!(a.target, player);
        }
        MoveIntent::Move(_) => panic!("expected an attack"),
    }
}

#[test]
fn random_move_blocked_by_monster() {
    let mut world = World::default();
    let mover = world.push((1u32,));
    let other = world.push((2u32,));
    let occ = vec![Occupant { entity: other, pos: Point::new(5, 6), is_player: false }];
    let r = random_move(mover, Point::new(5, 5), 3, &occ);
    assert!(r.is_empty());
    let r = random_move(mover, Point::new(5, 5), 0, &occ);
    assert_eq!(r.len(), 1);
}

#[test]
fn pool_weights_by_frequency_and_level() {
    let ts = Templates {
        entities: vec![
            template("Goblin", vec![0, 1], 3),
            template("Orc", vec![1, 2], 2),
            template("Ogre", vec![2], 1),
        ],
    };
    assert_eq!(ts.available_entities(0), vec![0, 0, 0]);
    assert_eq!(ts.available_entities(1), vec![0, 0, 0, 1, 1]);
    assert_eq!(ts.available_entities(2), vec![1, 1, 2]);
    assert!(ts.available_entities(5).is_empty());
}

#[test]
fn spawn_plan_uses_level_pool() {
    let ts = Templates {
        entities: vec![template("Goblin", vec![0], 3), template("Ogre", vec![2], 1)],
    };
    let points = vec![Point::new(1, 1), Point::new(2, 2), Point::new(3, 3)];
    let mut rng = RandomNumberGenerator::seeded(4);
    let plan = ts.plan_spawns(&mut rng, 2, &points);
    assert_eq!(plan, vec![(Point::new(1, 1), 1), (Point::new(2, 2), 1), (Point::new(3, 3), 1)]);
    assert!(ts.plan_spawns(&mut rng, 7, &points).is_empty());
}
