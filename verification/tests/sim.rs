use colony_sim::ant::check_ant_found_food;
use colony_sim::ant::Ant;
use colony_sim::ant::AntMode;
use colony_sim::ant::AntRole;
use colony_sim::food::Food;
use colony_sim::geometry::Position;
use colony_sim::pheromone::age_pheromones;
use colony_sim::pheromone::update_pheromones;
use colony_sim::pheromone::Pheromone;
use colony_sim::pheromone::PheromoneKind;
use colony_sim::rng::RandomSource;
use colony_sim::world::SimError;
use colony_sim::world::World;

fn pos(x: u16, y: u16) -> Position {
    Position { x, y }
}

fn worker_at(p: Position) -> Ant {
    Ant::new(p, AntRole::Worker, 1, 100, 20, false, AntMode::Wandering)
}

#[test]
fn round_trip_single_worker() {
    let mut w = World::with_config(10, 10, pos(1, 1), 1, 0, 1).unwrap();
    w.add_ant(worker_at(pos(5, 5))).unwrap();
    w.add_food(Food { position: pos(5, 6), lifespan: 50, size: 50, age: 0 }).unwrap();
    // one draw per axis: stay on x, step +1 on y, onto the food
    let mut rng = RandomSource::fixed(vec![1, 2]);
    w.step(&mut rng);
    assert_eq!(w.ants.len(), 1);
    assert_eq!(w.ants[0].position, pos(5, 6));
    assert!(matches!(w.ants[0].mode, AntMode::Returning));
    assert!(w.ants[0].carrying_food);
    assert_eq!(w.foods.len(), 1);
    assert_eq!(w.foods[0].size, 48);
}

#[test]
fn weak_pheromone_gone_after_ten_aging_passes() {
    let mut phs = vec![Pheromone::new(pos(2, 2), PheromoneKind::Weak)];
    assert_eq!(phs[0].duration, 10);
    for _ in 0..9 {
        age_pheromones(&mut phs);
    }
    update_pheromones(&mut phs);
    assert_eq!(phs.len(), 1);
    age_pheromones(&mut phs);
    update_pheromones(&mut phs);
    assert_eq!(phs.len(), 0);
}

#[test]
fn fixed_source_runs_are_identical() {
    let values = vec![5, 1, 2, 9, 0, 7, 3, 8, 4, 6, 11, 13];
    let mut w1 = World::with_config(12, 12, pos(3, 3), 2, 1, 2).unwrap();
    let mut w2 = World::with_config(12, 12, pos(3, 3), 2, 1, 2).unwrap();
    w1.add_ant(worker_at(pos(6, 6))).unwrap();
    w2.add_ant(worker_at(pos(6, 6))).unwrap();
    let mut r1 = RandomSource::fixed(values.clone());
    let mut r2 = RandomSource::fixed(values);
    for _ in 0..25 {
        w1.step(&mut r1);
        w2.step(&mut r2);
        let p1: Vec<Position> = w1.ants.iter().map(|a| a.position).collect();
        let p2: Vec<Position> = w2.ants.iter().map(|a| a.position).collect();
        assert_eq!(p1, p2);
        assert_eq!(w1.pheromones, w2.pheromones);
        assert_eq!(w1.foods, w2.foods);
    }
}

#[test]
fn wandering_step_moves_at_most_one_per_axis() {
    let mut w = World::with_config(9, 9, pos(1, 1), 1, 0, 1).unwrap();
    w.add_ant(worker_at(pos(4, 4))).unwrap();
    let mut rng = RandomSource::fixed(vec![0, 0, 2, 2, 1, 0, 2, 1]);
    let mut prev = pos(4, 4);
    for _ in 0..10 {
        w.step(&mut rng);
        let cur = w.ants[0].position;
        assert!(cur.x.abs_diff(prev.x) <= 1);
        assert!(cur.y.abs_diff(prev.y) <= 1);
        assert!(1 <= cur.x && cur.x <= 8);
        assert!(1 <= cur.y && cur.y <= 8);
        prev = cur;
    }
}

#[test]
fn returning_ant_snaps_onto_adjacent_colony() {
    let mut w = World::with_config(10, 10, pos(3, 3), 1, 0, 1).unwrap();
    let ant = Ant::new(pos(4, 3), AntRole::Worker, 1, 100, 20, true, AntMode::Returning);
    w.add_ant(ant).unwrap();
    let mut rng = RandomSource::fixed(vec![0]);
    w.step(&mut rng);
    assert_eq!(w.ants[0].position, pos(3, 3));
    // arrival lays no trail
    assert_eq!(w.pheromones.len(), 0);
}

#[test]
fn harvesting_shrinks_food_by_two_and_turns_the_ant() {
    let mut ant = worker_at(pos(2, 2));
    let mut foods = vec![
        Food { position: pos(2, 2), lifespan: 40, size: 10, age: 0 },
        Food { position: pos(3, 2), lifespan: 40, size: 10, age: 0 },
    ];
    check_ant_found_food(&mut ant, &mut foods);
    assert_eq!(foods[0].size, 8);
    assert_eq!(foods[1].size, 10);
    assert!(matches!(ant.mode, AntMode::Returning));
    assert!(ant.carrying_food);
}

#[test]
fn at_most_one_spawn_per_step_up_to_stockpile() {
    let mut w = World::with_config(10, 10, pos(2, 2), 3, 0, 1).unwrap();
    w.add_ant(worker_at(pos(5, 5))).unwrap();
    let mut rng = RandomSource::fixed(vec![1, 1]);
    w.step(&mut rng);
    assert_eq!(w.ants.len(), 2);
    w.step(&mut rng);
    assert_eq!(w.ants.len(), 3);
    w.step(&mut rng);
    assert_eq!(w.ants.len(), 3);
}

#[test]
fn entity_bounds_hold_after_every_step() {
    let mut w = World::with_config(8, 8, pos(4, 4), 2, 1, 2).unwrap();
    w.add_ant(worker_at(pos(2, 2))).unwrap();
    let mut rng = RandomSource::fixed(vec![2, 0, 1, 2, 0, 1, 7, 3]);
    for _ in 0..40 {
        w.step(&mut rng);
        for a in &w.ants {
            assert!(a.age < a.lifespan);
            assert!(1 <= a.position.x && a.position.x < 8);
            assert!(1 <= a.position.y && a.position.y < 8);
        }
        for p in &w.pheromones {
            assert!(p.age < p.duration);
        }
        for f in &w.foods {
            assert!(f.age < f.lifespan);
            assert!(f.size > 0);
        }
    }
}

#[test]
fn fresh_world_has_one_worker_on_the_colony() {
    let mut rng = RandomSource::fixed(vec![4, 7]);
    let w = World::new(20, 12, &mut rng).unwrap();
    assert_eq!(w.ants.len(), 1);
    assert_eq!(w.ants[0].position, w.colony.position);
    assert!(matches!(w.ants[0].role, AntRole::Worker));
    assert_eq!(w.ants[0].lifespan, 100);
    assert_eq!(w.colony.stockpile, 10);
    assert!(w.pheromones.is_empty());
    assert!(w.foods.is_empty());
    assert!(!w.ended);
}

#[test]
fn too_small_world_is_rejected() {
    let mut rng = RandomSource::fixed(vec![1]);
    assert_eq!(World::new(2, 10, &mut rng).unwrap_err(), SimError::DimensionsTooSmall);
    assert_eq!(World::new(10, 0, &mut rng).unwrap_err(), SimError::DimensionsTooSmall);
    assert_eq!(
        World::with_config(1, 10, pos(1, 1), 1, 0, 1).unwrap_err(),
        SimError::DimensionsTooSmall
    );
}

#[test]
fn bad_configurations_are_rejected() {
    assert_eq!(
        World::with_config(10, 10, pos(0, 4), 1, 0, 1).unwrap_err(),
        SimError::OutsideInterior
    );
    assert_eq!(
        World::with_config(10, 10, pos(4, 4), 0, 0, 1).unwrap_err(),
        SimError::ZeroStockpile
    );
    assert_eq!(
        World::with_config(10, 10, pos(4, 4), 1, 2, 1).unwrap_err(),
        SimError::BadSpawnRate
    );
    assert_eq!(
        World::with_config(10, 10, pos(4, 4), 1, 0, 0).unwrap_err(),
        SimError::BadSpawnRate
    );
}

#[test]
fn bad_entities_are_rejected() {
    let mut w = World::with_config(10, 10, pos(4, 4), 1, 0, 1).unwrap();
    assert_eq!(w.add_ant(worker_at(pos(10, 4))).unwrap_err(), SimError::OutsideInterior);
    let stale = Ant::new(pos(4, 4), AntRole::Worker, 1, 0, 20, false, AntMode::Wandering);
    assert_eq!(w.add_ant(stale).unwrap_err(), SimError::Expired);
    assert_eq!(
        w.add_food(Food { position: pos(4, 4), lifespan: 10, size: 0, age: 0 }).unwrap_err(),
        SimError::Depleted
    );
    assert_eq!(
        w.add_food(Food { position: pos(4, 4), lifespan: 10, size: 5, age: 10 }).unwrap_err(),
        SimError::Expired
    );
    assert!(w.ants.is_empty() && w.foods.is_empty());
}

#[test]
fn snapshot_mirrors_the_world() {
    let mut w = World::with_config(10, 10, pos(4, 4), 1, 0, 1).unwrap();
    w.add_ant(worker_at(pos(2, 3))).unwrap();
    w.add_food(Food { position: pos(7, 7), lifespan: 40, size: 60, age: 0 }).unwrap();
    w.pheromones.push(Pheromone::new(pos(5, 5), PheromoneKind::Strong));
    let s = w.snapshot();
    assert_eq!((s.width, s.height), (10, 10));
    assert_eq!(s.colony, pos(4, 4));
    assert_eq!(s.ants, vec![pos(2, 3)]);
    assert_eq!(s.foods, vec![pos(7, 7)]);
    assert_eq!(s.pheromones, vec![(pos(5, 5), PheromoneKind::Strong)]);
}

#[test]
fn wanderer_teleports_onto_adjacent_strong_trail() {
    let mut w = World::with_config(10, 10, pos(1, 1), 1, 0, 1).unwrap();
    w.add_ant(worker_at(pos(5, 5))).unwrap();
    w.pheromones.push(Pheromone::new(pos(6, 8), PheromoneKind::Strong));
    let mut rng = RandomSource::fixed(vec![1, 1]);
    w.step(&mut rng);
    // the x gap is one, so the ant jumps onto the marker and remembers it
    assert_eq!(w.ants[0].position, pos(6, 8));
    assert!(w.ants[0].explored.is_some());
    // no new trail was laid during the jump
    assert_eq!(w.pheromones.len(), 1);
}

#[test]
fn fixed_source_cycles_through_its_values() {
    let mut rng = RandomSource::fixed(vec![3, 7]);
    assert_eq!(rng.pick(0, 10), 3);
    assert_eq!(rng.pick(0, 10), 7);
    assert_eq!(rng.pick(0, 10), 3);
    assert_eq!(rng.pick(5, 6), 5);
}

#[test]
fn aging_is_driven_separately_from_stepping() {
    let mut w = World::with_config(10, 10, pos(4, 4), 1, 0, 1).unwrap();
    w.add_food(Food { position: pos(7, 7), lifespan: 2, size: 60, age: 0 }).unwrap();
    w.pheromones.push(Pheromone::new(pos(5, 5), PheromoneKind::Weak));
    w.age_entities();
    assert_eq!(w.foods[0].age, 1);
    assert_eq!(w.pheromones[0].age, 1);
    w.age_entities();
    let mut rng = RandomSource::fixed(vec![1]);
    w.step(&mut rng);
    // the expired food is pruned by the step; the old pheromone still
    // lives, and the worker spawned by the step laid a fresh one
    assert!(w.foods.is_empty());
    assert_eq!(w.pheromones.len(), 2);
    assert_eq!(w.pheromones[0].age, 2);
}

#[test]
fn system_source_stays_in_range() {
    let mut rng = RandomSource::system();
    for _ in 0..100 {
        let v = rng.pick(3, 6);
        assert!((3..6).contains(&v));
    }
    let mut w = World::new(30, 15, &mut rng).unwrap();
    for _ in 0..20 {
        w.step(&mut rng);
    }
    for a in &w.ants {
        assert!(1 <= a.position.x && a.position.x < 30);
        assert!(1 <= a.position.y && a.position.y < 15);
    }
}

#[test]
fn wanderer_waits_when_the_strong_trail_is_far() {
    let mut w = World::with_config(12, 12, pos(1, 1), 1, 0, 1).unwrap();
    w.add_ant(worker_at(pos(5, 5))).unwrap();
    w.pheromones.push(Pheromone::new(pos(9, 9), PheromoneKind::Strong));
    let mut rng = RandomSource::fixed(vec![0, 0]);
    w.step(&mut rng);
    // the one usable marker is out of reach: no movement, no memory,
    // and no fresh trail this step
    assert_eq!(w.ants[0].position, pos(5, 5));
    assert!(w.ants[0].explored.is_none());
    assert_eq!(w.pheromones.len(), 1);
}

#[test]
fn population_grows_even_after_aging_passes() {
    let mut w = World::with_config(10, 10, pos(2, 2), 2, 0, 1).unwrap();
    w.add_ant(worker_at(pos(5, 5))).unwrap();
    w.pheromones.push(Pheromone::new(pos(7, 7), PheromoneKind::Weak));
    // stale markers from render-driven aging do not hold the spawn back
    w.age_entities();
    w.age_entities();
    let mut rng = RandomSource::fixed(vec![1, 1]);
    w.step(&mut rng);
    assert_eq!(w.ants.len(), 2);
}
