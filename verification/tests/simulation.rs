use rise::fixed::UNIT;
use rise::genetics::{Gene, Genome};
use rise::evolution::Creator;
use rise::random::RandomSource;
use rise::world::{fitness, Actor, Vec2, World, TPG};

#[test]
fn creator_maintains_population() {
    let mut genome1 = Genome::new(
        vec![
            Gene { into: 0, out: 3, weight: UNIT, enabled: true, innovation: 1 },
            Gene { into: 1, out: 3, weight: UNIT, enabled: true, innovation: 2 },
            Gene { into: 3, out: 2, weight: UNIT, enabled: true, innovation: 3 },
        ],
        2,
        1,
    );

    let mut genome2 = Genome::new(
        vec![
            Gene { into: 1, out: 3, weight: UNIT, enabled: true, innovation: 1 },
            Gene { into: 2, out: 3, weight: UNIT, enabled: true, innovation: 2 },
            Gene { into: 3, out: 2, weight: UNIT, enabled: true, innovation: 3 },
        ],
        2,
        1,
    );

    genome1.fitness = -2 * UNIT;
    genome2.fitness = -2 * UNIT;

    let mut creator = Creator::new();
    let mut rng = rise::random::rng();
    let next_gen = creator.next_generation(vec![&genome1, &genome2], &mut rng);

    assert!(next_gen.len() == 2);
}

#[test]
fn next_generation_leaves_no_species_empty() {
    let mut genomes = Vec::new();
    let mut rng = RandomSource::new(17);
    let mut creator = Creator::new();
    for i in 0..6i64 {
        let mut g = Genome::random(7, 2, &mut rng, &mut creator.registry);
        g.fitness = -i * UNIT;
        genomes.push(g);
    }
    let refs: Vec<&Genome> = genomes.iter().collect();
    let offspring = creator.next_generation(refs, &mut rng);

    for sp in creator.species.iter() {
        assert!(sp.genomes.len() > 0);
    }
    for child in offspring.iter() {
        assert_eq!(child.num_inputs, 7);
        assert_eq!(child.num_outputs, 2);
    }
}

#[test]
fn fitness_is_the_negated_distance_to_origin() {
    let genome = Genome::new(Vec::new(), 7, 2);
    let actor = Actor::new(genome);
    // the spawn point (320, 240) lies exactly 400 units from the origin
    assert_eq!(fitness(&actor), -400 * UNIT);
}

#[test]
fn pushes_accumulate_acceleration() {
    let genome = Genome::new(Vec::new(), 7, 2);
    let mut actor = Actor::new(genome);
    actor.push(Vec2::new(3, 4));
    actor.push(Vec2::new(-1, 2));
    assert_eq!(actor.acceleration, Vec2::new(2, 6));
    assert_eq!(actor.velocity, Vec2::new(0, 0));
}

#[test]
fn actors_integrate_one_tick() {
    let genome = Genome::new(Vec::new(), 7, 2);
    let mut actor = Actor::new(genome);
    actor.update();
    // an empty gene list yields zero jerk: the actor stays at rest
    assert_eq!(actor.acceleration, Vec2::new(0, 0));
    assert_eq!(actor.velocity, Vec2::new(0, 0));
    assert_eq!(actor.position, Vec2::new(320 * UNIT, 240 * UNIT));
}

#[test]
fn worlds_tick_and_turn_generations() {
    let mut world = World::new();
    assert_eq!(world.actors.len(), 100);
    assert_eq!(world.generation_tick, TPG);

    for _ in 0..(TPG - 1) {
        world.update();
    }
    assert_eq!(world.generation_tick, 1);
    assert_eq!(world.actors.len(), 100);

    // the boundary tick: the population is evolved and the countdown resets
    world.update();
    assert_eq!(world.generation_tick, TPG);
}
