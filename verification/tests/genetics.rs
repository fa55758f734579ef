use rise::fixed::UNIT;
use rise::genetics::{Gene, Genome, InnovationRegistry};
use rise::random::RandomSource;

#[test]
fn genomes_breed() {
    let genome1 = Genome::new(
        vec![
            Gene { into: 0, out: 3, weight: UNIT, enabled: true, innovation: 1 },
            Gene { into: 1, out: 3, weight: UNIT, enabled: true, innovation: 2 },
            Gene { into: 3, out: 2, weight: UNIT, enabled: true, innovation: 3 },
        ],
        2,
        1,
    );

    let genome2 = Genome::new(
        vec![
            Gene { into: 1, out: 3, weight: UNIT, enabled: true, innovation: 1 },
            Gene { into: 2, out: 3, weight: UNIT, enabled: true, innovation: 2 },
            Gene { into: 3, out: 2, weight: UNIT, enabled: true, innovation: 3 },
        ],
        2,
        1,
    );

    let mut rng = rise::random::rng();
    let mut registry = InnovationRegistry::starting_at(3);
    let child = genome1.breed(&genome2, &mut rng, &mut registry);

    assert!(child.genes.len() > 0);
}

#[test]
fn genome_crossover_preserves_innovation_ordering() {
    // the innovation counter's seed plays no part here: crossover issues no
    // new numbers, it only aligns the parents' existing ones
    let genome1 = Genome::new(
        vec![
            Gene { into: 0, out: 3, weight: UNIT, enabled: true, innovation: 1 },
            Gene { into: 1, out: 3, weight: UNIT, enabled: true, innovation: 2 },
            Gene { into: 3, out: 2, weight: UNIT, enabled: true, innovation: 3 },
        ],
        2,
        1,
    );

    let genome2 = Genome::new(
        vec![
            Gene { into: 1, out: 3, weight: UNIT, enabled: true, innovation: 4 },
            Gene { into: 2, out: 3, weight: UNIT, enabled: true, innovation: 5 },
            Gene { into: 3, out: 2, weight: UNIT, enabled: true, innovation: 6 },
        ],
        2,
        1,
    );

    let mut rng = rise::random::rng();
    let child = genome1.cross(&genome2, &mut rng);

    let mut ordered = true;
    let mut innovation: u64 = 0;
    for gene in child.genes.iter() {
        if innovation >= gene.innovation {
            ordered = false;
            break;
        }

        innovation = gene.innovation;
    }
    assert!(ordered);
}

#[test]
fn random_genomes_stay_in_bounds() {
    let mut rng = RandomSource::new(7);
    let mut registry = InnovationRegistry::new();
    let genome = Genome::random(7, 2, &mut rng, &mut registry);

    assert!(genome.genes.len() >= 1 && genome.genes.len() <= 4);
    for (i, gene) in genome.genes.iter().enumerate() {
        assert!(gene.into >= 1 && gene.into <= 6);
        assert!(gene.out >= 1 && gene.out <= 6);
        assert!(gene.weight >= -UNIT && gene.weight < UNIT);
        assert!(gene.enabled);
        assert_eq!(gene.innovation, (i as u64) + 1);
    }
    assert_eq!(genome.fitness, 0);
}

#[test]
fn equal_seeds_give_equal_genomes() {
    let mut rng1 = RandomSource::new(42);
    let mut reg1 = InnovationRegistry::new();
    let g1 = Genome::random(7, 2, &mut rng1, &mut reg1);

    let mut rng2 = RandomSource::new(42);
    let mut reg2 = InnovationRegistry::new();
    let g2 = Genome::random(7, 2, &mut rng2, &mut reg2);

    assert_eq!(g1.genes, g2.genes);
}

#[test]
fn clones_copy_genes_and_fitness() {
    let mut genome = Genome::new(
        vec![Gene { into: 0, out: 1, weight: 3 * UNIT, enabled: true, innovation: 1 }],
        1,
        1,
    );
    genome.fitness = -5 * UNIT;
    let copy = genome.clone();
    assert_eq!(copy.genes, genome.genes);
    assert_eq!(copy.fitness, -5 * UNIT);
}

#[test]
fn innovation_registry_counts_up() {
    let mut registry = InnovationRegistry::new();
    assert_eq!(registry.next(), 1);
    assert_eq!(registry.next(), 2);
    let mut seeded = InnovationRegistry::starting_at(6);
    assert_eq!(seeded.next(), 7);
}

#[test]
fn node_mutation_splits_a_gene() {
    let mut genome = Genome::new(
        vec![Gene { into: 0, out: 2, weight: 3 * UNIT, enabled: true, innovation: 1 }],
        2,
        1,
    );
    let mut rng = RandomSource::new(11);
    let mut registry = InnovationRegistry::starting_at(1);
    genome.mutate_node(&mut rng, &mut registry);

    assert_eq!(genome.genes.len(), 3);
    assert!(!genome.genes[0].enabled);
    // the bridge runs through the network's highest node id (the output, 2)
    assert_eq!(genome.genes[1].into, 0);
    assert_eq!(genome.genes[1].out, 2);
    assert_eq!(genome.genes[1].weight, UNIT);
    assert_eq!(genome.genes[1].innovation, 2);
    assert_eq!(genome.genes[2].into, 2);
    assert_eq!(genome.genes[2].out, 2);
    assert_eq!(genome.genes[2].weight, 3 * UNIT);
    assert_eq!(genome.genes[2].innovation, 3);
}

#[test]
fn link_mutation_adds_at_most_one_gene() {
    let mut genome = Genome::new(
        vec![
            Gene { into: 0, out: 3, weight: UNIT, enabled: true, innovation: 1 },
            Gene { into: 1, out: 3, weight: UNIT, enabled: true, innovation: 2 },
            Gene { into: 3, out: 2, weight: UNIT, enabled: true, innovation: 3 },
        ],
        2,
        1,
    );
    let mut rng = RandomSource::new(5);
    let mut registry = InnovationRegistry::starting_at(3);
    genome.mutate_link(&mut rng, &mut registry);

    assert!(genome.genes.len() == 3 || genome.genes.len() == 4);
    if genome.genes.len() == 4 {
        let added = genome.genes[3];
        assert!(added.enabled);
        assert_eq!(added.weight, UNIT);
        assert_eq!(added.innovation, 4);
        assert!(added.out >= 2);
    }
}

#[test]
fn weight_mutation_stays_within_the_step() {
    let mut genome = Genome::new(
        vec![Gene { into: 0, out: 1, weight: UNIT, enabled: true, innovation: 1 }],
        1,
        1,
    );
    let mut rng = RandomSource::new(3);
    genome.mutate_weight(&mut rng);

    assert_eq!(genome.genes.len(), 1);
    let w = genome.genes[0].weight;
    // scaled by a factor within five percent of one
    assert!(w >= 950_000 && w < 1_050_000);
}

#[test]
fn mutation_never_discards_genes() {
    let mut genome = Genome::new(
        vec![
            Gene { into: 0, out: 3, weight: UNIT, enabled: true, innovation: 1 },
            Gene { into: 3, out: 2, weight: UNIT, enabled: true, innovation: 2 },
        ],
        2,
        1,
    );
    let mut rng = RandomSource::new(9);
    let mut registry = InnovationRegistry::starting_at(2);
    for _ in 0..50 {
        let before = genome.genes.len();
        genome.mutate(&mut rng, &mut registry);
        assert!(genome.genes.len() >= before);
        assert!(genome.genes.len() <= before + 3);
    }
}
